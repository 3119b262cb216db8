//! Text that the machine shows: decoded device output and printed numbers.
use vstd::prelude::*;

verus! {

/// The text that `String::from_utf8_lossy` makes of `bytes`.
pub uninterp spec fn lossy_text(bytes: Seq<u8>) -> Seq<char>;

/// Calls `String::from_utf8_lossy`. The text is a function of the bytes alone,
/// and bytes that are valid UTF-8 are decoded as they stand. Which replacement
/// characters stand in for invalid bytes is left to the standard library.
#[verifier::external_body]
pub(crate) fn decode_lossy(bytes: &[u8]) -> (text: String)
    ensures
        text@ == lossy_text(bytes@),
        vstd::utf8::valid_utf8(bytes@) ==> text@ == vstd::utf8::decode_utf8(bytes@),
{
    String::from_utf8_lossy(bytes).into_owned()
}

/// The character of decimal digit `d`.
pub open spec fn digit(d: nat) -> char {
    (48 + d) as char
}

/// The decimal digits of `n`, without leading zeros.
pub open spec fn decimal(n: nat) -> Seq<char>
    decreases n,
{
    if n < 10 {
        seq![digit(n)]
    } else {
        decimal(n / 10).push(digit(n % 10))
    }
}

/// `text` right aligned in a field of `width`, padded with spaces.
pub open spec fn right_aligned(text: Seq<char>, width: nat) -> Seq<char> {
    if text.len() < width {
        Seq::new((width - text.len()) as nat, |i: int| ' ') + text
    } else {
        text
    }
}

/// Append decimal digit `d`.
fn push_digit(out: &mut String, d: u64)
    requires
        d < 10,
    ensures
        final(out)@ == old(out)@.push(digit(d as nat)),
{
    let text: &str = match d {
        0 => "0",
        1 => "1",
        2 => "2",
        3 => "3",
        4 => "4",
        5 => "5",
        6 => "6",
        7 => "7",
        8 => "8",
        _ => "9",
    };
    proof {
        reveal_strlit("0");
        reveal_strlit("1");
        reveal_strlit("2");
        reveal_strlit("3");
        reveal_strlit("4");
        reveal_strlit("5");
        reveal_strlit("6");
        reveal_strlit("7");
        reveal_strlit("8");
        reveal_strlit("9");
        assert(text@ =~= seq![digit(d as nat)]);
    }
    out.append(text);
    assert(out@ =~= old(out)@.push(digit(d as nat)));
}

/// Append `n` in decimal.
pub(crate) fn push_decimal(out: &mut String, n: u64)
    ensures
        final(out)@ == old(out)@ + decimal(n as nat),
    decreases n,
{
    if n >= 10 {
        push_decimal(out, n / 10);
    }
    push_digit(out, n % 10);
    assert(out@ =~= old(out)@ + decimal(n as nat));
}

/// The number of decimal digits of `n`, as far as `limit` is not reached.
fn digits_below(n: u64, limit: usize) -> (count: usize)
    ensures
        decimal(n as nat).len() < limit ==> count == decimal(n as nat).len(),
        decimal(n as nat).len() >= limit ==> count == limit,
    decreases limit,
{
    if limit == 0 {
        0
    } else if n < 10 {
        1
    } else {
        1 + digits_below(n / 10, limit - 1)
    }
}

/// Append `n` in decimal, right aligned in a field of `width`.
pub(crate) fn push_aligned(out: &mut String, n: u64, width: usize)
    ensures
        final(out)@ == old(out)@ + right_aligned(decimal(n as nat), width as nat),
{
    let count: usize = digits_below(n, width);
    let mut padded: usize = count;
    while padded < width
        invariant
            count <= padded,
            padded <= width || padded == count,
            out@ == old(out)@ + Seq::new((padded - count) as nat, |i: int| ' '),
        decreases width - padded,
    {
        proof {
            reveal_strlit(" ");
        }
        out.append(" ");
        padded = padded + 1;
        assert(out@ =~= old(out)@ + Seq::new((padded - count) as nat, |i: int| ' '));
    }
    push_decimal(out, n);
    assert(out@ =~= old(out)@ + right_aligned(decimal(n as nat), width as nat));
}

} // verus!
