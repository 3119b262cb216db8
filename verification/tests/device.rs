//! The console and the shared ring.
use nesthost::device::{SharedRing, VirtualConsole};
use nesthost::mem::HostMemory;

#[test]
fn writes_low_byte_and_counts() {
    let mut c = VirtualConsole::new();
    c.write(u64::from(b'H'));
    c.write(u64::from(b'i'));
    c.write(0x1_0000 + u64::from(b'!')); // high bits ignored
    assert_eq!(c.as_string(), "Hi!");
    assert_eq!(c.write_count(), 3);
}

#[test]
fn empty_console() {
    let c = VirtualConsole::default();
    assert_eq!(c.as_string(), "");
    assert_eq!(c.write_count(), 0);
    assert!(c.bytes().is_empty());
}

#[test]
fn console_debug_text_and_clone() {
    let mut c = VirtualConsole::new();
    assert_eq!(format!("{c:?}"), "VirtualConsole { bytes: [], writes: 0 }");
    c.write(72);
    c.write(0x105);
    assert_eq!(format!("{c:?}"), "VirtualConsole { bytes: [72, 5], writes: 2 }");
    let mut d = c.clone();
    d.write(1);
    assert_eq!((c.bytes(), c.write_count()), (&[72u8, 5][..], 2));
    assert_eq!((d.bytes(), d.write_count()), (&[72u8, 5, 1][..], 3));
}

#[test]
fn invalid_bytes_decode_lossily() {
    let mut c = VirtualConsole::new();
    c.write(u64::from(b'a'));
    c.write(0xFF);
    c.write(u64::from(b'b'));
    assert_eq!(c.bytes(), &[b'a', 0xFF, b'b']);
    assert_eq!(c.as_string(), "a\u{FFFD}b");
    let mut d = VirtualConsole::new();
    for byte in "h\u{e9}".bytes() {
        d.write(u64::from(byte));
    }
    assert_eq!(d.as_string(), "h\u{e9}");
}

fn publish(mem: &mut HostMemory, hfn: u64, from: u64, words: &[u64]) {
    for (i, word) in words.iter().enumerate() {
        let slot = SharedRing::FIRST_SLOT + (from.wrapping_add(i as u64)) % SharedRing::CAP;
        mem.write_word(hfn, slot, *word);
    }
    mem.write_word(hfn, SharedRing::HEAD, from.wrapping_add(words.len() as u64));
}

#[test]
fn drain_receives_what_was_published() {
    let mut mem = HostMemory::new(2);
    let hfn = mem.alloc_frame();
    let mut ring = SharedRing::new(3, hfn, 1);
    assert_eq!((ring.guest_id, ring.hfn, ring.gpn), (3, hfn, 1));
    assert_eq!(ring.drain(&mut mem, 100), 0);
    publish(&mut mem, hfn, 0, &[0x148, 0x69]);
    assert_eq!(ring.drain(&mut mem, 100), 2);
    assert_eq!(ring.received(), &[0x148, 0x69]);
    assert_eq!(ring.received_string(), "Hi");
    assert_eq!(mem.read_word(hfn, SharedRing::TAIL), 2);
    // Nothing is left, and nothing else changed.
    assert_eq!(ring.drain(&mut mem, 100), 0);
    assert_eq!(mem.read_word(hfn, SharedRing::HEAD), 2);
    assert_eq!(mem.read_word(hfn, SharedRing::FIRST_SLOT), 0x148);
    // The positions wrap around the slots.
    publish(&mut mem, hfn, 2, &[1, 2, 3, 4, 5, 6, 7, 8, 9, 10, 11, 12, 13, 14]);
    assert_eq!(ring.drain(&mut mem, 100), 14);
    assert_eq!(ring.received()[2..], [1, 2, 3, 4, 5, 6, 7, 8, 9, 10, 11, 12, 13, 14]);
}

#[test]
fn drain_is_clamped_to_the_slots() {
    let mut mem = HostMemory::new(1);
    let hfn = mem.alloc_frame();
    let mut ring = SharedRing::new(0, hfn, 0);
    assert_eq!(SharedRing::CAP, 14);
    mem.write_word(hfn, SharedRing::HEAD, u64::MAX);
    assert_eq!(ring.drain(&mut mem, 100), SharedRing::CAP);
    assert_eq!(ring.received().len(), 14);
    assert_eq!(mem.read_word(hfn, SharedRing::TAIL), 14);
    // A head behind the tail counts around the whole index space.
    mem.write_word(hfn, SharedRing::HEAD, 13);
    assert_eq!(ring.drain(&mut mem, 100), 14);
}

#[test]
fn indices_wrap_at_the_word() {
    let mut mem = HostMemory::new(1);
    let hfn = mem.alloc_frame();
    let mut ring = SharedRing::new(0, hfn, 0);
    mem.write_word(hfn, SharedRing::TAIL, u64::MAX);
    publish(&mut mem, hfn, u64::MAX, &[7, 8]);
    assert_eq!(mem.read_word(hfn, SharedRing::HEAD), 1);
    assert_eq!(ring.drain(&mut mem, 100), 2);
    assert_eq!(ring.received(), &[7, 8]);
    assert_eq!(mem.read_word(hfn, SharedRing::TAIL), 1);
}

#[test]
fn history_is_capped() {
    let mut mem = HostMemory::new(1);
    let hfn = mem.alloc_frame();
    let mut ring = SharedRing::new(0, hfn, 0);
    publish(&mut mem, hfn, 0, &[1, 2, 3]);
    assert_eq!(ring.drain(&mut mem, 2), 3);
    assert_eq!(ring.received(), &[1, 2]);
    publish(&mut mem, hfn, 3, &[4]);
    assert_eq!(ring.drain(&mut mem, 2), 1);
    assert_eq!(ring.received(), &[1, 2]);
    publish(&mut mem, hfn, 4, &[5]);
    assert_eq!(ring.drain(&mut mem, 0), 1);
    assert_eq!(ring.received(), &[1, 2]);
}
