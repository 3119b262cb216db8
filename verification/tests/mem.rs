//! Host memory and the second level page table.
use nesthost::mem::{HostMemory, PageTable, Perm, PhysFault, PAGE_WORDS};

#[test]
fn alloc_is_monotonic_and_disjoint() {
    let mut mem = HostMemory::new(4);
    let a = mem.alloc_frame();
    let b = mem.alloc_frame();
    assert_ne!(a, b);
    assert_eq!(a, 0);
    assert_eq!(b, 1);
}

#[test]
fn translate_maps_page_and_offset() {
    let mut pt = PageTable::new();
    pt.map(0, 7, Perm::rw());
    // gpa 3 is inside page 0 at offset 3, backed by host frame 7.
    let (hfn, off) = pt.translate(3, false).unwrap();
    assert_eq!(hfn, 7);
    assert_eq!(off, 3);
    // gpa PAGE_WORDS is the first word of page 1, which is unmapped.
    assert_eq!(pt.translate(PAGE_WORDS, false), Err(PhysFault::Unmapped));
}

#[test]
fn read_only_page_faults_on_write() {
    let mut pt = PageTable::new();
    pt.map(0, 1, Perm::ro());
    assert!(pt.translate(0, false).is_ok());
    assert_eq!(pt.translate(0, true), Err(PhysFault::Protection));
}

#[test]
fn round_trip_through_translation() {
    let mut mem = HostMemory::new(2);
    let hfn = mem.alloc_frame();
    let mut pt = PageTable::new();
    pt.map(0, hfn, Perm::rw());
    let (h, off) = pt.translate(5, true).unwrap();
    mem.write_word(h, off, 0xDEAD_BEEF);
    let (h2, off2) = pt.translate(5, false).unwrap();
    assert_eq!(mem.read_word(h2, off2), 0xDEAD_BEEF);
}

#[test]
fn frames_start_zeroed_and_count() {
    let mut mem = HostMemory::new(3);
    assert_eq!(mem.frame_count(), 3);
    for hfn in 0..3 {
        for offset in 0..PAGE_WORDS {
            assert_eq!(mem.read_word(hfn, offset), 0);
        }
    }
    mem.write_word(1, 15, 7);
    assert_eq!(mem.read_word(1, 15), 7);
    assert_eq!(mem.read_word(1, 14), 0);
    assert_eq!(mem.read_word(2, 15), 0);
    assert_eq!(mem.frame_count(), 3);
    assert_eq!(HostMemory::new(0).frame_count(), 0);
}

#[test]
fn last_mapping_of_a_page_wins() {
    let mut pt = PageTable::default();
    assert_eq!(pt.host_frame(2), None);
    pt.map(2, 9, Perm::ro());
    pt.map(0, 4, Perm::rw());
    pt.map(2, 5, Perm::rw());
    assert_eq!(pt.host_frame(2), Some(5));
    assert_eq!(pt.host_frame(0), Some(4));
    assert_eq!(pt.host_frame(1), None);
    assert_eq!(pt.mapped_frames(), vec![4, 5]);
    assert_eq!(pt.translate(2 * PAGE_WORDS + 3, true), Ok((5, 3)));
}

#[test]
fn mappings_are_listed_in_page_order() {
    let mut pt = PageTable::new();
    pt.map(7, 1, Perm::ro());
    pt.map(u64::MAX / PAGE_WORDS, 3, Perm::rw());
    pt.map(0, 2, Perm::rw());
    let all: Vec<(u64, u64, Perm)> = pt.iter();
    assert_eq!(
        all,
        vec![
            (0, 2, Perm::rw()),
            (7, 1, Perm::ro()),
            (u64::MAX / PAGE_WORDS, 3, Perm::rw()),
        ]
    );
    assert_eq!(pt.translate(u64::MAX, false), Ok((3, 15)));
    assert_eq!(PageTable::new().iter(), vec![]);
}

#[test]
fn unreadable_page_faults_on_read() {
    let mut pt = PageTable::new();
    pt.map(0, 1, Perm { read: false, write: true });
    assert_eq!(pt.translate(0, false), Err(PhysFault::Protection));
    assert_eq!(pt.translate(0, true), Ok((1, 0)));
    assert_eq!(pt.translate(16, true), Err(PhysFault::Unmapped));
}

#[test]
fn distinct_addresses_do_not_alias() {
    let mut pt = PageTable::new();
    for gpn in 0..4 {
        pt.map(gpn, 3 - gpn, Perm::rw());
    }
    let mut seen = std::collections::BTreeSet::new();
    for gpa in 0..4 * PAGE_WORDS {
        assert!(seen.insert(pt.translate(gpa, true).unwrap()));
    }
}
