use imaglib::obj::{Arena, ArenaInternal, ArenaSpan, MemoryException, DEFAULT_CAPACITY};

#[test]
fn spans_are_aligned_and_follow_each_other() {
    let mut a = Arena::new_with_capacity(16);
    assert_eq!(a.alloc_bytes(4, 4), ArenaSpan { arena: 0, offset: 0, len: 4 });
    assert_eq!(a.alloc_bytes(3, 4), ArenaSpan { arena: 0, offset: 4, len: 3 });
    assert_eq!(a.alloc_bytes(2, 4), ArenaSpan { arena: 0, offset: 8, len: 2 });
}

#[test]
fn full_blocks_chain_to_new_ones() {
    let mut a = Arena::new_with_capacity(16);
    assert_eq!(a.alloc_bytes(10, 1), ArenaSpan { arena: 0, offset: 0, len: 10 });
    assert_eq!(a.alloc_bytes(10, 1), ArenaSpan { arena: 1, offset: 0, len: 10 });
    assert_eq!(a.alloc_bytes(20, 1), ArenaSpan { arena: 2, offset: 0, len: 20 });
    assert_eq!(a.alloc_bytes(3, 1), ArenaSpan { arena: 0, offset: 10, len: 3 });
    assert_eq!(a.alloc_bytes(5, 1), ArenaSpan { arena: 1, offset: 10, len: 5 });
}

#[test]
fn a_span_must_end_strictly_inside_its_block() {
    let mut a = Arena::new_with_capacity(8);
    assert_eq!(a.alloc_bytes(7, 1), ArenaSpan { arena: 0, offset: 0, len: 7 });
    let mut b = Arena::new_with_capacity(8);
    assert_eq!(b.alloc_bytes(9, 1), ArenaSpan { arena: 1, offset: 0, len: 9 });
    assert_eq!(b.alloc_bytes(6, 2), ArenaSpan { arena: 0, offset: 0, len: 6 });
    assert_eq!(b.alloc_bytes(1, 4), ArenaSpan { arena: 1, offset: 12, len: 1 });
}

#[test]
fn default_blocks() {
    let mut a = Arena::new();
    assert_eq!(a.alloc_bytes(16, 8), ArenaSpan { arena: 0, offset: 0, len: 16 });
    let mut i = ArenaInternal::new();
    assert_eq!(i.alloc_bytes(40000, 1), ArenaSpan { arena: 0, offset: 0, len: 40000 });
    assert_eq!(i.alloc_bytes(40000, 1), ArenaSpan { arena: 1, offset: 0, len: 40000 });
    assert_eq!(DEFAULT_CAPACITY, 65536);
    let mut d = Arena::default();
    d.clear();
    assert_eq!(d.alloc_bytes(1, 1), ArenaSpan { arena: 0, offset: 0, len: 1 });
}

#[test]
fn memory_exceptions() {
    let e = MemoryException::IndexOutOfBounds { index: 3, len: 2 };
    assert_eq!(e, MemoryException::IndexOutOfBounds { index: 3, len: 2 });
    assert_ne!(MemoryException::NullPtr, MemoryException::DanglingPtr { address: 0 });
}

#[test]
fn spans_of_a_run_never_overlap() {
    let mut a = Arena::new_with_capacity(32);
    let reqs: [(usize, usize); 8] = [(5, 1), (7, 4), (30, 2), (3, 8), (12, 1), (2, 2), (9, 4), (1, 1)];
    let mut spans: Vec<ArenaSpan> = Vec::new();
    for (count, align) in reqs {
        let s = a.alloc_bytes(count, align);
        assert_eq!(s.len, count);
        assert_eq!(s.offset % align, 0);
        spans.push(s);
    }
    for i in 0..spans.len() {
        for k in i + 1..spans.len() {
            if spans[i].arena == spans[k].arena {
                assert!(spans[i].offset + spans[i].len <= spans[k].offset);
            }
        }
    }
}

#[test]
fn handed_out_bytes_are_zero_and_writable() {
    let mut a = Arena::new_with_capacity(16);
    let s1 = a.alloc_bytes(3, 1);
    let s2 = a.alloc_bytes(2, 4);
    assert_eq!(s1, ArenaSpan { arena: 0, offset: 0, len: 3 });
    assert_eq!(s2, ArenaSpan { arena: 0, offset: 4, len: 2 });
    assert_eq!((a.read(s1, 0), a.read(s1, 1), a.read(s1, 2)), (0, 0, 0));
    assert_eq!((a.read(s2, 0), a.read(s2, 1)), (0, 0));
    a.write(s1, 2, 7);
    a.write(s2, 0, 9);
    assert_eq!(a.read(s1, 2), 7);
    assert_eq!(a.read(s2, 0), 9);
    assert_eq!(a.read(s2, 1), 0);
    let s3 = a.alloc_bytes(20, 1);
    assert_eq!(s3.arena, 1);
    for i in 0..20 {
        assert_eq!(a.read(s3, i), 0);
    }
    assert_eq!(a.read(s1, 2), 7);
}

#[test]
fn internal_blocks_read_and_write() {
    let mut i = ArenaInternal::new_with_capacity(8);
    let s = i.alloc_bytes(4, 2);
    let t = i.alloc_bytes(10, 1);
    assert_eq!(t.arena, 1);
    i.write_byte(t.arena, t.offset + 3, 5);
    assert_eq!(i.read_byte(t.arena, t.offset + 3), 5);
    assert_eq!(i.read_byte(s.arena, s.offset), 0);
}
