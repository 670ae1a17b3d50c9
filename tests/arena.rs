use stack_arena::{Meta, OutOfSpace, Stack, CHUNK_SIZE, MAX_CAPACITY, META_SIZE};

fn block(addr: usize, free: bool, size: usize, prev: Option<usize>, next: Option<usize>) -> Meta {
    Meta { addr, free, size, prev, next }
}

fn assert_covers(stack: &Stack, capacity: usize) {
    let blocks = stack.collect();
    assert_eq!(blocks[0].addr, 0);
    assert_eq!(blocks[0].prev, None);
    for pair in blocks.windows(2) {
        assert_eq!(pair[0].next, Some(pair[1].addr));
        assert_eq!(pair[1].prev, Some(pair[0].addr));
        assert!(pair[0].addr + META_SIZE + pair[0].size <= pair[1].addr);
    }
    let last = blocks[blocks.len() - 1];
    assert_eq!(last.next, None);
    assert!(last.addr + META_SIZE + last.size <= capacity);
}

fn assert_no_adjacent_free(stack: &Stack) {
    let blocks = stack.collect();
    for pair in blocks.windows(2) {
        assert!(!(pair[0].free && pair[1].free));
    }
}

#[test]
fn new_arena_is_one_free_block() {
    let stack = Stack::new(64);
    assert_eq!(stack.collect(), vec![block(0, true, 62, None, None)]);
    let largest = Stack::new(MAX_CAPACITY);
    assert_eq!(largest.collect(), vec![block(0, true, 126, None, None)]);
    let smallest = Stack::new(CHUNK_SIZE);
    assert_eq!(smallest.collect(), vec![block(0, true, 6, None, None)]);
}

#[test]
fn try_new_rejects_capacities_the_headers_cannot_describe() {
    assert!(Stack::try_new(0).is_none());
    assert!(Stack::try_new(1).is_none());
    assert!(Stack::try_new(7).is_none());
    assert!(Stack::try_new(12).is_none());
    assert!(Stack::try_new(130).is_none());
    assert!(Stack::try_new(136).is_none());
    assert!(Stack::try_new(256).is_none());
    let s = Stack::try_new(8).unwrap();
    assert_eq!(s.collect(), vec![block(0, true, 6, None, None)]);
    let s = Stack::try_new(128).unwrap();
    assert_eq!(s.collect(), vec![block(0, true, 126, None, None)]);
}

#[test]
fn ceil_rounds_up_to_chunks() {
    let s = Stack::new(64);
    assert_eq!(s.ceil(0), 0);
    assert_eq!(s.ceil(1), 8);
    assert_eq!(s.ceil(7), 8);
    assert_eq!(s.ceil(8), 8);
    assert_eq!(s.ceil(9), 16);
    assert_eq!(s.ceil(14), 16);
    assert_eq!(s.ceil(61), 64);
}

#[test]
fn write_then_read_header() {
    let mut s = Stack::new(64);
    s.write_meta(&block(16, false, 5, Some(8), None));
    assert_eq!(s.read_meta(16), block(16, false, 5, Some(8), Some(24)));
    s.write_meta(&block(24, true, 127, None, None));
    assert_eq!(s.read_meta(24), block(24, true, 127, Some(0), None));
    s.write_meta(&block(40, true, 6, Some(40), None));
    assert_eq!(s.read_meta(40), block(40, true, 6, None, Some(48)));
    assert_eq!(s.read_meta(0), block(0, true, 62, None, None));
}

#[test]
fn scenario_allocate_and_free() {
    let mut s = Stack::new(64);
    assert_eq!(s.collect(), vec![block(0, true, 62, None, None)]);

    let a = s.allocate(12).unwrap();
    assert_eq!(a, block(0, false, 12, None, Some(16)));
    assert_eq!(
        s.collect(),
        vec![block(0, false, 12, None, Some(16)), block(16, true, 46, Some(0), None)]
    );

    let b = s.allocate(6).unwrap();
    assert_eq!(b, block(16, false, 6, Some(0), Some(24)));
    assert_eq!(
        s.collect(),
        vec![
            block(0, false, 12, None, Some(16)),
            block(16, false, 6, Some(0), Some(24)),
            block(24, true, 38, Some(16), None),
        ]
    );

    let fa = s.free(a);
    assert_eq!(fa, block(0, true, 14, None, Some(16)));
    assert_eq!(
        s.collect(),
        vec![
            block(0, true, 14, None, Some(16)),
            block(16, false, 6, Some(0), Some(24)),
            block(24, true, 38, Some(16), None),
        ]
    );

    let fb = s.free(b);
    assert_eq!(fb, block(0, true, 62, None, None));
    assert_eq!(s.collect(), vec![block(0, true, 62, None, None)]);
}

#[test]
fn find_free_is_first_fit() {
    let mut s = Stack::new(64);
    let a = s.allocate(12).unwrap();
    s.allocate(6).unwrap();
    s.free(a);
    assert_eq!(s.find_free(10, 0), Ok(block(0, true, 14, None, Some(16))));
    assert_eq!(s.find_free(15, 0), Ok(block(24, true, 38, Some(16), None)));
    assert_eq!(s.find_free(10, 24), Ok(block(24, true, 38, Some(16), None)));
    assert_eq!(s.find_free(39, 0), Err(OutOfSpace));
}

#[test]
fn out_of_space_leaves_chain_unchanged() {
    let mut s = Stack::new(64);
    assert_eq!(s.allocate(63), Err(OutOfSpace));
    assert_eq!(s.collect(), vec![block(0, true, 62, None, None)]);
    s.allocate(30).unwrap();
    let before = s.collect();
    assert_eq!(s.allocate(31), Err(OutOfSpace));
    assert_eq!(s.allocate(usize::MAX), Err(OutOfSpace));
    assert_eq!(s.collect(), before);
    assert!(s.allocate(30).is_ok());
}

#[test]
fn split_threshold() {
    // 0 + 2 + 55 rounds to 64: nothing is left, no new block.
    let mut s = Stack::new(64);
    assert_eq!(s.allocate(55).unwrap(), block(0, false, 55, None, None));
    assert_eq!(s.collect().len(), 1);

    // 0 + 2 + 56 rounds to 64 as well.
    let mut s = Stack::new(64);
    s.allocate(56).unwrap();
    assert_eq!(s.collect(), vec![block(0, false, 56, None, None)]);

    // 0 + 2 + 54 rounds to 56: one chunk is left for a free block.
    let mut s = Stack::new(64);
    s.allocate(54).unwrap();
    assert_eq!(
        s.collect(),
        vec![block(0, false, 54, None, Some(56)), block(56, true, 6, Some(0), None)]
    );
}

#[test]
fn allocate_then_free_restores_chain() {
    let mut s = Stack::new(128);
    let x = s.allocate(20).unwrap();
    let y = s.allocate(3).unwrap();
    s.allocate(40).unwrap();
    s.free(x);
    let before = s.collect();
    for size in [0usize, 1, 6, 7, 8, 13, 14, 15, 22] {
        let got = s.allocate(size).unwrap();
        s.free(got);
        assert_eq!(s.collect(), before);
    }
    s.free(y);
    let before = s.collect();
    let got = s.allocate(40).unwrap();
    assert_eq!(got.addr, 80);
    s.free(got);
    assert_eq!(s.collect(), before);
}

#[test]
fn collect_twice_gives_the_same_blocks() {
    let mut s = Stack::new(64);
    s.allocate(5).unwrap();
    s.allocate(9).unwrap();
    let first = s.collect();
    let second = s.collect();
    assert_eq!(first, second);
    assert_eq!(first.len(), 3);
}

#[test]
fn split_repairs_successor_back_link() {
    let mut s = Stack::new(64);
    let a = s.allocate(12).unwrap();
    let b = s.allocate(12).unwrap();
    s.free(a);
    let c = s.allocate(6).unwrap();
    assert_eq!(c, block(0, false, 6, None, Some(8)));
    assert_eq!(s.read_meta(16).prev, Some(8));
    let d = s.allocate(6).unwrap();
    assert_eq!(d, block(8, false, 6, Some(0), Some(16)));
    s.free(c);
    s.free(b);
    assert_eq!(
        s.collect(),
        vec![
            block(0, true, 6, None, Some(8)),
            block(8, false, 6, Some(0), Some(16)),
            block(16, true, 46, Some(8), None),
        ]
    );
    assert_covers(&s, 64);
    assert_no_adjacent_free(&s);
}

#[test]
fn free_restores_full_footprint() {
    let mut s = Stack::new(64);
    let a = s.allocate(8).unwrap();
    assert_eq!(a, block(0, false, 8, None, Some(16)));
    s.allocate(0).unwrap();
    assert_eq!(s.free(a), block(0, true, 14, None, Some(16)));
    let z = s.allocate(0).unwrap();
    assert_eq!(z, block(0, false, 0, None, Some(8)));
    assert_eq!(s.free(z), block(0, true, 14, None, Some(16)));
    assert_covers(&s, 64);
}

#[test]
fn free_merges_both_sides() {
    let mut s = Stack::new(64);
    let a = s.allocate(6).unwrap();
    let b = s.allocate(6).unwrap();
    let c = s.allocate(6).unwrap();
    let d = s.allocate(6).unwrap();
    s.free(a);
    s.free(c);
    assert_eq!(s.collect().len(), 5);
    assert_eq!(s.free(b), block(0, true, 22, None, Some(24)));
    assert_eq!(s.read_meta(24).prev, Some(0));
    assert_eq!(s.free(d), block(0, true, 62, None, None));
    assert_eq!(s.collect(), vec![block(0, true, 62, None, None)]);
}

#[test]
fn invariants_hold_through_mixed_operations() {
    let mut s = Stack::new(128);
    let mut live = Vec::new();
    for size in [3usize, 17, 0, 9, 30, 5, 1] {
        if let Ok(m) = s.allocate(size) {
            live.push(m);
        }
        assert_covers(&s, 128);
    }
    for idx in [1usize, 3, 0, 5, 2, 6, 4] {
        if idx < live.len() {
            let m = live[idx];
            assert!(s.is_used_block(m.addr));
            s.free(m);
            assert!(!s.is_used_block(m.addr));
            assert_covers(&s, 128);
            assert_no_adjacent_free(&s);
        }
    }
    assert_eq!(s.collect(), vec![block(0, true, 126, None, None)]);
}

#[test]
fn is_used_block_checks_address_and_flag() {
    let mut s = Stack::new(64);
    assert!(!s.is_used_block(0));
    let a = s.allocate(12).unwrap();
    assert!(s.is_used_block(a.addr));
    assert!(!s.is_used_block(16));
    assert!(!s.is_used_block(8));
    assert!(!s.is_used_block(1000));
}

#[test]
fn fresh_buffer_is_zeroed_and_untouched_bytes_stay() {
    let mut s = Stack::new(64);
    let zero_header_at_8 = block(8, false, 0, Some(0), Some(16));
    assert_eq!(s.read_meta(8), zero_header_at_8);
    assert_eq!(s.read_meta(40), block(40, false, 0, Some(0), Some(48)));
    let a = s.allocate(12).unwrap();
    assert_eq!(s.read_meta(0), a);
    assert_eq!(s.read_meta(16), block(16, true, 46, Some(0), None));
    assert_eq!(s.read_meta(40), block(40, false, 0, Some(0), Some(48)));
    let f = s.free(a);
    assert_eq!(s.read_meta(0), f);
    assert_eq!(s.read_meta(40), block(40, false, 0, Some(0), Some(48)));
}
