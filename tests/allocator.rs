use stable_storage::{Allocation, Allocator, INITIAL_OFFSET};

/// Allocates `n` bytes, growing the simulated memory by what the allocator asks for.
fn take(a: &mut Allocator, mem: &mut u64, n: u64) -> u64 {
    let Allocation { offset, grow } = a.allocate(n, *mem);
    if let Some(delta) = grow {
    *mem += delta;
    }
    offset
}

#[test]
fn test_allocator() {
    let mut mem: u64 = 16;
    let mut a = Allocator::new();
    assert_eq!(a.boundary(), 16);

    // |oooooooooooooooo|...
    assert_eq!(mem, 16);
    assert_eq!(a.segs(), 0);

    assert_eq!(take(&mut a, &mut mem, 8), 16);
    // |oooooooooooooooo|xxxxxxxx|...
    assert_eq!(mem, 16 + 8);

    assert_eq!(take(&mut a, &mut mem, 4), 16 + 8);
    // |oooooooooooooooo|xxxxxxxx|xxxx|...
    assert_eq!(mem, 16 + 8 + 4);

    assert_eq!(take(&mut a, &mut mem, 4), 16 + 8 + 4);
    // |oooooooooooooooo|xxxxxxxx|xxxx|xxxx| 32
    assert_eq!(mem, 16 + 8 + 4 + 4);
    assert_eq!(a.segs(), 0);

    a.free(16 + 8, 4);

    // |oooooooooooooooo|xxxxxxxx|....|xxxx| 32
    assert_eq!(a.segs(), 1);
    assert_eq!(a.seg(16 + 8), 4);

    assert_eq!(take(&mut a, &mut mem, 4), 16 + 8);
    // |oooooooooooooooo|xxxxxxxx|xxxx|xxxx| 32
    assert_eq!(a.segs(), 0);

    a.free(16, 8);
    // |oooooooooooooooo|........|xxxx|xxxx| 32
    assert_eq!(a.segs(), 1);
    assert_eq!(a.seg(16), 8);

    a.free(16 + 8, 4);
    // |oooooooooooooooo|............|xxxx|...
    assert_eq!(a.segs(), 1);
    assert_eq!(a.seg(16), 8 + 4);

    assert_eq!(take(&mut a, &mut mem, 10), 16);
    // |oooooooooooooooo|xxxxxxxxxx|..|xxxx|...
    assert_eq!(a.segs(), 1);
    assert_eq!(a.seg(16 + 10), 2);

    assert_eq!(take(&mut a, &mut mem, 32), 32);
    // |oooooooooooooooo|xxxxxxxxxx|..|xxxx|xxxxxxxxxxxxxxxxxxxxxxxxxxxxxxxx|
    assert_eq!(a.segs(), 1);
    assert_eq!(a.seg(16 + 10), 2);

    a.free(32, 32);
    // |oooooooooooooooo|xxxxxxxxxx|..|xxxx|...
    assert_eq!(a.segs(), 2);
    assert_eq!(a.seg(16 + 10), 2);
    assert_eq!(a.seg(32), 32);

    assert_eq!(take(&mut a, &mut mem, 16), 32);
    // |oooooooooooooooo|xxxxxxxxxx|..|xxxx|xxxxxxxxxxxxxxxx|... 64
    assert_eq!(a.segs(), 2);
    assert_eq!(a.seg(16 + 10), 2);
    assert_eq!(a.seg(32 + 16), 16);

    a.free(16 + 10 + 2, 4);
    // |oooooooooooooooo|xxxxxxxxxx|......|xxxxxxxxxxxxxxxx|... 64
    assert_eq!(a.segs(), 2);
    assert_eq!(a.seg(16 + 10), 6);
    assert_eq!(a.seg(32 + 16), 16);

    a.free(16, 10);
    // |oooooooooooooooo|................|xxxxxxxxxxxxxxxx|... 64
    assert_eq!(a.segs(), 2);
    assert_eq!(a.seg(16), 16);
    assert_eq!(a.seg(32 + 16), 16);

    a.free(32, 16);
    // |oooooooooooooooo|... 64
    assert_eq!(a.segs(), 1);
    assert_eq!(a.seg(16), 48);

    assert_eq!(take(&mut a, &mut mem, 8), 16);
    // |oooooooooooooooo|xxxxxxxx|... 64

    assert_eq!(take(&mut a, &mut mem, 4), 16 + 8);
    // |oooooooooooooooo|xxxxxxxx|xxxx|... 64

    assert_eq!(take(&mut a, &mut mem, 4), 16 + 8 + 4);
    // |oooooooooooooooo|xxxxxxxx|xxxx|xxxx|... 64
    assert_eq!(a.segs(), 1);
    assert_eq!(a.seg(32), 32);

    assert_eq!(take(&mut a, &mut mem, 4), 16 + 8 + 4 + 4);
    assert_eq!(take(&mut a, &mut mem, 4), 16 + 8 + 4 + 4 + 4);
    // |oooooooooooooooo|xxxxxxxx|xxxx|xxxx|xxxx|xxxx|... 64
    assert_eq!(a.segs(), 1);
    assert_eq!(a.seg(40), 24);
    assert_eq!(mem, 64);

    a.free(16, 8);
    // |oooooooooooooooo|........|xxxx|xxxx|xxxx|xxxx|... 64
    a.free(16 + 8 + 4, 4);
    // |oooooooooooooooo|........|xxxx|....|xxxx|xxxx|... 64
    assert_eq!(a.segs(), 3);
    assert_eq!(a.seg(16), 8);
    assert_eq!(a.seg(16 + 8 + 4), 4);
    assert_eq!(a.seg(40), 24);

    assert_eq!(take(&mut a, &mut mem, 4), 28);
    // |oooooooooooooooo|........|xxxx|xxxx|xxxx|xxxx|... 64
    assert_eq!(a.segs(), 2);
    assert_eq!(a.seg(16), 8);
    assert_eq!(a.seg(40), 24);

    assert_eq!(take(&mut a, &mut mem, 20), 40);
    // |oooooooooooooooo|........|xxxx|xxxx|xxxx|xxxx|xxxxxxxxxxxxxxxxxxxx|...
    assert_eq!(a.segs(), 2);
    assert_eq!(a.seg(16), 8);
    assert_eq!(a.seg(60), 4);

    assert_eq!(take(&mut a, &mut mem, 4), 60);
    assert_eq!(take(&mut a, &mut mem, 4), 16);
    // |oooooooooooooooo|xxxx|....|xxxx|xxxx|xxxx|xxxx|xxxxxxxxxxxxxxxxxxxx|xxxx|
    assert_eq!(a.segs(), 1);
    assert_eq!(a.seg(20), 4);

    assert_eq!(take(&mut a, &mut mem, 4), 20);
    // |oooooooooooooooo|xxxx|xxxx|xxxx|xxxx|xxxx|xxxx|xxxxxxxxxxxxxxxxxxxx|xxxx|
    assert_eq!(a.segs(), 0);

    assert_eq!(take(&mut a, &mut mem, 4), 64);
    // |oooooooooooooooo|xxxx|xxxx|xxxx|xxxx|xxxx|xxxx|xxxxxxxxxxxxxxxxxxxx|xxxx|xxxx
    assert_eq!(a.segs(), 0);

    a.free(64, 4);
    // |oooooooooooooooo|xxxx|xxxx|xxxx|xxxx|xxxx|xxxx|xxxxxxxxxxxxxxxxxxxx|xxxx|....
    assert_eq!(a.segs(), 1);
    assert_eq!(a.seg(64), 4);

    a.free(16, 4);
    // |oooooooooooooooo|....|xxxx|xxxx|xxxx|xxxx|xxxx|xxxxxxxxxxxxxxxxxxxx|xxxx|....
    assert_eq!(a.segs(), 2);
    assert_eq!(a.seg(16), 4);
    assert_eq!(a.seg(64), 4);

    a.free(20, 4);
    // |oooooooooooooooo|........|xxxx|xxxx|xxxx|xxxx|xxxxxxxxxxxxxxxxxxxx|xxxx|....
    assert_eq!(a.segs(), 2);
    assert_eq!(a.seg(16), 8);
    assert_eq!(a.seg(64), 4);

    a.free(16 + 8 + 4, 4);
    // |oooooooooooooooo|........|xxxx|....|xxxx|xxxx|xxxxxxxxxxxxxxxxxxxx|xxxx|....
    assert_eq!(a.segs(), 3);
    assert_eq!(a.seg(16), 8);
    assert_eq!(a.seg(16 + 8 + 4), 4);
    assert_eq!(a.seg(64), 4);

    a.free(16 + 8, 4);
    // |oooooooooooooooo|................|xxxx|xxxx|xxxxxxxxxxxxxxxxxxxx|xxxx|....
    assert_eq!(a.segs(), 2);
    assert_eq!(a.seg(16), 16);
    assert_eq!(a.seg(64), 4);

    a.free(32 + 8, 4);
    // |oooooooooooooooo|................|xxxx|xxxx|....|xxxxxxxxxxxxxxx|xxxx|....
    assert_eq!(a.segs(), 3);
    assert_eq!(a.seg(16), 16);
    assert_eq!(a.seg(32 + 8), 4);
    assert_eq!(a.seg(64), 4);

    a.free(32 + 4, 4);
    // |oooooooooooooooo|................|xxxx|........|xxxxxxxxxxxxxxx|xxxx|....
    assert_eq!(a.segs(), 3);
    assert_eq!(a.seg(16), 16);
    assert_eq!(a.seg(32 + 4), 8);
    assert_eq!(a.seg(64), 4);

    assert!(a.boundary() <= mem);
}

#[test]
fn best_fit_prefers_first_exact_match() {
    let mut a = Allocator::from_parts(vec![(100, 4), (200, 10), (300, 4)], 400).unwrap();
    let r = a.allocate(4, 1000);
    assert_eq!(r.offset, 100);
    assert_eq!(r.grow, None);
    assert_eq!(a.segments(), vec![(200, 10), (300, 4)]);
    assert_eq!(a.boundary(), 400);
}

#[test]
fn best_fit_takes_smallest_sufficient_segment() {
    let mut a = Allocator::from_parts(vec![(100, 9), (200, 6), (300, 7)], 400).unwrap();
    let r = a.allocate(5, 1000);
    assert_eq!(r.offset, 200);
    assert_eq!(a.segments(), vec![(100, 9), (205, 1), (300, 7)]);
}

#[test]
fn best_fit_among_equal_sizes_takes_the_last() {
    let mut a = Allocator::from_parts(vec![(100, 6), (200, 6)], 400).unwrap();
    let r = a.allocate(5, 1000);
    assert_eq!(r.offset, 200);
    assert_eq!(a.segments(), vec![(100, 6), (205, 1)]);
}

#[test]
fn coalescing_scenario() {
    let mut a = Allocator::new();
    assert_eq!(a.boundary(), INITIAL_OFFSET);
    assert_eq!(a.allocate(8, 1 << 20).offset, 16);
    assert_eq!(a.allocate(4, 1 << 20).offset, 24);
    assert_eq!(a.allocate(4, 1 << 20).offset, 28);
    a.free(24, 4);
    assert_eq!(a.segments(), vec![(24, 4)]);
    a.free(16, 8);
    assert_eq!(a.segments(), vec![(16, 12)]);
    a.free(28, 4);
    assert_eq!(a.segments(), vec![(16, 16)]);
    assert_eq!(a.allocate(16, 1 << 20).offset, 16);
    assert_eq!(a.segs(), 0);
}

#[test]
fn free_without_neighbours_inserts_in_order() {
    let mut a = Allocator::from_parts(vec![(20, 2), (40, 2)], 64).unwrap();
    a.free(30, 4);
    assert_eq!(a.segments(), vec![(20, 2), (30, 4), (40, 2)]);
    a.free(16, 2);
    assert_eq!(a.segments(), vec![(16, 2), (20, 2), (30, 4), (40, 2)]);
    a.free(50, 14);
    assert_eq!(a.segments(), vec![(16, 2), (20, 2), (30, 4), (40, 2), (50, 14)]);
}

#[test]
fn growth_asks_for_the_requested_bytes() {
    let mut a = Allocator::new();
    let r = a.allocate(100, 65536);
    assert_eq!(r, Allocation { offset: 16, grow: None });
    let r = a.allocate(65420, 65536);
    assert_eq!(r, Allocation { offset: 116, grow: Some(65420) });
    assert_eq!(a.boundary(), 65536);
    let r = a.allocate(1, 131072);
    assert_eq!(r, Allocation { offset: 65536, grow: None });
}

#[test]
fn growth_not_asked_when_a_free_segment_fits() {
    let mut a = Allocator::from_parts(vec![(16, 32)], 48).unwrap();
    let r = a.allocate(32, 48);
    assert_eq!(r, Allocation { offset: 16, grow: None });
    assert_eq!(a.segs(), 0);
    assert_eq!(a.boundary(), 48);
}

#[test]
fn free_list_stays_apart_and_tiles() {
    let mut a = Allocator::new();
    let mut mem: u64 = 16;
    let sizes = [5u64, 3, 8, 1, 7, 2, 9, 4];
    let mut live: Vec<(u64, u64)> = Vec::new();
    for &n in sizes.iter() {
        live.push((take(&mut a, &mut mem, n), n));
    }
    for i in [1usize, 3, 5, 2, 7] {
        let (o, n) = live[i];
        a.free(o, n);
        live[i] = (0, 0);
    }
    live.retain(|&(_, n)| n > 0);
    live.push((take(&mut a, &mut mem, 6), 6));
    let segs = a.segments();
    for w in segs.windows(2) {
        assert!(w[0].0 + w[0].1 < w[1].0);
    }
    let mut covered = vec![0u32; a.boundary() as usize];
    for &(o, n) in segs.iter().chain(live.iter()) {
        for x in o..o + n {
            covered[x as usize] += 1;
        }
    }
    for x in 16..a.boundary() as usize {
        assert_eq!(covered[x], 1);
    }
    assert!(a.boundary() <= mem);
}

#[test]
fn from_parts_rejects_malformed_free_lists() {
    assert!(Allocator::from_parts(vec![], 15).is_none());
    assert!(Allocator::from_parts(vec![(8, 4)], 64).is_none());
    assert!(Allocator::from_parts(vec![(16, 0)], 64).is_none());
    assert!(Allocator::from_parts(vec![(60, 8)], 64).is_none());
    assert!(Allocator::from_parts(vec![(16, 4), (20, 4)], 64).is_none());
    assert!(Allocator::from_parts(vec![(30, 4), (16, 4)], 64).is_none());
    let a = Allocator::from_parts(vec![(16, 4), (21, 4)], 64).unwrap();
    assert_eq!(a.seg(21), 4);
    assert_eq!(a.segs(), 2);
}
