use vstd::prelude::*;

verus! {

/// The first offset that the allocator hands out; the bytes before it hold
/// the root header.
pub const INITIAL_OFFSET: u64 = 16;

/// The size of one page of durable memory, in bytes.
pub const PAGE_SIZE: u64 = 65536;

/// The end offset (exclusive) of a segment `(start, length)`.
pub open spec fn seg_end(s: (u64, u64)) -> int {
    s.0 as int + s.1 as int
}

/// Segments are non-empty, sorted by start, pairwise disjoint and never
/// adjacent, and lie within `[INITIAL_OFFSET, boundary)`.
pub open spec fn segments_wf(segs: Seq<(u64, u64)>, boundary: u64) -> bool {
    &&& forall|i: int| 0 <= i < segs.len() ==> #[trigger] segs[i].1 > 0
    &&& forall|i: int| 0 <= i < segs.len() ==> INITIAL_OFFSET <= #[trigger] segs[i].0
    &&& forall|i: int| 0 <= i < segs.len() ==> #[trigger] seg_end(segs[i]) <= boundary
    &&& forall|i: int, j: int|
        0 <= i < j < segs.len() ==> seg_end(#[trigger] segs[i]) < (#[trigger] segs[j]).0
}

/// Whether `x` lies inside one of the segments.
pub open spec fn in_some_segment(segs: Seq<(u64, u64)>, x: int) -> bool {
    exists|i: int| 0 <= i < segs.len() && segs[i].0 <= x < #[trigger] seg_end(segs[i])
}

/// The set of offsets covered by the segments.
pub open spec fn covered(segs: Seq<(u64, u64)>) -> Set<int> {
    Set::new(|x: int| in_some_segment(segs, x))
}

/// The offsets `[start, end)`.
pub open spec fn span(start: int, end: int) -> Set<int> {
    Set::new(|x: int| start <= x < end)
}

/// Segment `i` holds at least `n` bytes, and no segment before it holds
/// exactly `n`: the scan for a fit reaches it.
pub open spec fn eligible(segs: Seq<(u64, u64)>, n: u64, i: int) -> bool {
    &&& 0 <= i < segs.len()
    &&& segs[i].1 >= n
    &&& forall|k: int| 0 <= k < i ==> #[trigger] segs[k].1 != n
}

/// Segment `j` is the best fit for `n` bytes: the smallest of the segments
/// that the scan reaches, and the last of them among equal lengths.
pub open spec fn is_best_fit(segs: Seq<(u64, u64)>, n: u64, j: int) -> bool {
    &&& eligible(segs, n, j)
    &&& forall|i: int|
        #[trigger] eligible(segs, n, i) ==> segs[j].1 <= segs[i].1 && (i > j ==> segs[j].1
            < segs[i].1)
}

/// Some free segment holds at least `n` bytes.
pub open spec fn has_fit(segs: Seq<(u64, u64)>, n: u64) -> bool {
    exists|i: int| 0 <= i < segs.len() && #[trigger] segs[i].1 >= n
}

/// The free list after the first `n` bytes of segment `j` are taken.
pub open spec fn take_from(segs: Seq<(u64, u64)>, j: int, n: u64) -> Seq<(u64, u64)> {
    if segs[j].1 > n {
        segs.update(j, ((segs[j].0 + n) as u64, (segs[j].1 - n) as u64))
    } else {
        segs.remove(j)
    }
}

/// Taking the first `n` bytes of segment `j` keeps the free list well formed,
/// and the bytes taken are exactly the ones that leave the free set.
proof fn lemma_take_from(segs: Seq<(u64, u64)>, boundary: u64, j: int, n: u64)
    requires
        segments_wf(segs, boundary),
        0 <= j < segs.len(),
        segs[j].1 >= n,
    ensures
        segments_wf(take_from(segs, j, n), boundary),
        covered(take_from(segs, j, n)).disjoint(span(segs[j].0 as int, segs[j].0 + n)),
        covered(take_from(segs, j, n)) + span(segs[j].0 as int, segs[j].0 + n) == covered(segs),
{
    let t = take_from(segs, j, n);
    let lo = segs[j].0 as int;
    let hi = segs[j].0 + n;
    if segs[j].1 > n {
        assert forall|a: int, b: int| 0 <= a < b < t.len() implies seg_end(#[trigger] t[a]) < (
        #[trigger] t[b]).0 by {
            assert(seg_end(segs[a]) < segs[b].0);
        }
        assert forall|a: int| 0 <= a < t.len() implies #[trigger] t[a].1 > 0 && INITIAL_OFFSET
            <= t[a].0 && seg_end(t[a]) <= boundary by {
            assert(INITIAL_OFFSET <= segs[a].0 && seg_end(segs[a]) <= boundary);
        }
    } else {
        assert forall|a: int, b: int| 0 <= a < b < t.len() implies seg_end(#[trigger] t[a]) < (
        #[trigger] t[b]).0 by {
            let a0 = if a < j { a } else { a + 1 };
            let b0 = if b < j { b } else { b + 1 };
            assert(t[a] == segs[a0] && t[b] == segs[b0]);
            assert(seg_end(segs[a0]) < segs[b0].0);
        }
        assert forall|a: int| 0 <= a < t.len() implies #[trigger] t[a].1 > 0 && INITIAL_OFFSET
            <= t[a].0 && seg_end(t[a]) <= boundary by {
            let a0 = if a < j { a } else { a + 1 };
            assert(t[a] == segs[a0]);
        }
    }
    assert forall|x: int| covered(t).contains(x) implies !span(lo, hi).contains(x) by {
        let a = choose|a: int| 0 <= a < t.len() && t[a].0 <= x < #[trigger] seg_end(t[a]);
        if segs[j].1 > n {
            if a != j {
                if a < j {
                    assert(seg_end(segs[a]) < segs[j].0);
                } else {
                    assert(seg_end(segs[j]) < segs[a].0);
                }
            }
        } else {
            let a0 = if a < j { a } else { a + 1 };
            assert(t[a] == segs[a0]);
            if a0 < j {
                assert(seg_end(segs[a0]) < segs[j].0);
            } else {
                assert(seg_end(segs[j]) < segs[a0].0);
            }
        }
    }
    assert forall|x: int| #[trigger] covered(segs).contains(x) == (covered(t) + span(lo, hi)).contains(x) by {
        if covered(segs).contains(x) {
            let a = choose|a: int| 0 <= a < segs.len() && segs[a].0 <= x < #[trigger] seg_end(segs[a]);
            if a == j {
                if x >= hi {
                    assert(t[j].0 <= x < seg_end(t[j]));
                }
            } else if segs[j].1 > n {
                assert(t[a].0 <= x < seg_end(t[a]));
            } else {
                let a1 = if a < j { a } else { a - 1 };
                assert(t[a1] == segs[a]);
                assert(t[a1].0 <= x < seg_end(t[a1]));
            }
        }
        if covered(t).contains(x) {
            let a = choose|a: int| 0 <= a < t.len() && t[a].0 <= x < #[trigger] seg_end(t[a]);
            if segs[j].1 > n {
                assert(segs[a].0 <= x < seg_end(segs[a]));
            } else {
                let a0 = if a < j { a } else { a + 1 };
                assert(t[a] == segs[a0]);
                assert(segs[a0].0 <= x < seg_end(segs[a0]));
            }
        }
        if span(lo, hi).contains(x) {
            assert(segs[j].0 <= x < seg_end(segs[j]));
        }
    }
    assert(covered(segs) =~= covered(t) + span(lo, hi));
}

/// The free list is untouched when a region at the boundary is handed out:
/// that region is disjoint from every free segment.
proof fn lemma_beyond_boundary(segs: Seq<(u64, u64)>, boundary: u64, n: u64)
    requires
        segments_wf(segs, boundary),
    ensures
        segments_wf(segs, (boundary + n) as u64) || boundary + n > u64::MAX,
        covered(segs).disjoint(span(boundary as int, boundary + n)),
{
    assert forall|x: int| covered(segs).contains(x) implies !span(boundary as int, boundary + n).contains(x) by {
        let a = choose|a: int| 0 <= a < segs.len() && segs[a].0 <= x < #[trigger] seg_end(segs[a]);
    }
}

/// `p` is where a segment starting at `offset` goes in the sorted free list.
pub open spec fn insert_pos(segs: Seq<(u64, u64)>, offset: u64, p: int) -> bool {
    &&& 0 <= p <= segs.len()
    &&& forall|k: int| 0 <= k < p ==> #[trigger] segs[k].0 < offset
    &&& forall|k: int| p <= k < segs.len() ==> #[trigger] segs[k].0 > offset
}

/// The free list after `[offset, offset + length)` is returned to it at
/// position `p`, merged with the segment that ends where it starts and with
/// the one that starts where it ends.
pub open spec fn merge_at(segs: Seq<(u64, u64)>, p: int, offset: u64, length: u64) -> Seq<(u64, u64)> {
    let left_adj = p > 0 && seg_end(segs[p - 1]) == offset;
    let right_adj = p < segs.len() && offset + length == segs[p].0;
    if left_adj && right_adj {
        segs.update(p - 1, (segs[p - 1].0, (segs[p - 1].1 + length + segs[p].1) as u64)).remove(p)
    } else if right_adj {
        segs.update(p, (offset, (length + segs[p].1) as u64))
    } else if left_adj {
        segs.update(p - 1, (segs[p - 1].0, (segs[p - 1].1 + length) as u64))
    } else {
        segs.insert(p, (offset, length))
    }
}

/// The region `[offset, offset + length)` may be returned: it is non-empty,
/// lies within `[INITIAL_OFFSET, boundary)` and shares no byte with a free segment.
pub open spec fn freeable(segs: Seq<(u64, u64)>, boundary: u64, offset: u64, length: u64) -> bool {
    &&& length > 0
    &&& INITIAL_OFFSET <= offset
    &&& offset + length <= boundary
    &&& covered(segs).disjoint(span(offset as int, offset + length))
}

spec fn left_adj(segs: Seq<(u64, u64)>, p: int, offset: u64) -> bool {
    p > 0 && seg_end(segs[p - 1]) == offset
}

spec fn right_adj(segs: Seq<(u64, u64)>, p: int, offset: u64, length: u64) -> bool {
    p < segs.len() && offset + length == segs[p].0
}

/// The index of the merged segment in the new free list.
spec fn merge_index(segs: Seq<(u64, u64)>, p: int, offset: u64) -> int {
    if left_adj(segs, p, offset) { p - 1 } else { p }
}

/// How many old segments the merged segment absorbs.
spec fn merge_skip(segs: Seq<(u64, u64)>, p: int, offset: u64, length: u64) -> int {
    if left_adj(segs, p, offset) && right_adj(segs, p, offset, length) {
        2
    } else if left_adj(segs, p, offset) || right_adj(segs, p, offset, length) {
        1
    } else {
        0
    }
}

/// The shape of the merged free list: one new segment at `merge_index`,
/// and the old segments that it does not absorb around it, in order.
proof fn lemma_merge_shape(segs: Seq<(u64, u64)>, boundary: u64, offset: u64, length: u64, p: int)
    requires
        segments_wf(segs, boundary),
        freeable(segs, boundary, offset, length),
        insert_pos(segs, offset, p),
    ensures
        p > 0 ==> seg_end(segs[p - 1]) <= offset,
        p < segs.len() ==> segs[p].0 >= offset + length,
        ({
            let t = merge_at(segs, p, offset, length);
            let q = merge_index(segs, p, offset);
            let skip = merge_skip(segs, p, offset, length);
            &&& t.len() == segs.len() + 1 - skip
            &&& 0 <= q < t.len()
            &&& t[q].0 == (if left_adj(segs, p, offset) { segs[p - 1].0 as int } else { offset as int })
            &&& seg_end(t[q]) == (if right_adj(segs, p, offset, length) { seg_end(segs[p]) } else { offset + length })
            &&& forall|k: int| 0 <= k < t.len() && k != q ==> #[trigger] t[k] == (if k < q {
                segs[k]
            } else {
                segs[k - 1 + skip]
            })
        }),
{
    let o = offset as int;
    let e = offset + length;
    if p > 0 {
        if seg_end(segs[p - 1]) > o {
            assert(segs[p - 1].0 <= o < seg_end(segs[p - 1]));
            assert(covered(segs).contains(o));
            assert(span(o, e).contains(o));
        }
    }
    if p < segs.len() {
        if segs[p].0 < e {
            let x = segs[p].0 as int;
            assert(segs[p].0 <= x < seg_end(segs[p]));
            assert(covered(segs).contains(x));
            assert(span(o, e).contains(x));
        }
    }
}

/// Returning a freeable region keeps the free list well formed.
proof fn lemma_merge_wf(segs: Seq<(u64, u64)>, boundary: u64, offset: u64, length: u64, p: int)
    requires
        segments_wf(segs, boundary),
        freeable(segs, boundary, offset, length),
        insert_pos(segs, offset, p),
    ensures
        segments_wf(merge_at(segs, p, offset, length), boundary),
{
    lemma_merge_shape(segs, boundary, offset, length, p);
    let t = merge_at(segs, p, offset, length);
    let q = merge_index(segs, p, offset);
    let skip = merge_skip(segs, p, offset, length);
    let la = left_adj(segs, p, offset);
    let ra = right_adj(segs, p, offset, length);
    assert forall|a: int| 0 <= a < t.len() implies #[trigger] t[a].1 > 0 && INITIAL_OFFSET
        <= t[a].0 && seg_end(t[a]) <= boundary by {
        if a != q {
            let a0 = if a < q { a } else { a - 1 + skip };
            assert(t[a] == segs[a0]);
        } else if la {
            assert(INITIAL_OFFSET <= segs[p - 1].0);
        }
        if a == q && ra {
            assert(seg_end(segs[p]) <= boundary);
        }
    }
    assert forall|a: int, b: int| 0 <= a < b < t.len() implies seg_end(#[trigger] t[a]) < (
    #[trigger] t[b]).0 by {
        let a0 = if a < q { a } else { a - 1 + skip };
        let b0 = if b < q { b } else { b - 1 + skip };
        if a != q && b != q {
            assert(t[a] == segs[a0] && t[b] == segs[b0]);
            assert(seg_end(segs[a0]) < segs[b0].0);
        } else if a == q {
            assert(t[b] == segs[b0]);
            if ra {
                assert(seg_end(segs[p]) < segs[b0].0);
            } else if b0 > p {
                assert(seg_end(segs[p]) < segs[b0].0);
            }
        } else {
            assert(t[a] == segs[a0]);
            if la {
                assert(seg_end(segs[a0]) < segs[p - 1].0);
            } else if a0 < p - 1 {
                assert(seg_end(segs[a0]) < segs[p - 1].0);
            }
        }
    }
}

/// Returning a freeable region adds exactly its bytes to the free set.
proof fn lemma_merge_covered(segs: Seq<(u64, u64)>, boundary: u64, offset: u64, length: u64, p: int)
    requires
        segments_wf(segs, boundary),
        freeable(segs, boundary, offset, length),
        insert_pos(segs, offset, p),
    ensures
        covered(merge_at(segs, p, offset, length)) == covered(segs) + span(offset as int, offset + length),
{
    lemma_merge_shape(segs, boundary, offset, length, p);
    let o = offset as int;
    let e = offset + length;
    let t = merge_at(segs, p, offset, length);
    let q = merge_index(segs, p, offset);
    let skip = merge_skip(segs, p, offset, length);
    let la = left_adj(segs, p, offset);
    let ra = right_adj(segs, p, offset, length);
    assert forall|x: int| #[trigger] covered(t).contains(x) == (covered(segs) + span(o, e)).contains(x) by {
        if covered(t).contains(x) {
            let a = choose|a: int| 0 <= a < t.len() && t[a].0 <= x < #[trigger] seg_end(t[a]);
            if a != q {
                let a0 = if a < q { a } else { a - 1 + skip };
                assert(t[a] == segs[a0]);
                assert(segs[a0].0 <= x < seg_end(segs[a0]));
            } else if la && x < o {
                assert(segs[p - 1].0 <= x < seg_end(segs[p - 1]));
            } else if ra && x >= e {
                assert(segs[p].0 <= x < seg_end(segs[p]));
            }
        }
        if covered(segs).contains(x) {
            let a = choose|a: int| 0 <= a < segs.len() && segs[a].0 <= x < #[trigger] seg_end(segs[a]);
            if la && a == p - 1 {
                assert(t[q].0 <= x < seg_end(t[q]));
            } else if ra && a == p {
                assert(t[q].0 <= x < seg_end(t[q]));
            } else {
                if a < p - 1 || (a == p - 1 && !la) {
                    assert(seg_end(segs[a]) <= offset);
                }
                let a1 = if a < q { a } else { a + 1 - skip };
                assert(a1 != q);
                assert(t[a1] == segs[a]);
                assert(t[a1].0 <= x < seg_end(t[a1]));
            }
        }
        if span(o, e).contains(x) {
            assert(t[q].0 <= x < seg_end(t[q]));
        }
    }
    assert(covered(t) =~= covered(segs) + span(o, e));
}

/// The bytes in `used` and the free bytes together cover
/// `[INITIAL_OFFSET, boundary)`, each byte exactly once.
pub open spec fn tiles(free: Set<int>, used: Set<int>, boundary: u64) -> bool {
    &&& used.disjoint(free)
    &&& used + free == span(INITIAL_OFFSET as int, boundary as int)
}

/// Handing out `region` while the boundary moves from `b` to `b2` keeps a
/// tiling when the new free set and `region` make up the old free set and
/// `[b, b2)`.
proof fn lemma_tiling_grow(f: Set<int>, f2: Set<int>, used: Set<int>, region: Set<int>, b: u64, b2: u64)
    requires
        tiles(f, used, b),
        INITIAL_OFFSET <= b <= b2,
        f2.disjoint(region),
        f2 + region == f + span(b as int, b2 as int),
    ensures
        tiles(f2, used + region, b2),
{
    let lo = INITIAL_OFFSET as int;
    assert forall|x: int| (used + region).contains(x) implies !f2.contains(x) by {
        if used.contains(x) && f2.contains(x) {
            assert((f + span(b as int, b2 as int)).contains(x));
            assert((used + f).contains(x));
        }
    }
    assert forall|x: int| #[trigger] (used + region + f2).contains(x) == span(lo, b2 as int).contains(x) by {
        let s0 = span(lo, b as int);
        let s1 = span(b as int, b2 as int);
        if span(lo, b2 as int).contains(x) {
            if x < b {
                assert(s0.contains(x));
                assert((used + f).contains(x));
                if f.contains(x) {
                    assert((f + s1).contains(x));
                    assert((f2 + region).contains(x));
                }
            } else {
                assert(s1.contains(x));
                assert((f + s1).contains(x));
                assert((f2 + region).contains(x));
            }
        }
        if used.contains(x) {
            assert((used + f).contains(x));
            assert(s0.contains(x));
        }
        if f2.contains(x) || region.contains(x) {
            assert((f2 + region).contains(x));
            assert((f + s1).contains(x));
            if f.contains(x) {
                assert((used + f).contains(x));
                assert(s0.contains(x));
            }
        }
    }
    assert(used + region + f2 =~= span(lo, b2 as int));
}

/// Returning `region` to the free set keeps a tiling when it was in use.
proof fn lemma_tiling_release(f: Set<int>, f2: Set<int>, used: Set<int>, region: Set<int>, b: u64)
    requires
        tiles(f, used, b),
        region.disjoint(f),
        region <= span(INITIAL_OFFSET as int, b as int),
        f2 == f + region,
    ensures
        tiles(f2, used - region, b),
{
    assert forall|x: int| #[trigger] ((used - region) + f2).contains(x) == (used + f).contains(x) by {
        if region.contains(x) {
            assert(span(INITIAL_OFFSET as int, b as int).contains(x));
        }
    }
    assert((used - region) + f2 =~= used + f);
}

/// No two free segments are adjacent, nor overlap: each one ends strictly
/// before the next one starts.
pub proof fn lemma_free_segments_apart(a: &Allocator, i: int, j: int)
    requires
        a.wf(),
        0 <= i < j < a.spec_segments().len(),
    ensures
        seg_end(a.spec_segments()[i]) != a.spec_segments()[j].0,
        seg_end(a.spec_segments()[i]) < a.spec_segments()[j].0,
{
}

/// A fresh allocator has nothing in use and nothing free: the empty sets tile
/// the empty range below its boundary.
pub proof fn lemma_fresh_allocator_tiles(a: &Allocator)
    requires
        a.spec_segments().len() == 0,
        a.spec_boundary() == INITIAL_OFFSET,
    ensures
        tiles(a.free_offsets(), Set::empty(), a.spec_boundary()),
{
    assert(a.free_offsets() =~= Set::empty());
    assert(Set::<int>::empty() + Set::empty() =~= span(INITIAL_OFFSET as int, INITIAL_OFFSET as int));
}

/// The free list and boundary of an allocator, read back through
/// `from_parts`, are accepted and give the same allocator state.
pub proof fn lemma_parts_round_trip(a: &Allocator)
    requires
        a.wf(),
    ensures
        INITIAL_OFFSET <= a.spec_boundary(),
        segments_wf(a.spec_segments(), a.spec_boundary()),
{
}

/// The number of whole pages in a growth request of `delta` bytes; the
/// division truncates.
pub fn pages_to_grow(delta: u64) -> (r: u64)
    ensures
        r == delta / PAGE_SIZE,
{
    delta / PAGE_SIZE
}

/// The size in bytes of `pages` pages of durable memory.
pub fn memory_bytes(pages: u64) -> (r: u64)
    requires
        pages * PAGE_SIZE <= u64::MAX,
    ensures
        r == pages * PAGE_SIZE,
{
    pages * PAGE_SIZE
}

/// What one call of `allocate` hands back: the offset of the new region, and
/// the number of bytes by which durable memory should grow, if it should.
#[derive(Clone, Copy, Debug, PartialEq, Eq, Structural)]
pub struct Allocation {
    pub offset: u64,
    pub grow: Option<u64>,
}

/// A best-fit free-list allocator over a linear address space that only grows.
#[derive(Debug)]
pub struct Allocator {
    segments: Vec<(u64, u64)>,
    boundary: u64,
}

impl Allocator {
    /// The free segments, as `(start, length)` pairs sorted by start.
    pub closed spec fn spec_segments(&self) -> Seq<(u64, u64)> {
        self.segments@
    }

    /// The first offset never yet allocated.
    pub closed spec fn spec_boundary(&self) -> u64 {
        self.boundary
    }

    pub open spec fn wf(&self) -> bool {
        &&& INITIAL_OFFSET <= self.spec_boundary()
        &&& segments_wf(self.spec_segments(), self.spec_boundary())
    }

    /// The offsets that are free.
    pub open spec fn free_offsets(&self) -> Set<int> {
        covered(self.spec_segments())
    }

    /// An allocator with no free segment, whose boundary is `INITIAL_OFFSET`.
    pub fn new() -> (r: Allocator)
        ensures
            r.wf(),
            r.spec_segments() == Seq::<(u64, u64)>::empty(),
            r.spec_boundary() == INITIAL_OFFSET,
    {
        Allocator { segments: Vec::new(), boundary: INITIAL_OFFSET }
    }

    /// Hands out `n` bytes: from the best-fitting free segment if one holds
    /// `n` bytes, else at the boundary. In the second case the result asks for
    /// `n` more bytes of durable memory when the new boundary reaches
    /// `mem_size`, the current size of that memory.
    pub fn allocate(&mut self, n: u64, mem_size: u64) -> (r: Allocation)
        requires
            old(self).wf(),
            old(self).spec_boundary() + n <= u64::MAX,
        ensures
            final(self).wf(),
            has_fit(old(self).spec_segments(), n) ==> exists|j: int|
                is_best_fit(old(self).spec_segments(), n, j) && r.offset
                    == old(self).spec_segments()[j].0 && final(self).spec_segments() == take_from(
                    old(self).spec_segments(),
                    j,
                    n,
                ) && final(self).spec_boundary() == old(self).spec_boundary() && r.grow
                    == None::<u64>,
            !has_fit(old(self).spec_segments(), n) ==> r.offset == old(self).spec_boundary()
                && final(self).spec_segments() == old(self).spec_segments()
                && final(self).spec_boundary() == old(self).spec_boundary() + n && r.grow == (if old(
                self).spec_boundary() + n >= mem_size {
                Some(n)
            } else {
                None
            }),
            INITIAL_OFFSET <= r.offset,
            r.offset + n <= final(self).spec_boundary(),
            final(self).free_offsets().disjoint(span(r.offset as int, r.offset + n)),
            final(self).free_offsets() + span(r.offset as int, r.offset + n) == old(
                self,
            ).free_offsets() + span(old(self).spec_boundary() as int, final(self).spec_boundary() as int),
            forall|used: Set<int>|
                #[trigger] tiles(old(self).free_offsets(), used, old(self).spec_boundary()) ==> tiles(
                    final(self).free_offsets(),
                    used + span(r.offset as int, r.offset + n),
                    final(self).spec_boundary(),
                ),
    {
        let ghost segs = self.segments@;
        let mut best: Option<usize> = None;
        let mut exact = false;
        let mut i: usize = 0;
        while i < self.segments.len() && !exact
            invariant
                self.segments@ == segs,
                i <= segs.len(),
                !exact ==> forall|k: int| 0 <= k < i ==> #[trigger] segs[k].1 != n,
                exact ==> i > 0 && segs[i - 1].1 == n && best == Some((i - 1) as usize) && forall|
                    k: int,
                | 0 <= k < i - 1 ==> #[trigger] segs[k].1 != n,
                best is None ==> forall|k: int| 0 <= k < i ==> #[trigger] segs[k].1 < n,
                best matches Some(b) ==> b < i && segs[b as int].1 >= n && forall|k: int|
                    0 <= k < i && #[trigger] segs[k].1 >= n ==> segs[b as int].1 <= segs[k].1 && (k
                        > b ==> segs[b as int].1 < segs[k].1),
            decreases segs.len() - i,
        {
            let l = self.segments[i].1;
            if l >= n {
                match best {
                    None => {
                        best = Some(i);
                    },
                    Some(b) => {
                        if l <= self.segments[b].1 {
                            best = Some(i);
                        }
                    },
                }
            }
            if l == n {
                exact = true;
            }
            i = i + 1;
        }
        let old_boundary = self.boundary;
        match best {
            Some(b) => {
                proof {
                    assert forall|k: int| #[trigger] eligible(segs, n, k) implies segs[b as int].1
                        <= segs[k].1 && (k > b ==> segs[b as int].1 < segs[k].1) by {
                        if k >= i {
                            assert(exact);
                            assert(segs[i - 1].1 == n);
                        }
                    }
                    lemma_take_from(segs, old_boundary, b as int, n);
                }
                let (start, len) = self.segments[b];
                assert(seg_end(segs[b as int]) <= old_boundary);
                if len > n {
                    self.segments.set(b, (start + n, len - n));
                } else {
                    self.segments.remove(b);
                }
                proof {
                    assert(self.segments@ =~= take_from(segs, b as int, n));
                    assert(span(old_boundary as int, old_boundary as int) =~= Set::empty());
                    assert(covered(segs) + span(old_boundary as int, old_boundary as int) =~= covered(segs));
                }
                proof {
                    assert forall|used: Set<int>|
                        #[trigger] tiles(covered(segs), used, old_boundary) implies tiles(
                            self.free_offsets(),
                            used + span(start as int, start + n),
                            self.boundary,
                        ) by {
                        lemma_tiling_grow(covered(segs), self.free_offsets(), used, span(start as int, start + n), old_boundary, self.boundary);
                    }
                }
                Allocation { offset: start, grow: None }
            },
            None => {
                proof {
                    lemma_beyond_boundary(segs, old_boundary, n);
                    if has_fit(segs, n) {
                        let k = choose|k: int| 0 <= k < segs.len() && #[trigger] segs[k].1 >= n;
                        assert(segs[k].1 < n);
                    }
                }
                self.boundary = self.boundary + n;
                let grow = if self.boundary >= mem_size {
                    Some(n)
                } else {
                    None
                };
                proof {
                    assert(covered(segs) + span(old_boundary as int, old_boundary + n) =~= covered(segs) + span(old_boundary as int, self.boundary as int));
                    assert forall|used: Set<int>|
                        #[trigger] tiles(covered(segs), used, old_boundary) implies tiles(
                            self.free_offsets(),
                            used + span(old_boundary as int, old_boundary + n),
                            self.boundary,
                        ) by {
                        lemma_tiling_grow(covered(segs), self.free_offsets(), used, span(old_boundary as int, old_boundary + n), old_boundary, self.boundary);
                    }
                }
                Allocation { offset: old_boundary, grow }
            },
        }
    }

    /// Returns `[offset, offset + length)` to the free list, merged with the
    /// free segments that it touches on either side.
    pub fn free(&mut self, offset: u64, length: u64)
        requires
            old(self).wf(),
            freeable(old(self).spec_segments(), old(self).spec_boundary(), offset, length),
        ensures
            final(self).wf(),
            final(self).spec_boundary() == old(self).spec_boundary(),
            exists|p: int|
                insert_pos(old(self).spec_segments(), offset, p) && final(self).spec_segments()
                    == merge_at(old(self).spec_segments(), p, offset, length),
            final(self).free_offsets() == old(self).free_offsets() + span(offset as int, offset + length),
            forall|used: Set<int>|
                #[trigger] tiles(old(self).free_offsets(), used, old(self).spec_boundary()) ==> tiles(
                    final(self).free_offsets(),
                    used - span(offset as int, offset + length),
                    final(self).spec_boundary(),
                ),
    {
        let ghost segs = self.segments@;
        let n = self.segments.len();
        let mut p: usize = 0;
        while p < n && self.segments[p].0 < offset
            invariant
                self.segments@ == segs,
                n == segs.len(),
                segments_wf(segs, self.boundary),
                p <= n,
                forall|k: int| 0 <= k < p ==> #[trigger] segs[k].0 < offset,
            decreases n - p,
        {
            p = p + 1;
        }
        proof {
            assert forall|k: int| p <= k < n implies #[trigger] segs[k].0 > offset by {
                if segs[k].0 == offset {
                    assert(covered(segs).contains(offset as int));
                    assert(span(offset as int, offset + length).contains(offset as int));
                }
                if k > p {
                    assert(seg_end(segs[p as int]) < segs[k].0);
                }
            }
            lemma_merge_wf(segs, self.boundary, offset, length, p as int);
            lemma_merge_covered(segs, self.boundary, offset, length, p as int);
            assert(insert_pos(segs, offset, p as int));
            if p > 0 {
                assert(seg_end(segs[p - 1]) <= self.boundary);
            }
            if p < n {
                assert(seg_end(segs[p as int]) <= self.boundary);
            }
        }
        let left_adj = p > 0 && self.segments[p - 1].0 + self.segments[p - 1].1 == offset;
        let right_adj = p < n && offset + length == self.segments[p].0;
        if left_adj && right_adj {
            let (l_start, l_len) = self.segments[p - 1];
            let r_len = self.segments[p].1;
            self.segments.set(p - 1, (l_start, l_len + length + r_len));
            self.segments.remove(p);
        } else if right_adj {
            let r_len = self.segments[p].1;
            self.segments.set(p, (offset, length + r_len));
        } else if left_adj {
            let (l_start, l_len) = self.segments[p - 1];
            self.segments.set(p - 1, (l_start, l_len + length));
        } else {
            self.segments.insert(p, (offset, length));
        }
        assert(self.segments@ =~= merge_at(segs, p as int, offset, length));
        proof {
            let region = span(offset as int, offset + length);
            assert(region <= span(INITIAL_OFFSET as int, self.boundary as int));
            assert forall|used: Set<int>|
                #[trigger] tiles(covered(segs), used, self.boundary) implies tiles(
                    self.free_offsets(),
                    used - region,
                    self.boundary,
                ) by {
                lemma_tiling_release(covered(segs), self.free_offsets(), used, region, self.boundary);
            }
        }
    }

    /// An allocator with the given free list and boundary, if they are well
    /// formed: `None` otherwise.
    pub fn from_parts(segments: Vec<(u64, u64)>, boundary: u64) -> (r: Option<Allocator>)
        ensures
            r is Some <==> INITIAL_OFFSET <= boundary && segments_wf(segments@, boundary),
            r matches Some(a) ==> a.wf() && a.spec_segments() == segments@ && a.spec_boundary()
                == boundary,
    {
        if boundary < INITIAL_OFFSET {
            return None;
        }
        let n = segments.len();
        let mut i: usize = 0;
        while i < n
            invariant
                n == segments@.len(),
                i <= n,
                segments_wf(segments@.subrange(0, i as int), boundary),
            decreases n - i,
        {
            let (start, len) = segments[i];
            if len == 0 || start < INITIAL_OFFSET || start > boundary || len > boundary - start {
                proof {
                    assert(segments@[i as int].1 > 0 ==> INITIAL_OFFSET <= segments@[i as int].0 ==> seg_end(segments@[i as int]) > boundary);
                }
                return None;
            }
            if i > 0 {
                let (p_start, p_len) = segments[i - 1];
                assert(segments@.subrange(0, i as int)[i - 1] == segments@[i - 1]);
                assert(seg_end(segments@.subrange(0, i as int)[i - 1]) <= boundary);
                if p_start + p_len >= start {
                    proof {
                        assert(seg_end(segments@[i - 1]) >= segments@[i as int].0);
                    }
                    return None;
                }
            }
            proof {
                let t = segments@.subrange(0, i + 1);
                let t0 = segments@.subrange(0, i as int);
                assert forall|a: int, b: int| 0 <= a < b < t.len() implies seg_end(#[trigger] t[a])
                    < (#[trigger] t[b]).0 by {
                    assert(t[a] == segments@[a]);
                    assert(t[b] == segments@[b]);
                    if b < i {
                        assert(t0[a] == t[a] && t0[b] == t[b]);
                    } else if a < i - 1 {
                        assert(t0[a] == t[a] && t0[i - 1] == segments@[i - 1]);
                        assert(seg_end(t0[a]) < t0[i - 1].0);
                    }
                }
                assert forall|a: int| 0 <= a < t.len() implies #[trigger] t[a].1 > 0 && INITIAL_OFFSET
                    <= t[a].0 && seg_end(t[a]) <= boundary by {
                    if a < i {
                        assert(t0[a] == t[a]);
                    }
                }
            }
            i = i + 1;
        }
        assert(segments@.subrange(0, n as int) =~= segments@);
        Some(Allocator { segments, boundary })
    }

    /// A copy of the free list, as `(start, length)` pairs sorted by start.
    pub fn segments(&self) -> (r: Vec<(u64, u64)>)
        ensures
            r@ == self.spec_segments(),
    {
        let mut r: Vec<(u64, u64)> = Vec::new();
        let mut i: usize = 0;
        while i < self.segments.len()
            invariant
                i <= self.segments@.len(),
                r@ == self.segments@.subrange(0, i as int),
            decreases self.segments@.len() - i,
        {
            r.push(self.segments[i]);
            i = i + 1;
            assert(r@ =~= self.segments@.subrange(0, i as int));
        }
        assert(r@ =~= self.segments@);
        r
    }

    /// The number of free segments.
    pub fn segs(&self) -> (r: usize)
        ensures
            r == self.spec_segments().len(),
    {
        self.segments.len()
    }

    /// The length of the free segment that starts at `start`.
    pub fn seg(&self, start: u64) -> (r: u64)
        requires
            self.wf(),
            exists|i: int| 0 <= i < self.spec_segments().len() && #[trigger] self.spec_segments()[i].0 == start,
        ensures
            exists|i: int|
                0 <= i < self.spec_segments().len() && #[trigger] self.spec_segments()[i]
                    == (start, r),
    {
        let mut i: usize = 0;
        while i < self.segments.len()
            invariant
                i <= self.segments@.len(),
                forall|k: int| 0 <= k < i ==> #[trigger] self.segments@[k].0 != start,
            decreases self.segments@.len() - i,
        {
            if self.segments[i].0 == start {
                assert(self.spec_segments()[i as int] == (start, self.segments@[i as int].1));
                return self.segments[i].1;
            }
            i = i + 1;
        }
        proof {
            let k = choose|k: int| 0 <= k < self.spec_segments().len() && #[trigger] self.spec_segments()[k].0 == start;
            assert(self.segments@[k].0 != start);
        }
        0
    }

    /// The first offset never yet allocated.
    pub fn boundary(&self) -> (r: u64)
        ensures
            r == self.spec_boundary(),
    {
        self.boundary
    }
}

impl Default for Allocator {
    fn default() -> (r: Allocator)
        ensures
            r.wf(),
            r.spec_segments() == Seq::<(u64, u64)>::empty(),
            r.spec_boundary() == INITIAL_OFFSET,
    {
        Allocator::new()
    }
}

} // verus!
