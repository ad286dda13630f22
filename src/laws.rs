//! Properties of the allocator that relate its operations to one another.
use vstd::prelude::*;
use crate::allocator::{
    align_up_spec, alloc_start, allocate_post, allocation_within, allocations_wf, blocks_wf, deallocate_post,
    first_fit, first_fit_from, fits, insertion_from, insertion_index, lemma_align_up_bounds,
    lemma_insertion_bounds, lemma_release_position, live_index, normalized, release, split_blocks,
    taken_end, Allocation, BlockHeader, LinkedListAllocator, HEADER_SIZE,
};

verus! {

/// Bytes that a region starting at `start` spends before the first address
/// it can hand out at alignment `align`.
pub open spec fn header_overhead(start: int, align: int) -> int {
    align_up_spec(start + HEADER_SIZE, align) - start
}

/// A freshly initialised heap of `size` bytes at `start` serves any request
/// of `k` bytes with `k` plus the header overhead within `size`, from its one
/// region, at an address inside the heap. (A request of 0 bytes is served as
/// 1 byte, so it needs the overhead to stay below `size`.)
pub proof fn lemma_fresh_heap_serves(start: usize, size: usize, k: usize, align: usize)
    requires
        start + size <= usize::MAX,
        size >= HEADER_SIZE,
        align > 0,
        k + header_overhead(start as int, align as int) <= size,
        k > 0 || header_overhead(start as int, align as int) < size,
    ensures
        first_fit(seq![BlockHeader { start, size }], normalized(k as int), align as int) == 0,
        start <= alloc_start(BlockHeader { start, size }, align as int) < start + size,
{
    let b = BlockHeader { start, size };
    lemma_align_up_bounds(start + HEADER_SIZE, align as int);
    assert(fits(b, normalized(k as int), align as int));
    assert(seq![b][0] == b);
}

/// On a freshly initialised heap, a request of one byte more than the size
/// less the header overhead finds no region, and a request of exactly that
/// much is served.
pub proof fn lemma_oom_boundary(start: usize, size: usize, align: usize)
    requires
        start + size <= usize::MAX,
        size >= HEADER_SIZE,
        align > 0,
        header_overhead(start as int, align as int) < size,
    ensures
        first_fit(
            seq![BlockHeader { start, size }],
            normalized(size - header_overhead(start as int, align as int) + 1),
            align as int,
        ) == 1,
        first_fit(
            seq![BlockHeader { start, size }],
            normalized(size - header_overhead(start as int, align as int)),
            align as int,
        ) == 0,
{
    let b = BlockHeader { start, size };
    let blocks = seq![b];
    assert(blocks[0] == b);
    let n = size - header_overhead(start as int, align as int);
    assert(!fits(b, n + 1, align as int));
    assert(first_fit_from(blocks, normalized(n + 1), align as int, 1) == 1);
    assert(fits(b, n, align as int));
}

/// Serving `k` bytes from region `i` leaves, in its place, a free remainder
/// of exactly what the allocation did not use when that exceeds one header;
/// otherwise the region leaves the free list whole.
pub proof fn lemma_split_threshold(blocks: Seq<BlockHeader>, i: int, k: int, align: int)
    requires
        0 <= i < blocks.len(),
        k > 0,
        align > 0,
        blocks[i].end() <= usize::MAX,
        fits(blocks[i], k, align),
    ensures
        ({
            let b = blocks[i];
            let used = alloc_start(b, align) - b.start + k;
            let after = split_blocks(blocks, i, alloc_start(b, align) + k);
            &&& b.size - used > HEADER_SIZE ==> after.len() == blocks.len() && after[i].start == b.start
                + used && after[i].size == b.size - used
            &&& b.size - used <= HEADER_SIZE ==> after == blocks.remove(i)
        }),
{
    lemma_align_up_bounds(blocks[i].start + HEADER_SIZE, align);
}

/// Handing back a span that touches free regions on both sides joins the
/// three into one region, the size of all three together, in the place of
/// the earlier region.
pub proof fn lemma_release_joins_both_neighbours(blocks: Seq<BlockHeader>, lo: int, hi: int)
    requires
        blocks_wf(blocks, 0, usize::MAX as int),
        0 <= lo < hi,
        0 < insertion_index(blocks, lo) < blocks.len(),
        blocks[insertion_index(blocks, lo) - 1].end() == lo,
        blocks[insertion_index(blocks, lo)].start == hi,
    ensures
        ({
            let p = insertion_index(blocks, lo);
            let after = release(blocks, lo, hi);
            &&& after.len() == blocks.len() - 1
            &&& after[p - 1].start == blocks[p - 1].start
            &&& after[p - 1].size == blocks[p - 1].size + (hi - lo) + blocks[p].size
        }),
{
    lemma_insertion_bounds(blocks, lo, 0);
    let p = insertion_index(blocks, lo);
    assert(blocks[p].end() <= usize::MAX);
}

/// Handing back a span that ends where a free region starts joins the two
/// into one region, the size of both together, when no free region ends
/// where the span starts.
pub proof fn lemma_release_joins_next(blocks: Seq<BlockHeader>, lo: int, hi: int)
    requires
        blocks_wf(blocks, 0, usize::MAX as int),
        0 <= lo < hi,
        insertion_index(blocks, lo) < blocks.len(),
        insertion_index(blocks, lo) == 0 || blocks[insertion_index(blocks, lo) - 1].end() != lo,
        blocks[insertion_index(blocks, lo)].start == hi,
    ensures
        ({
            let p = insertion_index(blocks, lo);
            let after = release(blocks, lo, hi);
            &&& after.len() == blocks.len()
            &&& after[p].start == lo
            &&& after[p].size == (hi - lo) + blocks[p].size
        }),
{
    lemma_insertion_bounds(blocks, lo, 0);
    let p = insertion_index(blocks, lo);
    assert(blocks[p].end() <= usize::MAX);
}

/// On a freshly initialised heap, one allocation of `k` bytes followed by
/// its release gives back the whole heap as one free region: a balanced
/// allocate and release loses nothing.
pub proof fn lemma_single_round_trip(start: usize, size: usize, k: int, align: usize)
    requires
        start + size <= usize::MAX,
        size >= HEADER_SIZE,
        align > 0,
        k > 0,
        fits(BlockHeader { start, size }, k, align as int),
    ensures
        ({
            let b = BlockHeader { start, size };
            let a = alloc_start(b, align as int);
            let after = split_blocks(seq![b], 0, a + k);
            release(after, start as int, taken_end(b, a + k)) == seq![b]
        }),
{
    let b = BlockHeader { start, size };
    lemma_align_up_bounds(start + HEADER_SIZE, align as int);
    let a = alloc_start(b, align as int);
    let blocks = seq![b];
    assert(blocks[0] == b);
    let after = split_blocks(blocks, 0, a + k);
    let hi = taken_end(b, a + k);
    if b.end() - (a + k) > HEADER_SIZE {
        assert(after.len() == 1 && after[0].start == hi);
        assert(insertion_from(after, start as int, 1) == 1);
        assert(insertion_index(after, start as int) == 0);
        assert(after.remove(0) =~= Seq::<BlockHeader>::empty());
        assert(release(after, start as int, hi) =~= blocks);
    } else {
        assert(after =~= Seq::<BlockHeader>::empty());
        assert(insertion_index(after, start as int) == 0);
        assert(release(after, start as int, hi) =~= blocks);
    }
}

/// The insertion index of `addr` is `q` when the regions before `q` start at
/// or before `addr` and region `q`, if any, starts after it.
pub proof fn lemma_insertion_index_is(blocks: Seq<BlockHeader>, addr: int, q: int, i: int)
    requires
        0 <= i <= q <= blocks.len(),
        forall|j: int| 0 <= j < q ==> #[trigger] blocks[j].start <= addr,
        q < blocks.len() ==> blocks[q].start > addr,
    ensures
        insertion_from(blocks, addr, i) == q,
    decreases q - i,
{
    if i < q {
        lemma_insertion_index_is(blocks, addr, q, i + 1);
    }
}

/// Freeing the two blocks that one free region `[r, r + size)` was split
/// into, `[r, m)` and `[m, r + size)`, gives back that region whole, in
/// either order, when no other free region overlaps or touches it.
pub proof fn lemma_release_halves_coalesce(blocks: Seq<BlockHeader>, r: int, m: int, size: int)
    requires
        blocks_wf(blocks, 0, usize::MAX as int),
        0 <= r,
        r + HEADER_SIZE <= m,
        m + HEADER_SIZE <= r + size <= usize::MAX,
        forall|j: int|
            0 <= j < blocks.len() ==> #[trigger] blocks[j].end() < r || blocks[j].start > r + size,
    ensures
        ({
            let whole = BlockHeader { start: r as usize, size: size as usize };
            let p = insertion_index(blocks, r);
            &&& release(release(blocks, r, m), m, r + size) == blocks.insert(p, whole)
            &&& release(release(blocks, m, r + size), r, m) == blocks.insert(p, whole)
        }),
{
    let whole = BlockHeader { start: r as usize, size: size as usize };
    let e = r + size;
    lemma_insertion_bounds(blocks, r, 0);
    let p = insertion_index(blocks, r);
    assert forall|j: int| p <= j < blocks.len() implies #[trigger] blocks[j].start > e by {
        if j > p {
            assert(blocks[p].end() <= blocks[j].start);
        }
    }
    assert forall|j: int| 0 <= j < p implies #[trigger] blocks[j].end() < r by {
        if blocks[j].start > e {
            assert(blocks[j].start <= r);
        }
    }
    // freeing [r, m) first
    let left = BlockHeader { start: r as usize, size: (m - r) as usize };
    let b1 = blocks.insert(p, left);
    assert(p > 0 ==> blocks[p - 1].end() < r);
    assert(release(blocks, r, m) == b1);
    assert forall|j: int| 0 <= j < p + 1 implies #[trigger] b1[j].start <= m by {
        if j < p {
            assert(b1[j] == blocks[j]);
        }
    }
    lemma_insertion_index_is(b1, m, p + 1, 0);
    assert(b1[p] == left);
    assert(p + 1 < b1.len() ==> b1[p + 1] == blocks[p]);
    assert(release(b1, m, e) =~= blocks.insert(p, whole));
    // freeing [m, r + size) first
    let right = BlockHeader { start: m as usize, size: (e - m) as usize };
    assert forall|j: int| 0 <= j < p implies #[trigger] blocks[j].start <= m by {
    }
    lemma_insertion_index_is(blocks, m, p, 0);
    let b2 = blocks.insert(p, right);
    assert(release(blocks, m, e) == b2);
    assert forall|j: int| 0 <= j < p implies #[trigger] b2[j].start <= r by {
        assert(b2[j] == blocks[j]);
    }
    lemma_insertion_index_is(b2, r, p, 0);
    assert(b2[p] == right);
    assert(b2.remove(p) =~= blocks);
    assert(release(b2, r, m) =~= blocks.insert(p, whole));
}

/// Address `x` lies in free region `b`.
pub open spec fn in_block(b: BlockHeader, x: int) -> bool {
    b.start <= x < b.end()
}

/// Address `x` lies in the block of allocation `a`.
pub open spec fn in_span(a: Allocation, x: int) -> bool {
    a.span_start() <= x < a.span_end()
}

/// Address `x` is in a free region or in a live allocation's block.
pub open spec fn covered(blocks: Seq<BlockHeader>, allocs: Seq<Allocation>, x: int) -> bool {
    ||| exists|j: int| 0 <= j < blocks.len() && in_block(#[trigger] blocks[j], x)
    ||| exists|k: int| 0 <= k < allocs.len() && in_span(#[trigger] allocs[k], x)
}

/// Free regions and live blocks together cover every address of `[lo, hi)`.
pub open spec fn tiles(blocks: Seq<BlockHeader>, allocs: Seq<Allocation>, lo: int, hi: int) -> bool {
    forall|x: int| lo <= x < hi ==> #[trigger] covered(blocks, allocs, x)
}

/// No free region ends where the next one starts.
pub open spec fn coalesced(blocks: Seq<BlockHeader>) -> bool {
    forall|j: int| 0 <= j < blocks.len() - 1 ==> #[trigger] blocks[j].end() < blocks[j + 1].start
}

/// The heap is wholly accounted for, and its free list fully merged.
pub open spec fn settled(h: LinkedListAllocator) -> bool {
    &&& tiles(h.blocks(), h.allocations(), h.start(), h.end())
    &&& coalesced(h.blocks())
}

/// A freshly initialised heap is settled.
pub proof fn lemma_init_settled(h: LinkedListAllocator, start: usize, size: usize)
    requires
        h.blocks() == seq![BlockHeader { start, size }],
        h.allocations() == Seq::<Allocation>::empty(),
        h.start() == start,
        h.end() == start + size,
    ensures
        settled(h),
{
    let b = BlockHeader { start, size };
    assert forall|x: int| h.start() <= x < h.end() implies #[trigger] covered(h.blocks(), h.allocations(), x) by {
        assert(in_block(h.blocks()[0], x));
    }
}

/// The first region that fits, when there is one, does fit.
proof fn lemma_first_fit_fits(blocks: Seq<BlockHeader>, size: int, align: int, i: int)
    requires
        0 <= i,
        first_fit_from(blocks, size, align, i) < blocks.len(),
    ensures
        i <= first_fit_from(blocks, size, align, i),
        fits(blocks[first_fit_from(blocks, size, align, i)], size, align),
    decreases blocks.len() - i,
{
    if i < blocks.len() && !fits(blocks[i], size, align) {
        lemma_first_fit_fits(blocks, size, align, i + 1);
    }
}

/// The first-fit search ends within the list or just past it.
proof fn lemma_first_fit_range(blocks: Seq<BlockHeader>, size: int, align: int, i: int)
    requires
        0 <= i,
    ensures
        first_fit_from(blocks, size, align, i) <= blocks.len(),
    decreases blocks.len() - i,
{
    if i < blocks.len() && !fits(blocks[i], size, align) {
        lemma_first_fit_range(blocks, size, align, i + 1);
    }
}

/// Serving a request keeps a settled heap settled.
#[verifier::rlimit(40)]
pub proof fn lemma_allocate_settles(
    pre: LinkedListAllocator,
    post: LinkedListAllocator,
    size: int,
    align: int,
    r: int,
)
    requires
        pre.wf(),
        settled(pre),
        0 <= size,
        align > 0,
        allocate_post(pre, post, size, align, r),
        post.start() == pre.start(),
        post.end() == pre.end(),
    ensures
        settled(post),
{
    let b = pre.blocks();
    let al = pre.allocations();
    let sz = normalized(size);
    let i = first_fit(b, sz, align);
    lemma_first_fit_range(b, sz, align, 0);
    if i < b.len() {
        lemma_first_fit_fits(b, sz, align, 0);
        lemma_align_up_bounds(b[i].start + HEADER_SIZE, align);
        let ae = r + sz;
        let nb = post.blocks();
        let nl = post.allocations();
        let split = b[i].end() - ae > HEADER_SIZE;
        assert(b[i].end() <= pre.end() && pre.start() <= b[i].start);
        assert(nl[al.len() as int].span_start() == b[i].start);
        assert(nl[al.len() as int].span_end() == taken_end(b[i], ae));
        assert forall|x: int| post.start() <= x < post.end() implies #[trigger] covered(nb, nl, x) by {
            assert(covered(b, al, x));
            if exists|k: int| 0 <= k < al.len() && in_span(#[trigger] al[k], x) {
                let k = choose|k: int| 0 <= k < al.len() && in_span(#[trigger] al[k], x);
                assert(nl[k] == al[k]);
            } else {
                let j = choose|j: int| 0 <= j < b.len() && in_block(#[trigger] b[j], x);
                if j == i {
                    if x < taken_end(b[i], ae) {
                        assert(in_span(nl[al.len() as int], x));
                    } else {
                        assert(in_block(nb[i], x));
                    }
                } else if split || j < i {
                    assert(nb[j] == b[j]);
                    assert(in_block(nb[j], x));
                } else {
                    assert(nb[j - 1] == b[j]);
                    assert(in_block(nb[j - 1], x));
                }
            }
        }
        assert forall|j: int| 0 <= j < nb.len() - 1 implies #[trigger] nb[j].end() < nb[j + 1].start by {
            if split {
                if j + 1 == i {
                    assert(b[j].end() < b[i].start);
                } else if j == i {
                    assert(b[i].end() < b[i + 1].start);
                } else {
                    assert(b[j].end() < b[j + 1].start);
                }
            } else if j + 1 < i {
                assert(b[j].end() < b[j + 1].start);
            } else if j + 1 == i {
                assert(b[j].end() < b[i].start);
                assert(b[i].end() <= b[i + 1].start);
            } else {
                assert(b[j + 1].end() < b[j + 2].start);
            }
        }
        assert(tiles(nb, nl, post.start(), post.end()));
    } else {
        assert(post.blocks() == b && post.allocations() == al);
    }
}

/// Releasing allocation `k` keeps every address of `[lo, hi)` covered.
#[verifier::rlimit(80)]
proof fn lemma_release_tiles(blocks: Seq<BlockHeader>, allocs: Seq<Allocation>, lo: int, hi: int, k: int)
    requires
        blocks_wf(blocks, lo, hi),
        allocations_wf(allocs, blocks, lo, hi),
        0 <= lo,
        hi <= usize::MAX,
        0 <= k < allocs.len(),
        tiles(blocks, allocs, lo, hi),
    ensures
        tiles(release(blocks, allocs[k].span_start(), allocs[k].span_end()), allocs.remove(k), lo, hi),
{
    let s = allocs[k].span_start();
    let e = allocs[k].span_end();
    lemma_release_position(blocks, allocs, lo, hi, k);
    let p = insertion_index(blocks, s);
    let merge_next = p < blocks.len() && blocks[p].start == e;
    let d: int = if merge_next { 1 } else { 0 };
    let mp: int = if p > 0 && blocks[p - 1].end() == s { 1 } else { 0 };
    let res = release(blocks, s, e);
    let ns: int = if mp == 1 { blocks[p - 1].start as int } else { s };
    let ne: int = if merge_next { blocks[p].end() } else { e };
    let q: int = p - mp;
    assert(allocation_within(allocs[k], lo, hi));
    if merge_next {
        assert(blocks[p].end() <= hi);
    }
    if mp == 1 {
        assert(lo <= blocks[p - 1].start);
    }
    assert(res.len() == blocks.len() - d + 1 - mp);
    assert(res[q].start == ns && res[q].end() == ne);
    let orig = |j: int| if j < q { j } else { j - 1 + d + mp };
    assert forall|j: int| 0 <= j < res.len() && j != q implies 0 <= #[trigger] orig(j) < blocks.len()
        && res[j] == blocks[orig(j)] by {
    }
    let rl = allocs.remove(k);
    assert forall|x: int| lo <= x < hi implies #[trigger] covered(res, rl, x) by {
        assert(covered(blocks, allocs, x));
        if exists|k0: int| 0 <= k0 < allocs.len() && in_span(#[trigger] allocs[k0], x) {
            let k0 = choose|k0: int| 0 <= k0 < allocs.len() && in_span(#[trigger] allocs[k0], x);
            if k0 == k {
                assert(in_block(res[q], x));
            } else if k0 < k {
                assert(rl[k0] == allocs[k0]);
                assert(in_span(rl[k0], x));
            } else {
                assert(rl[k0 - 1] == allocs[k0]);
                assert(in_span(rl[k0 - 1], x));
            }
        } else {
            let j = choose|j: int| 0 <= j < blocks.len() && in_block(#[trigger] blocks[j], x);
            if (j == p && merge_next) || (j == p - 1 && mp == 1) {
                assert(in_block(res[q], x));
            } else if j < q {
                assert(res[j] == blocks[orig(j)]);
                assert(in_block(res[j], x));
            } else {
                let jj = j + 1 - d - mp;
                assert(orig(jj) == j);
                assert(res[jj] == blocks[j]);
                assert(in_block(res[jj], x));
            }
        }
    }
}

/// Releasing allocation `k` keeps the free list fully merged.
#[verifier::rlimit(100)]
proof fn lemma_release_coalesced(blocks: Seq<BlockHeader>, allocs: Seq<Allocation>, lo: int, hi: int, k: int)
    requires
        blocks_wf(blocks, lo, hi),
        allocations_wf(allocs, blocks, lo, hi),
        0 <= lo,
        hi <= usize::MAX,
        0 <= k < allocs.len(),
        coalesced(blocks),
    ensures
        coalesced(release(blocks, allocs[k].span_start(), allocs[k].span_end())),
{
    let s = allocs[k].span_start();
    let e = allocs[k].span_end();
    lemma_release_position(blocks, allocs, lo, hi, k);
    let p = insertion_index(blocks, s);
    let merge_next = p < blocks.len() && blocks[p].start == e;
    let d: int = if merge_next { 1 } else { 0 };
    let mp: int = if p > 0 && blocks[p - 1].end() == s { 1 } else { 0 };
    let res = release(blocks, s, e);
    let ns: int = if mp == 1 { blocks[p - 1].start as int } else { s };
    let ne: int = if merge_next { blocks[p].end() } else { e };
    let q: int = p - mp;
    assert(allocation_within(allocs[k], lo, hi));
    if merge_next {
        assert(blocks[p].end() <= hi);
    }
    if mp == 1 {
        assert(lo <= blocks[p - 1].start);
    }
    assert(res.len() == blocks.len() - d + 1 - mp);
    assert(res[q].start == ns && res[q].end() == ne);
    let orig = |j: int| if j < q { j } else { j - 1 + d + mp };
    assert forall|j: int| 0 <= j < res.len() && j != q implies 0 <= #[trigger] orig(j) < blocks.len()
        && res[j] == blocks[orig(j)] by {
    }
    let c = d + mp - 1;
    assert forall|j: int| 0 <= j < res.len() && j != q implies #[trigger] res[j] == blocks[if j < q { j } else { j + c }] by {
        assert(res[j] == blocks[orig(j)]);
    }
    if q > 0 {
        if mp == 1 {
            assert(blocks[p - 2].end() < blocks[p - 1].start);
        } else {
            assert(blocks[p - 1].end() <= s);
        }
    }
    if q + 1 < res.len() {
        if merge_next {
            assert(blocks[p].end() < blocks[p + 1].start);
        } else {
            assert(blocks[p].start >= e);
        }
    }
    lemma_coalesced_from_parts(blocks, res, q, c);
}

/// A list made from a merged one by putting region `q` in place of some of
/// its regions, with the regions after shifted by `c`, is merged when region
/// `q` touches neither neighbour.
proof fn lemma_coalesced_from_parts(blocks: Seq<BlockHeader>, res: Seq<BlockHeader>, q: int, c: int)
    requires
        coalesced(blocks),
        0 <= q < res.len(),
        -1 <= c <= 1,
        res.len() + c == blocks.len(),
        forall|j: int| 0 <= j < res.len() && j != q ==> #[trigger] res[j] == blocks[if j < q { j } else { j + c }],
        q > 0 ==> blocks[q - 1].end() < res[q].start,
        q + 1 < res.len() ==> res[q].end() < blocks[q + 1 + c].start,
    ensures
        coalesced(res),
{
    assert forall|jj: int| 0 <= jj < res.len() - 1 implies #[trigger] res[jj].end() < res[jj + 1].start by {
        if jj + 1 < q {
            assert(res[jj] == blocks[jj] && res[jj + 1] == blocks[jj + 1]);
        } else if jj + 1 == q {
            assert(res[jj] == blocks[jj]);
        } else if jj == q {
            assert(res[q + 1] == blocks[q + 1 + c]);
        } else {
            assert(res[jj] == blocks[jj + c] && res[jj + 1] == blocks[jj + 1 + c]);
        }
    }
}

/// Releasing an allocation keeps a settled heap settled.
pub proof fn lemma_deallocate_settles(pre: LinkedListAllocator, post: LinkedListAllocator, ptr: int, r: bool)
    requires
        pre.wf(),
        settled(pre),
        deallocate_post(pre, post, ptr, r),
        post.start() == pre.start(),
        post.end() == pre.end(),
    ensures
        settled(post),
{
    if r {
        let k = live_index(pre.allocations(), ptr);
        lemma_release_tiles(pre.blocks(), pre.allocations(), pre.start(), pre.end(), k);
        lemma_release_coalesced(pre.blocks(), pre.allocations(), pre.start(), pre.end(), k);
    }
}

/// A settled heap with no live allocation is one free region spanning the
/// whole heap: after any allocations are all released, in any order, the
/// full capacity is back.
pub proof fn lemma_all_released_is_whole(h: LinkedListAllocator)
    requires
        h.wf(),
        settled(h),
        h.allocations().len() == 0,
        h.start() < h.end(),
    ensures
        h.blocks() == seq![BlockHeader { start: h.start() as usize, size: (h.end() - h.start()) as usize }],
{
    let b = h.blocks();
    let lo = h.start();
    let hi = h.end();
    assert(covered(b, h.allocations(), lo));
    let j0 = choose|j: int| 0 <= j < b.len() && in_block(#[trigger] b[j], lo);
    if j0 > 0 {
        assert(b[0].end() <= b[j0].start);
    }
    assert(b[0].start == lo);
    if b.len() >= 2 {
        let x = b[0].end();
        assert(b[1].end() <= hi);
        assert(covered(b, h.allocations(), x));
        let j = choose|j: int| 0 <= j < b.len() && in_block(#[trigger] b[j], x);
        if j > 1 {
            assert(b[1].end() <= b[j].start);
        }
    }
    if b[0].end() < hi {
        let x = b[0].end();
        assert(covered(b, h.allocations(), x));
    }
    assert(b =~= seq![BlockHeader { start: lo as usize, size: (hi - lo) as usize }]);
}

} // verus!
