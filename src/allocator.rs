//! The free-list allocator.
//!
//! The heap is a flat range of addresses `[start, end)`. Free regions are kept
//! in a list sorted by address; a table of live allocations records, for each
//! pointer handed out, its payload size and the whole block it took, which a
//! release gives back.
use vstd::prelude::*;
use vstd::arithmetic::div_mod::{lemma_fundamental_div_mod, lemma_mod_pos_bound};

verus! {

/// Bytes taken by the header that describes a free region.
pub const HEADER_SIZE: usize = 8;

/// Alignment used by the heap's public entry points.
pub const DEFAULT_ALIGN: usize = 4;

/// A free region: its first address and its size in bytes, header included.
#[derive(Clone, Copy, Debug, PartialEq, Eq, Structural)]
pub struct BlockHeader {
    pub start: usize,
    pub size: usize,
}

impl BlockHeader {
    pub open spec fn end(self) -> int {
        self.start + self.size
    }

    pub fn new(start: usize, size: usize) -> (r: Self)
        ensures
            r.start == start,
            r.size == size,
    {
        BlockHeader { start, size }
    }

    pub fn start_addr(&self) -> (r: usize)
        ensures
            r == self.start,
    {
        self.start
    }

    pub fn end_addr(&self) -> (r: usize)
        requires
            self.end() <= usize::MAX,
        ensures
            r == self.end(),
    {
        self.start + self.size
    }
}

/// A live allocation: the pointer handed out, the payload size, and the
/// whole block it took from the free list, `[block_start, block_end)`. The
/// block runs from the region's start, header included, to the payload's
/// end, or to the region's end when the remainder was absorbed.
#[derive(Clone, Copy, Debug, PartialEq, Eq, Structural)]
pub struct Allocation {
    pub ptr: usize,
    pub size: usize,
    pub block_start: usize,
    pub block_end: usize,
}

impl Allocation {
    /// First address that releasing this allocation returns to the free list.
    pub open spec fn span_start(self) -> int {
        self.block_start as int
    }

    /// One past the last address that releasing this allocation returns.
    pub open spec fn span_end(self) -> int {
        self.block_end as int
    }
}

/// Rounds `addr` up to the next multiple of `align`.
pub open spec fn align_up_spec(addr: int, align: int) -> int {
    ((addr + align - 1) / align) * align
}

/// The size that a request of `size` bytes is served with.
pub open spec fn normalized(size: int) -> int {
    if size == 0 { 1 } else { size }
}

/// Address handed out when region `b` serves a request with alignment `align`.
pub open spec fn alloc_start(b: BlockHeader, align: int) -> int {
    align_up_spec(b.start + HEADER_SIZE, align)
}

/// Region `b` can hold `size` payload bytes at alignment `align`.
pub open spec fn fits(b: BlockHeader, size: int, align: int) -> bool {
    alloc_start(b, align) + size <= b.end()
}

/// Index of the first region, at `i` or later, that fits; the length if none.
pub open spec fn first_fit_from(blocks: Seq<BlockHeader>, size: int, align: int, i: int) -> int
    decreases blocks.len() - i,
{
    if i < 0 || i >= blocks.len() {
        blocks.len() as int
    } else if fits(blocks[i], size, align) {
        i
    } else {
        first_fit_from(blocks, size, align, i + 1)
    }
}

/// Index of the first region that fits; the length if none.
pub open spec fn first_fit(blocks: Seq<BlockHeader>, size: int, align: int) -> int {
    first_fit_from(blocks, size, align, 0)
}

/// The free list once region `i` has served an allocation that ends at
/// `alloc_end`: what is left behind the allocation stays free in its place
/// when it exceeds one header, else it goes with the allocation.
pub open spec fn split_blocks(blocks: Seq<BlockHeader>, i: int, alloc_end: int) -> Seq<BlockHeader> {
    let b = blocks[i];
    if b.end() - alloc_end > HEADER_SIZE {
        blocks.update(i, BlockHeader { start: alloc_end as usize, size: (b.end() - alloc_end) as usize })
    } else {
        blocks.remove(i)
    }
}

/// End of the block that region `b` gives to an allocation ending at
/// `alloc_end`: the allocation's end when a remainder stays free, else the
/// region's end.
pub open spec fn taken_end(b: BlockHeader, alloc_end: int) -> int {
    if b.end() - alloc_end > HEADER_SIZE { alloc_end } else { b.end() }
}

/// Index of the first region, at `i` or later, that starts after `addr`; the
/// length if none.
pub open spec fn insertion_from(blocks: Seq<BlockHeader>, addr: int, i: int) -> int
    decreases blocks.len() - i,
{
    if i < 0 || i >= blocks.len() {
        blocks.len() as int
    } else if blocks[i].start > addr {
        i
    } else {
        insertion_from(blocks, addr, i + 1)
    }
}

/// Index of the first region that starts after `addr`; the length if none.
pub open spec fn insertion_index(blocks: Seq<BlockHeader>, addr: int) -> int {
    insertion_from(blocks, addr, 0)
}

/// The free list once the span `[lo, hi)` is handed back: it absorbs the
/// following region when that starts at `hi`, and is then absorbed by the
/// preceding region when that ends at `lo`; else it enters the list in
/// address order.
pub open spec fn release(blocks: Seq<BlockHeader>, lo: int, hi: int) -> Seq<BlockHeader> {
    let p = insertion_index(blocks, lo);
    let merge_next = p < blocks.len() && blocks[p].start == hi;
    let total = if merge_next { hi - lo + blocks[p].size } else { hi - lo };
    let rest = if merge_next { blocks.remove(p) } else { blocks };
    if p > 0 && blocks[p - 1].end() == lo {
        rest.update(p - 1, BlockHeader { start: blocks[p - 1].start, size: (blocks[p - 1].size + total) as usize })
    } else {
        rest.insert(p, BlockHeader { start: lo as usize, size: total as usize })
    }
}

/// The ranges `[a0, a1)` and `[b0, b1)` share no address.
pub open spec fn disjoint(a0: int, a1: int, b0: int, b1: int) -> bool {
    a1 <= b0 || b1 <= a0
}

/// Free regions hold at least one header, lie in `[lo, hi)`, and are sorted
/// by address without overlap.
pub open spec fn blocks_wf(blocks: Seq<BlockHeader>, lo: int, hi: int) -> bool {
    &&& forall|i: int|
        0 <= i < blocks.len() ==> #[trigger] blocks[i].size >= HEADER_SIZE && lo <= blocks[i].start
            && blocks[i].end() <= hi
    &&& forall|i: int, j: int| 0 <= i < j < blocks.len() ==> #[trigger] blocks[i].end() <= #[trigger] blocks[j].start
}

/// Allocation `a` has a non-empty payload after its header, inside its
/// block, which lies in `[lo, hi)`.
pub open spec fn allocation_within(a: Allocation, lo: int, hi: int) -> bool {
    &&& a.size > 0
    &&& lo <= a.span_start()
    &&& a.span_start() + HEADER_SIZE <= a.ptr
    &&& a.ptr + a.size <= a.span_end()
    &&& a.span_end() <= hi
}

/// Live allocations lie in `[lo, hi)`, each with its header and payload
/// inside its block, and overlap neither a free region nor each other.
pub open spec fn allocations_wf(allocs: Seq<Allocation>, blocks: Seq<BlockHeader>, lo: int, hi: int) -> bool {
    &&& forall|k: int|
        0 <= k < allocs.len() ==> allocation_within(#[trigger] allocs[k], lo, hi)
    &&& forall|k: int, i: int|
        0 <= k < allocs.len() && 0 <= i < blocks.len() ==> disjoint(
            #[trigger] allocs[k].span_start(),
            allocs[k].span_end(),
            #[trigger] blocks[i].start as int,
            blocks[i].end(),
        )
    &&& forall|k: int, l: int|
        0 <= k < allocs.len() && 0 <= l < allocs.len() && k != l ==> disjoint(
            #[trigger] allocs[k].span_start(),
            allocs[k].span_end(),
            #[trigger] allocs[l].span_start(),
            allocs[l].span_end(),
        )
}

/// Index of the live allocation at `ptr`.
pub open spec fn live_index(allocs: Seq<Allocation>, ptr: int) -> int {
    choose|k: int| 0 <= k < allocs.len() && allocs[k].ptr == ptr
}

/// Some live allocation sits at `ptr`.
pub open spec fn is_live(allocs: Seq<Allocation>, ptr: int) -> bool {
    exists|k: int| 0 <= k < allocs.len() && allocs[k].ptr == ptr
}


/// Rounds `addr` up to the next multiple of `align`.
fn align_up(addr: u128, align: u128) -> (r: u128)
    requires
        align > 0,
        addr + align - 1 <= u128::MAX,
    ensures
        r == align_up_spec(addr as int, align as int),
        addr <= r <= addr + align - 1,
{
    let x = addr + (align - 1);
    let q = x / align;
    proof {
        lemma_fundamental_div_mod(x as int, align as int);
        lemma_mod_pos_bound(x as int, align as int);
        assert(q * align == align * q) by (nonlinear_arith);
    }
    q * align
}

/// The address that region `b` hands out for `size` bytes at alignment
/// `align`, if the region is large enough.
fn fitting_start(b: &BlockHeader, size: usize, align: usize) -> (r: Option<usize>)
    requires
        align > 0,
        b.end() <= usize::MAX,
    ensures
        r.is_some() == fits(*b, size as int, align as int),
        r.is_some() ==> r.unwrap() == alloc_start(*b, align as int),
{
    let first: u128 = b.start as u128 + HEADER_SIZE as u128;
    let s = align_up(first, align as u128);
    if s + (size as u128) <= b.start as u128 + b.size as u128 {
        Some(s as usize)
    } else {
        None
    }
}

/// Index of the live allocation at `ptr`, if any.
fn find_live(live: &Vec<Allocation>, ptr: usize) -> (r: Option<usize>)
    ensures
        r.is_none() ==> !is_live(live@, ptr as int),
        r.is_some() ==> r.unwrap() < live@.len() && live@[r.unwrap() as int].ptr == ptr,
{
    let mut k: usize = 0;
    while k < live.len()
        invariant
            k <= live@.len(),
            forall|j: int| 0 <= j < k ==> live@[j].ptr != ptr,
        decreases live@.len() - k,
    {
        if live[k].ptr == ptr {
            return Some(k);
        }
        k = k + 1;
    }
    None
}

/// The live allocations' pointers are distinct.
proof fn lemma_live_unique(allocs: Seq<Allocation>, blocks: Seq<BlockHeader>, lo: int, hi: int, k: int)
    requires
        allocations_wf(allocs, blocks, lo, hi),
        0 <= k < allocs.len(),
    ensures
        live_index(allocs, allocs[k].ptr as int) == k,
{
    let ptr = allocs[k].ptr as int;
    assert(is_live(allocs, ptr));
    let c = live_index(allocs, ptr);
    if c != k {
        assert(disjoint(allocs[k].span_start(), allocs[k].span_end(), allocs[c].span_start(), allocs[c].span_end()));
    }
}

/// The first region that fits, searched from `i` on, is the one searched from
/// the start once the regions before `i` are known not to fit.
proof fn lemma_first_fit_step(blocks: Seq<BlockHeader>, size: int, align: int, i: int)
    requires
        0 <= i < blocks.len(),
        !fits(blocks[i], size, align),
    ensures
        first_fit_from(blocks, size, align, i) == first_fit_from(blocks, size, align, i + 1),
{
}

/// The first region that starts after `addr`, searched from `i` on, is the
/// one searched from `i + 1` when region `i` starts at or before `addr`.
proof fn lemma_insertion_step(blocks: Seq<BlockHeader>, addr: int, i: int)
    requires
        0 <= i < blocks.len(),
        blocks[i].start <= addr,
    ensures
        insertion_from(blocks, addr, i) == insertion_from(blocks, addr, i + 1),
{
}

/// `align_up_spec` moves an address forward by less than one alignment step.
pub proof fn lemma_align_up_bounds(addr: int, align: int)
    requires
        addr >= 0,
        align > 0,
    ensures
        addr <= align_up_spec(addr, align) <= addr + align - 1,
{
    let x = addr + align - 1;
    lemma_fundamental_div_mod(x, align);
    lemma_mod_pos_bound(x, align);
    assert((x / align) * align == align * (x / align)) by (nonlinear_arith);
}

/// Serving an allocation `[a, a + size)` from region `i` keeps the free list
/// and the live allocations well formed.
#[verifier::rlimit(40)]
proof fn lemma_allocate_wf(
    old_free: Seq<BlockHeader>,
    old_live: Seq<Allocation>,
    lo: int,
    hi: int,
    i: int,
    a: int,
    size: int,
    nb: Seq<BlockHeader>,
    nl: Seq<Allocation>,
)
    requires
        blocks_wf(old_free, lo, hi),
        allocations_wf(old_live, old_free, lo, hi),
        hi <= usize::MAX,
        0 <= i < old_free.len(),
        size > 0,
        a >= old_free[i].start + HEADER_SIZE,
        a + size <= old_free[i].end(),
        nb == split_blocks(old_free, i, a + size),
        nl == old_live.push(
            Allocation {
                ptr: a as usize,
                size: size as usize,
                block_start: old_free[i].start,
                block_end: taken_end(old_free[i], a + size) as usize,
            },
        ),
    ensures
        blocks_wf(nb, lo, hi),
        allocations_wf(nl, nb, lo, hi),
{
    let alloc_end = a + size;
    let excess = old_free[i].end() - alloc_end;
    // every region left free lies within an old one
    assert forall|j: int| 0 <= j < nb.len() implies exists|m: int|
        0 <= m < old_free.len() && old_free[m].start <= #[trigger] nb[j].start
            && nb[j].end() <= old_free[m].end() && (m == i ==> nb[j].start >= alloc_end)
        by {
        if excess > HEADER_SIZE {
            assert(old_free[j].start <= nb[j].start);
        } else if j < i {
            assert(old_free[j].start <= nb[j].start);
        } else {
            assert(old_free[j + 1].start <= nb[j].start);
        }
    }
    assert forall|j1: int, j2: int| 0 <= j1 < j2 < nb.len() implies #[trigger] nb[j1].end()
        <= #[trigger] nb[j2].start by {
        if excess > HEADER_SIZE {
            assert(old_free[j1].end() <= old_free[j2].start);
        } else {
            let m1 = if j1 < i { j1 } else { j1 + 1 };
            let m2 = if j2 < i { j2 } else { j2 + 1 };
            assert(old_free[m1].end() <= old_free[m2].start);
        }
    }
    assert(blocks_wf(nb, lo, hi));
    assert forall|k: int, j: int| 0 <= k < nl.len() && 0 <= j < nb.len() implies disjoint(
        #[trigger] nl[k].span_start(),
        nl[k].span_end(),
        #[trigger] nb[j].start as int,
        nb[j].end(),
    ) by {
        let m = choose|m: int|
            0 <= m < old_free.len() && old_free[m].start <= nb[j].start && nb[j].end()
                <= old_free[m].end() && (m == i ==> nb[j].start >= alloc_end);
        if k < old_live.len() {
            assert(disjoint(old_live[k].span_start(), old_live[k].span_end(), old_free[m].start as int, old_free[m].end()));
        } else if m != i {
            if m < i {
                assert(old_free[m].end() <= old_free[i].start);
            } else {
                assert(old_free[i].end() <= old_free[m].start);
            }
        }
    }
    assert forall|k: int, l: int| 0 <= k < nl.len() && 0 <= l < nl.len() && k != l implies disjoint(
        #[trigger] nl[k].span_start(),
        nl[k].span_end(),
        #[trigger] nl[l].span_start(),
        nl[l].span_end(),
    ) by {
        if k < old_live.len() && l < old_live.len() {
            assert(disjoint(old_live[k].span_start(), old_live[k].span_end(), old_live[l].span_start(), old_live[l].span_end()));
        } else if k < old_live.len() {
            assert(disjoint(old_live[k].span_start(), old_live[k].span_end(), old_free[i].start as int, old_free[i].end()));
        } else {
            assert(disjoint(old_live[l].span_start(), old_live[l].span_end(), old_free[i].start as int, old_free[i].end()));
        }
    }
    assert(allocations_wf(nl, nb, lo, hi));
}

/// Where the span of live allocation `k` stands among the free regions: the
/// regions before its insertion index end at or before it, the others start
/// at or after its end.
pub proof fn lemma_release_position(
    blocks: Seq<BlockHeader>,
    allocs: Seq<Allocation>,
    lo: int,
    hi: int,
    k: int,
)
    requires
        blocks_wf(blocks, lo, hi),
        allocations_wf(allocs, blocks, lo, hi),
        0 <= k < allocs.len(),
    ensures
        0 <= insertion_index(blocks, allocs[k].span_start()) <= blocks.len(),
        forall|j: int|
            0 <= j < insertion_index(blocks, allocs[k].span_start()) ==> #[trigger] blocks[j].end()
                <= allocs[k].span_start(),
        forall|j: int|
            insertion_index(blocks, allocs[k].span_start()) <= j < blocks.len() ==> #[trigger] blocks[j].start
                >= allocs[k].span_end(),
{
    let s = allocs[k].span_start();
    let e = allocs[k].span_end();
    lemma_insertion_bounds(blocks, s, 0);
    let p = insertion_index(blocks, s);
    assert forall|j: int| 0 <= j < p implies #[trigger] blocks[j].end() <= s by {
        assert(disjoint(s, e, blocks[j].start as int, blocks[j].end()));
    }
    assert forall|j: int| p <= j < blocks.len() implies #[trigger] blocks[j].start >= e by {
        if j > p {
            assert(blocks[p].end() <= blocks[j].start);
        }
        assert(disjoint(s, e, blocks[j].start as int, blocks[j].end()));
    }
}

/// The search for the insertion index from `i` ends in `[i, len]`, past
/// regions that start at or before `addr` only, at one that starts after it.
pub proof fn lemma_insertion_bounds(blocks: Seq<BlockHeader>, addr: int, i: int)
    requires
        0 <= i <= blocks.len(),
        forall|j: int| 0 <= j < i ==> #[trigger] blocks[j].start <= addr,
    ensures
        i <= insertion_from(blocks, addr, i) <= blocks.len(),
        forall|j: int| 0 <= j < insertion_from(blocks, addr, i) ==> #[trigger] blocks[j].start <= addr,
        insertion_from(blocks, addr, i) < blocks.len() ==> blocks[insertion_from(blocks, addr, i)].start > addr,
    decreases blocks.len() - i,
{
    if i < blocks.len() && blocks[i].start <= addr {
        lemma_insertion_bounds(blocks, addr, i + 1);
    }
}

/// Releasing live allocation `k` keeps the free list and the remaining live
/// allocations well formed.
#[verifier::rlimit(60)]
proof fn lemma_release_wf(blocks: Seq<BlockHeader>, allocs: Seq<Allocation>, lo: int, hi: int, k: int)
    requires
        blocks_wf(blocks, lo, hi),
        allocations_wf(allocs, blocks, lo, hi),
        0 <= lo,
        hi <= usize::MAX,
        0 <= k < allocs.len(),
    ensures
        blocks_wf(release(blocks, allocs[k].span_start(), allocs[k].span_end()), lo, hi),
        allocations_wf(
            allocs.remove(k),
            release(blocks, allocs[k].span_start(), allocs[k].span_end()),
            lo,
            hi,
        ),
{
    let s = allocs[k].span_start();
    let e = allocs[k].span_end();
    lemma_release_position(blocks, allocs, lo, hi, k);
    let p = insertion_index(blocks, s);
    let merge_next = p < blocks.len() && blocks[p].start == e;
    let d: int = if merge_next { 1 } else { 0 };
    let total = if merge_next { e - s + blocks[p].size } else { e - s };
    let merge_prev = p > 0 && blocks[p - 1].end() == s;
    let res = release(blocks, s, e);
    let ns: int = if merge_prev { blocks[p - 1].start as int } else { s };
    let ne: int = s + total;
    let q: int = if merge_prev { p - 1 } else { p };
    // the merged or inserted region, at index q, spans [ns, ne)
    assert(res.len() == blocks.len() - d + (if merge_prev { 0int } else { 1int }));
    if merge_next {
        assert(blocks[p].end() <= hi);
    }
    if merge_prev {
        assert(lo <= blocks[p - 1].start);
    }
    assert(allocs[k].size > 0 && lo <= s && e <= hi);
    assert(0 <= total && ne <= hi);
    assert(res[q].start == ns && res[q].end() == ne);
    // every other region is an old one, in the same order
    let orig = |j: int| if j < q { j } else { j - 1 + d + (if merge_prev { 1int } else { 0int }) };
    assert forall|j: int| 0 <= j < res.len() && j != q implies 0 <= #[trigger] orig(j) < blocks.len()
        && res[j] == blocks[orig(j)] && (j < q ==> orig(j) < q) && (j > q ==> orig(j) >= p + d) by {
    }
    assert forall|j: int| 0 <= j < res.len() implies #[trigger] res[j].size > 0 && lo <= res[j].start
        && res[j].end() <= hi by {
        if j != q {
            assert(res[j] == blocks[orig(j)]);
        } else if merge_next {
            assert(blocks[p].end() <= hi);
        }
    }
    assert forall|j1: int, j2: int| 0 <= j1 < j2 < res.len() implies #[trigger] res[j1].end()
        <= #[trigger] res[j2].start by {
        if j1 != q && j2 != q {
            assert(blocks[orig(j1)].end() <= blocks[orig(j2)].start);
        } else if j1 == q {
            assert(res[j2] == blocks[orig(j2)]);
            if merge_next {
                assert(blocks[p].end() <= blocks[orig(j2)].start);
            }
        } else {
            assert(res[j1] == blocks[orig(j1)]);
            if merge_prev {
                assert(blocks[orig(j1)].end() <= blocks[p - 1].start);
            }
        }
    }
    let rl = allocs.remove(k);
    assert forall|m: int, j: int| 0 <= m < rl.len() && 0 <= j < res.len() implies disjoint(
        #[trigger] rl[m].span_start(),
        rl[m].span_end(),
        #[trigger] res[j].start as int,
        res[j].end(),
    ) by {
        let om = if m < k { m } else { m + 1 };
        assert(rl[m] == allocs[om]);
        if j != q {
            assert(disjoint(allocs[om].span_start(), allocs[om].span_end(), blocks[orig(j)].start as int, blocks[orig(j)].end()));
        } else {
            assert(disjoint(allocs[om].span_start(), allocs[om].span_end(), s, e));
            if merge_next {
                assert(disjoint(allocs[om].span_start(), allocs[om].span_end(), blocks[p].start as int, blocks[p].end()));
            }
            if merge_prev {
                assert(disjoint(allocs[om].span_start(), allocs[om].span_end(), blocks[p - 1].start as int, blocks[p - 1].end()));
            }
        }
    }
    assert forall|m: int, l: int| 0 <= m < rl.len() && 0 <= l < rl.len() && m != l implies disjoint(
        #[trigger] rl[m].span_start(),
        rl[m].span_end(),
        #[trigger] rl[l].span_start(),
        rl[l].span_end(),
    ) by {
        let om = if m < k { m } else { m + 1 };
        let ol = if l < k { l } else { l + 1 };
        assert(disjoint(allocs[om].span_start(), allocs[om].span_end(), allocs[ol].span_start(), allocs[ol].span_end()));
    }
    assert forall|m: int| 0 <= m < rl.len() implies allocation_within(#[trigger] rl[m], lo, hi) by {
        let om = if m < k { m } else { m + 1 };
        assert(rl[m] == allocs[om]);
    }
}

/// The heap allocator: its bounds, its free list, and its live allocations.
pub struct LinkedListAllocator {
    free: Vec<BlockHeader>,
    live: Vec<Allocation>,
    heap_start: usize,
    heap_end: usize,
}

impl LinkedListAllocator {
    pub closed spec fn blocks(&self) -> Seq<BlockHeader> {
        self.free@
    }

    pub closed spec fn allocations(&self) -> Seq<Allocation> {
        self.live@
    }

    pub closed spec fn start(&self) -> int {
        self.heap_start as int
    }

    pub closed spec fn end(&self) -> int {
        self.heap_end as int
    }

    pub open spec fn wf(&self) -> bool {
        &&& 0 <= self.start() <= self.end() <= usize::MAX
        &&& blocks_wf(self.blocks(), self.start(), self.end())
        &&& allocations_wf(self.allocations(), self.blocks(), self.start(), self.end())
    }

    /// An allocator with an empty heap, serving no request until `init`.
    pub fn new() -> (r: Self)
        ensures
            r.wf(),
            r.blocks() == Seq::<BlockHeader>::empty(),
            r.allocations() == Seq::<Allocation>::empty(),
            r.start() == 0,
            r.end() == 0,
    {
        LinkedListAllocator { free: Vec::new(), live: Vec::new(), heap_start: 0, heap_end: 0 }
    }

    /// Takes `[heap_start, heap_start + heap_size)` as the heap, all of it
    /// free, and forgets any earlier state.
    pub fn init(&mut self, heap_start: usize, heap_size: usize)
        requires
            heap_start + heap_size <= usize::MAX,
            heap_size >= HEADER_SIZE,
        ensures
            final(self).wf(),
            final(self).start() == heap_start,
            final(self).end() == heap_start + heap_size,
            final(self).blocks() == seq![BlockHeader { start: heap_start, size: heap_size }],
            final(self).allocations() == Seq::<Allocation>::empty(),
    {
        self.heap_start = heap_start;
        self.heap_end = heap_start + heap_size;
        self.live = Vec::new();
        self.free = Vec::new();
        self.free.push(BlockHeader::new(heap_start, heap_size));
        proof {
            assert(self.free@ =~= seq![BlockHeader { start: heap_start, size: heap_size }]);
        }
    }

    /// First-fit search: the index of the first region that holds `size`
    /// bytes at alignment `align`, and the address it would hand out.
    fn find_region(&self, size: usize, align: usize) -> (r: Option<(usize, usize)>)
        requires
            self.wf(),
            align > 0,
        ensures
            r.is_none() ==> first_fit(self.blocks(), size as int, align as int) == self.blocks().len(),
            r.is_some() ==> {
                let (i, a) = r.unwrap();
                &&& i == first_fit(self.blocks(), size as int, align as int)
                &&& i < self.blocks().len()
                &&& fits(self.blocks()[i as int], size as int, align as int)
                &&& a == alloc_start(self.blocks()[i as int], align as int)
            },
    {
        let mut i: usize = 0;
        while i < self.free.len()
            invariant
                self.wf(),
                align > 0,
                i <= self.free@.len(),
                first_fit_from(self.free@, size as int, align as int, i as int) == first_fit(
                    self.free@,
                    size as int,
                    align as int,
                ),
            decreases self.free@.len() - i,
        {
            let region = self.free[i];
            assert(self.free@[i as int] == region);
            match fitting_start(&region, size, align) {
                Some(a) => {
                    return Some((i, a));
                },
                None => {
                    proof {
                        lemma_first_fit_step(self.free@, size as int, align as int, i as int);
                    }
                },
            }
            i = i + 1;
        }
        None
    }

    /// Serves `size` bytes (at least one) at alignment `align` from the first
    /// region that fits, and returns the address; returns 0 when no region
    /// fits.
    pub fn allocate(&mut self, size: usize, align: usize) -> (r: usize)
        requires
            old(self).wf(),
            align > 0,
        ensures
            final(self).wf(),
            final(self).start() == old(self).start(),
            final(self).end() == old(self).end(),
            allocate_post(*old(self), *final(self), size as int, align as int, r as int),
    {
        let size = if size == 0 { 1 } else { size };
        match self.find_region(size, align) {
            None => 0,
            Some((i, a)) => {
                let ghost old_free = self.free@;
                let ghost old_live = self.live@;
                let ghost lo = self.heap_start as int;
                let ghost hi = self.heap_end as int;
                let region = self.free[i];
                assert(old_free[i as int] == region);
                let alloc_end = a + size;
                let excess = region.end_addr() - alloc_end;
                proof {
                    lemma_align_up_bounds(region.start + HEADER_SIZE, align as int);
                }
                if excess > HEADER_SIZE {
                    self.free.set(i, BlockHeader::new(alloc_end, excess));
                } else {
                    self.free.remove(i);
                }
                let block_end = if excess > HEADER_SIZE { alloc_end } else { region.end_addr() };
                let new = Allocation { ptr: a, size, block_start: region.start, block_end };
                self.live.push(new);
                proof {
                    lemma_allocate_wf(old_free, old_live, lo, hi, i as int, a as int, size as int, self.free@, self.live@);
                }
                a
            },
        }
    }

    /// The free regions, in address order.
    pub fn free_regions(&self) -> (r: Vec<BlockHeader>)
        ensures
            r@ == self.blocks(),
    {
        let mut r: Vec<BlockHeader> = Vec::new();
        let mut i: usize = 0;
        while i < self.free.len()
            invariant
                i <= self.free@.len(),
                r@ == self.free@.subrange(0, i as int),
            decreases self.free@.len() - i,
        {
            r.push(self.free[i]);
            i = i + 1;
            assert(r@ =~= self.free@.subrange(0, i as int));
        }
        assert(r@ =~= self.free@);
        r
    }

    /// The live allocations, oldest first.
    pub fn live_allocations(&self) -> (r: Vec<Allocation>)
        ensures
            r@ == self.allocations(),
    {
        let mut r: Vec<Allocation> = Vec::new();
        let mut i: usize = 0;
        while i < self.live.len()
            invariant
                i <= self.live@.len(),
                r@ == self.live@.subrange(0, i as int),
            decreases self.live@.len() - i,
        {
            r.push(self.live[i]);
            i = i + 1;
            assert(r@ =~= self.live@.subrange(0, i as int));
        }
        assert(r@ =~= self.live@);
        r
    }

    /// First address of the heap.
    pub fn heap_start(&self) -> (r: usize)
        ensures
            r == self.start(),
    {
        self.heap_start
    }

    /// One past the last address of the heap.
    pub fn heap_end(&self) -> (r: usize)
        ensures
            r == self.end(),
    {
        self.heap_end
    }

    /// Index of the first free region that starts after `addr`.
    fn insertion_point(&self, addr: usize) -> (r: usize)
        requires
            self.wf(),
        ensures
            r == insertion_index(self.blocks(), addr as int),
    {
        let mut i: usize = 0;
        while i < self.free.len()
            invariant
                i <= self.free@.len(),
                insertion_from(self.free@, addr as int, i as int) == insertion_index(self.free@, addr as int),
            decreases self.free@.len() - i,
        {
            if self.free[i].start > addr {
                return i;
            }
            proof {
                lemma_insertion_step(self.free@, addr as int, i as int);
            }
            i = i + 1;
        }
        i
    }

    /// Hands the whole block of the allocation at `ptr` back to the free
    /// list, merging it with the neighbouring free regions it touches, and
    /// returns true; returns false, changing nothing, when no live allocation
    /// sits at `ptr`.
    pub fn deallocate(&mut self, ptr: usize) -> (r: bool)
        requires
            old(self).wf(),
        ensures
            final(self).wf(),
            final(self).start() == old(self).start(),
            final(self).end() == old(self).end(),
            deallocate_post(*old(self), *final(self), ptr as int, r),
    {
        match find_live(&self.live, ptr) {
            None => false,
            Some(k) => {
                let ghost old_free = self.free@;
                let ghost old_live = self.live@;
                let ghost lo = self.heap_start as int;
                let ghost hi = self.heap_end as int;
                let a = self.live[k];
                proof {
                    lemma_live_unique(old_live, old_free, lo, hi, k as int);
                    lemma_release_position(old_free, old_live, lo, hi, k as int);
                    lemma_release_wf(old_free, old_live, lo, hi, k as int);
                }
                let block_addr = a.block_start;
                let block_end = a.block_end;
                let mut total = block_end - block_addr;
                let p = self.insertion_point(block_addr);
                let mut merge_next = false;
                if p < self.free.len() {
                    let next = self.free[p];
                    if next.start == block_end {
                        total = total + next.size;
                        merge_next = true;
                    }
                }
                if merge_next {
                    self.free.remove(p);
                }
                let mut merged = false;
                if p > 0 {
                    let prev = self.free[p - 1];
                    assert(prev == old_free[p - 1]);
                    if prev.end_addr() == block_addr {
                        self.free.set(p - 1, BlockHeader::new(prev.start, prev.size + total));
                        merged = true;
                    }
                }
                if !merged {
                    self.free.insert(p, BlockHeader::new(block_addr, total));
                }
                self.live.remove(k);
                proof {
                    assert(self.free@ =~= release(old_free, a.span_start(), a.span_end()));
                }
                true
            },
        }
    }
}

/// What serving `size` bytes at alignment `align` from `pre` does: `r` is 0
/// and nothing changes when no region fits; else `r` is the address that the
/// first fitting region hands out, that region is split, and the allocation
/// becomes live.
pub open spec fn allocate_post(
    pre: LinkedListAllocator,
    post: LinkedListAllocator,
    size: int,
    align: int,
    r: int,
) -> bool {
    let sz = normalized(size);
    let i = first_fit(pre.blocks(), sz, align);
    if i == pre.blocks().len() {
        &&& r == 0
        &&& post.blocks() == pre.blocks()
        &&& post.allocations() == pre.allocations()
    } else {
        &&& r != 0
        &&& r == alloc_start(pre.blocks()[i], align)
        &&& post.blocks() == split_blocks(pre.blocks(), i, r + sz)
        &&& post.allocations() == pre.allocations().push(
            Allocation {
                ptr: r as usize,
                size: sz as usize,
                block_start: pre.blocks()[i].start,
                block_end: taken_end(pre.blocks()[i], r + sz) as usize,
            },
        )
    }
}

/// What releasing `ptr` from `pre` does: `r` tells whether an allocation was
/// live there; if so its span goes back to the free list, else nothing
/// changes.
pub open spec fn deallocate_post(pre: LinkedListAllocator, post: LinkedListAllocator, ptr: int, r: bool) -> bool {
    &&& r == is_live(pre.allocations(), ptr)
    &&& !r ==> post.blocks() == pre.blocks() && post.allocations() == pre.allocations()
    &&& r ==> ({
        let k = live_index(pre.allocations(), ptr);
        let a = pre.allocations()[k];
        &&& post.allocations() == pre.allocations().remove(k)
        &&& post.blocks() == release(pre.blocks(), a.span_start(), a.span_end())
    })
}

} // verus!
