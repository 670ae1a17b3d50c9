//! The chain of blocks as a sequence, and what allocation and release do to it.
use vstd::prelude::*;

use crate::meta::{next_of, round_up, Meta, CHUNK_SIZE, MAX_BLOCK_SIZE, MAX_CAPACITY, META_SIZE};

verus! {

/// The offset at which block `m` ends in a buffer of `cap` bytes.
pub open spec fn end_of(m: Meta, cap: int) -> int {
    match m.next {
        Some(n) => n as int,
        None => cap,
    }
}

/// A capacity that the header encoding can describe.
pub open spec fn capacity_ok(cap: int) -> bool {
    &&& CHUNK_SIZE <= cap <= MAX_CAPACITY
    &&& cap % (CHUNK_SIZE as int) == 0
}

/// One block on its own is consistent with a buffer of `cap` bytes.
pub open spec fn block_ok(m: Meta, cap: int) -> bool {
    &&& (m.addr as int) % (CHUNK_SIZE as int) == 0
    &&& m.size <= MAX_BLOCK_SIZE
    &&& m.addr + META_SIZE + m.size <= cap
    &&& m.next == next_of(m.addr as int, m.size as int, cap)
    &&& m.free ==> m.addr + META_SIZE + m.size == end_of(m, cap)
}

/// No two neighbouring blocks are both free.
pub open spec fn no_adjacent_free(c: Seq<Meta>) -> bool {
    forall|i: int, j: int|
        0 <= i && j == i + 1 && j < c.len() ==> !(#[trigger] c[i].free && #[trigger] c[j].free)
}

/// Every block is consistent on its own.
pub open spec fn blocks_ok(c: Seq<Meta>, cap: int) -> bool {
    forall|i: int| 0 <= i < c.len() ==> #[trigger] block_ok(c[i], cap)
}

/// Each block but the last leads to the block after it.
pub open spec fn linked_forward(c: Seq<Meta>) -> bool {
    forall|i: int| 0 <= i < c.len() - 1 ==> #[trigger] c[i].next == Some(c[i + 1].addr)
}

/// Each block but the first points back to the block before it.
pub open spec fn linked_backward(c: Seq<Meta>) -> bool {
    forall|i: int| 0 < i < c.len() ==> #[trigger] c[i].prev == Some(c[i - 1].addr)
}

/// The chain of a well-formed arena of `cap` bytes.
pub open spec fn chain_wf(c: Seq<Meta>, cap: int) -> bool {
    &&& capacity_ok(cap)
    &&& c.len() > 0
    &&& c[0].addr == 0
    &&& c[0].prev is None
    &&& c.last().next is None
    &&& blocks_ok(c, cap)
    &&& linked_forward(c)
    &&& linked_backward(c)
    &&& no_adjacent_free(c)
}

/// The blocks' ranges follow one another without gap or overlap from offset
/// zero to `cap`, and each block's header and payload lie inside its range.
pub open spec fn covers(c: Seq<Meta>, cap: int) -> bool {
    &&& c.len() > 0
    &&& c[0].addr == 0
    &&& forall|i: int| 0 <= i < c.len() - 1 ==> end_of(#[trigger] c[i], cap) == c[i + 1].addr
    &&& end_of(c.last(), cap) == cap
    &&& forall|i: int|
        0 <= i < c.len() ==> #[trigger] c[i].addr + META_SIZE + c[i].size <= end_of(c[i], cap)
}

/// Block `m` can hold `size` bytes.
pub open spec fn fits(m: Meta, size: int) -> bool {
    m.free && size <= m.size
}

/// Index of the first block at or after `i` that can hold `size` bytes, or
/// the chain's length when there is none.
pub open spec fn fit_index(c: Seq<Meta>, i: int, size: int) -> int
    decreases c.len() - i,
{
    if i < 0 || i >= c.len() {
        c.len() as int
    } else if fits(c[i], size) {
        i
    } else {
        fit_index(c, i + 1, size)
    }
}

/// The first fit lies between `i` and the chain's end, and it fits.
pub proof fn lemma_fit_index(c: Seq<Meta>, i: int, size: int)
    requires
        0 <= i <= c.len(),
    ensures
        i <= fit_index(c, i, size) <= c.len(),
        fit_index(c, i, size) < c.len() ==> fits(c[fit_index(c, i, size)], size),
        forall|t: int| i <= t < fit_index(c, i, size) ==> !fits(#[trigger] c[t], size),
    decreases c.len() - i,
{
    if i < c.len() && !fits(c[i], size) {
        lemma_fit_index(c, i + 1, size);
    }
}

/// `m` with its predecessor set to `p`.
pub open spec fn with_prev(m: Meta, p: usize) -> Meta {
    Meta { prev: Some(p), ..m }
}

/// Where a block of `size` bytes placed in `b` ends.
pub open spec fn split_point(b: Meta, size: int) -> int {
    round_up(b.addr + META_SIZE + size)
}

/// Placing `size` bytes in `b` leaves at least one chunk for a new free block.
pub open spec fn splits(b: Meta, size: int, cap: int) -> bool {
    end_of(b, cap) - split_point(b, size) >= CHUNK_SIZE
}

/// The used block that placing `size` bytes in `b` produces.
pub open spec fn placed_block(b: Meta, size: int, cap: int) -> Meta {
    if splits(b, size, cap) {
        Meta { free: false, size: size as usize, next: Some(split_point(b, size) as usize), ..b }
    } else {
        Meta { free: false, size: size as usize, ..b }
    }
}

/// The free block that is split off `b` when `size` bytes are placed in it.
pub open spec fn remainder_block(b: Meta, size: int, cap: int) -> Meta {
    let na = split_point(b, size);
    Meta {
        addr: na as usize,
        free: true,
        size: (end_of(b, cap) - na - META_SIZE) as usize,
        prev: Some(b.addr),
        next: b.next,
    }
}

/// The chain after `size` bytes are placed in the free block at index `j`.
pub open spec fn place(c: Seq<Meta>, cap: int, j: int, size: int) -> Seq<Meta> {
    let b = c[j];
    let na = split_point(b, size);
    if splits(b, size, cap) {
        Seq::new(
            (c.len() + 1) as nat,
            |i: int|
                if i < j {
                    c[i]
                } else if i == j {
                    placed_block(b, size, cap)
                } else if i == j + 1 {
                    remainder_block(b, size, cap)
                } else if i == j + 2 {
                    with_prev(c[i - 1], na as usize)
                } else {
                    c[i - 1]
                },
        )
    } else {
        c.update(j, placed_block(b, size, cap))
    }
}

/// The chain after a first-fit allocation of `size` bytes (unchanged when no
/// block can hold them).
pub open spec fn allocate_model(c: Seq<Meta>, cap: int, size: int) -> Seq<Meta> {
    let j = fit_index(c, 0, size);
    if j < c.len() {
        place(c, cap, j, size)
    } else {
        c
    }
}

/// Some used block of the chain starts at `addr`.
pub open spec fn used_at(c: Seq<Meta>, addr: int) -> bool {
    exists|k: int| 0 <= k < c.len() && #[trigger] c[k].addr == addr && !c[k].free
}

/// The index of the block that starts at `addr`.
pub open spec fn index_of(c: Seq<Meta>, addr: int) -> int {
    choose|k: int| 0 <= k < c.len() && #[trigger] c[k].addr == addr
}

/// First index of the run of blocks that releasing block `k` merges.
pub open spec fn merge_lo(c: Seq<Meta>, k: int) -> int {
    if k > 0 && c[k - 1].free {
        k - 1
    } else {
        k
    }
}

/// Last index of the run of blocks that releasing block `k` merges.
pub open spec fn merge_hi(c: Seq<Meta>, k: int) -> int {
    if k + 1 < c.len() && c[k + 1].free {
        k + 1
    } else {
        k
    }
}

/// The free block that releasing block `k` leaves behind.
pub open spec fn merged_block(c: Seq<Meta>, cap: int, k: int) -> Meta {
    let lo = merge_lo(c, k);
    let hi = merge_hi(c, k);
    Meta {
        addr: c[lo].addr,
        free: true,
        size: (end_of(c[hi], cap) - c[lo].addr - META_SIZE) as usize,
        prev: c[lo].prev,
        next: c[hi].next,
    }
}

/// The chain with blocks `lo` to `hi` replaced by the single block `m`.
pub open spec fn merge_run(c: Seq<Meta>, lo: int, hi: int, m: Meta) -> Seq<Meta> {
    let d = hi - lo;
    Seq::new(
        (c.len() - d) as nat,
        |i: int|
            if i < lo {
                c[i]
            } else if i == lo {
                m
            } else if i == lo + 1 {
                with_prev(c[i + d], m.addr)
            } else {
                c[i + d]
            },
    )
}

/// The chain after block `k` is released and merged with free neighbours.
pub open spec fn release(c: Seq<Meta>, cap: int, k: int) -> Seq<Meta> {
    merge_run(c, merge_lo(c, k), merge_hi(c, k), merged_block(c, cap, k))
}

/// The chain after the block at `addr` is released.
pub open spec fn free_model(c: Seq<Meta>, cap: int, addr: int) -> Seq<Meta> {
    release(c, cap, index_of(c, addr))
}

/// Rounding up lands on a chunk boundary less than a chunk above `x`, and
/// leaves a boundary where it is.
pub proof fn lemma_round_up(x: int)
    requires
        x >= 0,
    ensures
        round_up(x) % (CHUNK_SIZE as int) == 0,
        x <= round_up(x) < x + CHUNK_SIZE,
        x % (CHUNK_SIZE as int) == 0 ==> round_up(x) == x,
{
    reveal(round_up);
}

/// Two chunk boundaries less than a chunk apart are the same.
pub proof fn lemma_same_chunk(x: int, y: int)
    requires
        x % (CHUNK_SIZE as int) == 0,
        y % (CHUNK_SIZE as int) == 0,
        x <= y < x + CHUNK_SIZE,
    ensures
        x == y,
{
}

/// Rounding up never passes a chunk boundary at or above `x`.
pub proof fn lemma_round_up_le(x: int, y: int)
    requires
        0 <= x <= y,
        y % (CHUNK_SIZE as int) == 0,
    ensures
        round_up(x) <= y,
{
    reveal(round_up);
}

/// Every block of a well-formed chain ends on a chunk boundary after its
/// header and payload, and no later than the capacity.
pub proof fn lemma_block_end(c: Seq<Meta>, cap: int, i: int)
    requires
        chain_wf(c, cap),
        0 <= i < c.len(),
    ensures
        block_ok(c[i], cap),
        end_of(c[i], cap) % (CHUNK_SIZE as int) == 0,
        end_of(c[i], cap) == round_up(c[i].addr + META_SIZE + c[i].size),
        c[i].addr + META_SIZE + c[i].size <= end_of(c[i], cap) <= cap,
        c[i].addr < end_of(c[i], cap),
        i < c.len() - 1 ==> end_of(c[i], cap) == c[i + 1].addr,
        i == c.len() - 1 ==> end_of(c[i], cap) == cap,
{
    let m = c[i];
    assert(block_ok(m, cap));
    lemma_round_up(m.addr + META_SIZE + m.size);
    lemma_round_up_le(m.addr + META_SIZE + m.size, cap);
    if i < c.len() - 1 {
        assert(c[i].next == Some(c[i + 1].addr));
    }
}

/// Addresses strictly increase along a well-formed chain.
pub proof fn lemma_sorted_pair(c: Seq<Meta>, cap: int, i: int, j: int)
    requires
        chain_wf(c, cap),
        0 <= i < j < c.len(),
    ensures
        c[i].addr < c[j].addr,
        c[i].addr + META_SIZE + c[i].size <= c[j].addr,
    decreases j - i,
{
    lemma_block_end(c, cap, j - 1);
    if i < j - 1 {
        lemma_sorted_pair(c, cap, i, j - 1);
    }
}

/// Addresses strictly increase along a well-formed chain, for every pair.
pub proof fn lemma_sorted(c: Seq<Meta>, cap: int)
    requires
        chain_wf(c, cap),
    ensures
        forall|i: int, j: int|
            0 <= i < j < c.len() ==> #[trigger] c[i].addr < #[trigger] c[j].addr,
{
    assert forall|i: int, j: int| 0 <= i < j < c.len() implies #[trigger] c[i].addr
        < #[trigger] c[j].addr by {
        lemma_sorted_pair(c, cap, i, j);
    }
}

/// In a well-formed chain the block at an address is found by `index_of`.
pub proof fn lemma_index_of(c: Seq<Meta>, cap: int, k: int)
    requires
        chain_wf(c, cap),
        0 <= k < c.len(),
    ensures
        index_of(c, c[k].addr as int) == k,
{
    lemma_sorted(c, cap);
    let k2 = index_of(c, c[k].addr as int);
    assert(0 <= k2 < c.len() && c[k2].addr == c[k].addr);
}

/// A well-formed chain covers the whole buffer.
pub proof fn lemma_chain_covers(c: Seq<Meta>, cap: int)
    requires
        chain_wf(c, cap),
    ensures
        covers(c, cap),
{
    assert forall|i: int| 0 <= i < c.len() - 1 implies end_of(#[trigger] c[i], cap) == c[i
        + 1].addr by {
        lemma_block_end(c, cap, i);
    }
    assert forall|i: int| 0 <= i < c.len() implies #[trigger] c[i].addr + META_SIZE + c[i].size
        <= end_of(c[i], cap) by {
        lemma_block_end(c, cap, i);
    }
    lemma_block_end(c, cap, c.len() - 1);
}

/// Placing a request in a block that can hold it keeps the chain well formed.
pub proof fn lemma_place_wf(c: Seq<Meta>, cap: int, j: int, size: int)
    requires
        chain_wf(c, cap),
        0 <= j < c.len(),
        size >= 0,
        fits(c[j], size),
    ensures
        chain_wf(place(c, cap, j, size), cap),
        place(c, cap, j, size)[j] == placed_block(c[j], size, cap),
        place(c, cap, j, size).len() == c.len() + if splits(c[j], size, cap) { 1int } else { 0int },
{
    let b = c[j];
    lemma_block_end(c, cap, j);
    lemma_round_up(b.addr + META_SIZE + size);
    lemma_round_up_le(b.addr + META_SIZE + size, end_of(b, cap));
    lemma_round_up(end_of(b, cap));
    if j + 1 < c.len() {
        assert(!c[j + 1].free);
    }
    if j > 0 {
        assert(!(c[j - 1].free && c[j].free));
    }
    if splits(b, size, cap) {
        lemma_place_split_wf(c, cap, j, size);
    } else {
        lemma_place_whole_wf(c, cap, j, size);
    }
}

/// `lemma_place_wf` when a free block is split off.
proof fn lemma_place_split_wf(c: Seq<Meta>, cap: int, j: int, size: int)
    requires
        chain_wf(c, cap),
        0 <= j < c.len(),
        size >= 0,
        fits(c[j], size),
        splits(c[j], size, cap),
        split_point(c[j], size) % (CHUNK_SIZE as int) == 0,
        c[j].addr + META_SIZE + size <= split_point(c[j], size),
        end_of(c[j], cap) % (CHUNK_SIZE as int) == 0,
        end_of(c[j], cap) <= cap,
        round_up(end_of(c[j], cap)) == end_of(c[j], cap),
        j + 1 < c.len() ==> !c[j + 1].free,
        j > 0 ==> !c[j - 1].free,
    ensures
        chain_wf(place(c, cap, j, size), cap),
{
    let b = c[j];
    let n = place(c, cap, j, size);
    assert(block_ok(c[j], cap));
    if j + 1 < c.len() {
        assert(c[j].next == Some(c[j + 1].addr));
        assert(block_ok(c[j + 1], cap));
    }
    if j > 0 {
        assert(c[j].prev == Some(c[j - 1].addr));
    }
    assert(block_ok(n[j], cap));
    assert(block_ok(n[j + 1], cap));
    lemma_place_split_blocks(c, cap, j, size);
    lemma_place_split_links(c, cap, j, size);
    lemma_place_split_free(c, cap, j, size);
    if j == c.len() - 1 {
        assert(n.last() == n[j + 1]);
    } else {
        assert(n.last() == n[c.len() as int] && c.last() == c[c.len() - 1]);
    }
}

proof fn lemma_place_split_blocks(c: Seq<Meta>, cap: int, j: int, size: int)
    requires
        blocks_ok(c, cap),
        0 <= j < c.len(),
        splits(c[j], size, cap),
        block_ok(place(c, cap, j, size)[j], cap),
        block_ok(place(c, cap, j, size)[j + 1], cap),
    ensures
        blocks_ok(place(c, cap, j, size), cap),
{
    let n = place(c, cap, j, size);
    assert forall|i: int| 0 <= i < n.len() implies #[trigger] block_ok(n[i], cap) by {
        if i < j {
            assert(block_ok(c[i], cap));
        } else if i > j + 1 {
            assert(block_ok(c[i - 1], cap));
        }
    }
}

proof fn lemma_place_split_links(c: Seq<Meta>, cap: int, j: int, size: int)
    requires
        linked_forward(c),
        linked_backward(c),
        0 <= j < c.len(),
        splits(c[j], size, cap),
    ensures
        linked_forward(place(c, cap, j, size)),
        linked_backward(place(c, cap, j, size)),
{
    let n = place(c, cap, j, size);
    if j + 1 < c.len() {
        assert(c[j].next == Some(c[j + 1].addr));
    }
    assert forall|i: int| 0 <= i < n.len() - 1 implies #[trigger] n[i].next == Some(
        n[i + 1].addr,
    ) by {
        if i < j {
            assert(c[i].next == Some(c[i + 1].addr));
        } else if i > j + 1 {
            assert(c[i - 1].next == Some(c[i].addr));
        }
    }
    assert forall|i: int| 0 < i < n.len() implies #[trigger] n[i].prev == Some(n[i - 1].addr) by {
        if i <= j {
            assert(c[i].prev == Some(c[i - 1].addr));
        } else if i > j + 2 {
            assert(c[i - 1].prev == Some(c[i - 2].addr));
        }
    }
}

proof fn lemma_place_split_free(c: Seq<Meta>, cap: int, j: int, size: int)
    requires
        no_adjacent_free(c),
        0 <= j < c.len(),
        splits(c[j], size, cap),
        j + 1 < c.len() ==> !c[j + 1].free,
        j > 0 ==> !c[j - 1].free,
    ensures
        no_adjacent_free(place(c, cap, j, size)),
{
    let n = place(c, cap, j, size);
    assert forall|i: int, k: int|
        0 <= i && k == i + 1 && k < n.len() implies !(#[trigger] n[i].free
        && #[trigger] n[k].free) by {
        if i < j - 1 {
            assert(!(c[i].free && c[i + 1].free));
        } else if i > j + 1 {
            assert(!(c[i - 1].free && c[i].free));
        }
    }
}

/// `lemma_place_wf` when the request takes the whole block.
proof fn lemma_place_whole_wf(c: Seq<Meta>, cap: int, j: int, size: int)
    requires
        chain_wf(c, cap),
        0 <= j < c.len(),
        size >= 0,
        fits(c[j], size),
        !splits(c[j], size, cap),
        split_point(c[j], size) % (CHUNK_SIZE as int) == 0,
        c[j].addr + META_SIZE + size <= split_point(c[j], size) <= end_of(c[j], cap),
        end_of(c[j], cap) % (CHUNK_SIZE as int) == 0,
        end_of(c[j], cap) <= cap,
    ensures
        chain_wf(place(c, cap, j, size), cap),
{
    let b = c[j];
    let n = place(c, cap, j, size);
    assert(block_ok(c[j], cap));
    lemma_same_chunk(split_point(b, size), end_of(b, cap));
    assert(block_ok(n[j], cap));
    assert forall|i: int| 0 <= i < n.len() implies #[trigger] block_ok(n[i], cap) by {
        if i != j {
            assert(block_ok(c[i], cap));
        }
    }
    assert forall|i: int| 0 <= i < n.len() - 1 implies #[trigger] n[i].next == Some(
        n[i + 1].addr,
    ) by {
        assert(c[i].next == Some(c[i + 1].addr));
    }
    assert forall|i: int| 0 < i < n.len() implies #[trigger] n[i].prev == Some(n[i - 1].addr) by {
        assert(c[i].prev == Some(c[i - 1].addr));
    }
    assert forall|i: int, k: int|
        0 <= i && k == i + 1 && k < n.len() implies !(#[trigger] n[i].free
        && #[trigger] n[k].free) by {
        assert(!(c[i].free && c[k].free));
    }
}

/// The block left by releasing block `k` is consistent on its own.
proof fn lemma_merged_block_ok(c: Seq<Meta>, cap: int, k: int)
    requires
        chain_wf(c, cap),
        0 <= k < c.len(),
    ensures
        block_ok(merged_block(c, cap, k), cap),
        end_of(merged_block(c, cap, k), cap) == end_of(c[merge_hi(c, k)], cap),
{
    let lo = merge_lo(c, k);
    let hi = merge_hi(c, k);
    let m = merged_block(c, cap, k);
    let end = end_of(c[hi], cap);
    lemma_block_end(c, cap, hi);
    lemma_block_end(c, cap, lo);
    lemma_round_up(end);
    if lo < hi {
        lemma_sorted_pair(c, cap, lo, hi);
    }
    if hi < c.len() - 1 {
        assert(block_ok(c[hi + 1], cap));
    }
    assert(c[lo].addr <= c[hi].addr);
    assert(m.addr + META_SIZE + m.size == end);
    assert(m.next == next_of(m.addr as int, m.size as int, cap));
}

/// Releasing a used block keeps the chain well formed.
pub proof fn lemma_release_wf(c: Seq<Meta>, cap: int, k: int)
    requires
        chain_wf(c, cap),
        0 <= k < c.len(),
        !c[k].free,
    ensures
        chain_wf(release(c, cap, k), cap),
        release(c, cap, k)[merge_lo(c, k)] == merged_block(c, cap, k),
        0 <= merge_lo(c, k) < release(c, cap, k).len(),
{
    let lo = merge_lo(c, k);
    let hi = merge_hi(c, k);
    lemma_merged_block_ok(c, cap, k);
    if lo > 0 {
        assert(!c[lo - 1].free) by {
            if lo == k - 1 {
                assert(!(c[lo - 1].free && c[lo].free));
            }
        }
    }
    if hi + 1 < c.len() {
        assert(!c[hi + 1].free) by {
            if hi == k + 1 {
                assert(!(c[hi].free && c[hi + 1].free));
            }
        }
    }
    lemma_merge_run_wf(c, cap, lo, hi, merged_block(c, cap, k));
}

/// Replacing a run of blocks by one free block that spans them, with used
/// blocks on either side, keeps the chain well formed.
proof fn lemma_merge_run_wf(c: Seq<Meta>, cap: int, lo: int, hi: int, m: Meta)
    requires
        chain_wf(c, cap),
        0 <= lo <= hi < c.len(),
        block_ok(m, cap),
        m.free,
        m.addr == c[lo].addr,
        m.prev == c[lo].prev,
        m.next == c[hi].next,
        lo > 0 ==> !c[lo - 1].free,
        hi + 1 < c.len() ==> !c[hi + 1].free,
    ensures
        chain_wf(merge_run(c, lo, hi, m), cap),
{
    let d = hi - lo;
    let n = merge_run(c, lo, hi, m);
    if lo > 0 {
        assert(c[lo].prev == Some(c[lo - 1].addr));
    }
    lemma_merge_run_blocks(c, cap, lo, hi, m);
    lemma_merge_run_links(c, lo, hi, m);
    lemma_merge_run_free(c, lo, hi, m);
    if hi == c.len() - 1 {
        assert(n.last() == n[lo]);
    } else {
        assert(n.last() == n[c.len() - d - 1] && c.last() == c[c.len() - 1]);
    }
}

proof fn lemma_merge_run_blocks(c: Seq<Meta>, cap: int, lo: int, hi: int, m: Meta)
    requires
        blocks_ok(c, cap),
        0 <= lo <= hi < c.len(),
        block_ok(m, cap),
    ensures
        blocks_ok(merge_run(c, lo, hi, m), cap),
{
    let d = hi - lo;
    let n = merge_run(c, lo, hi, m);
    assert forall|i: int| 0 <= i < n.len() implies #[trigger] block_ok(n[i], cap) by {
        if i < lo {
            assert(block_ok(c[i], cap));
        } else if i > lo {
            assert(block_ok(c[i + d], cap));
        }
    }
}

proof fn lemma_merge_run_links(c: Seq<Meta>, lo: int, hi: int, m: Meta)
    requires
        linked_forward(c),
        linked_backward(c),
        0 <= lo <= hi < c.len(),
        m.addr == c[lo].addr,
        m.prev == c[lo].prev,
        m.next == c[hi].next,
    ensures
        linked_forward(merge_run(c, lo, hi, m)),
        linked_backward(merge_run(c, lo, hi, m)),
{
    let d = hi - lo;
    let n = merge_run(c, lo, hi, m);
    if lo > 0 {
        assert(c[lo - 1].next == Some(c[lo].addr));
        assert(c[lo].prev == Some(c[lo - 1].addr));
    }
    if hi + 1 < c.len() {
        assert(c[hi].next == Some(c[hi + 1].addr));
    }
    assert forall|i: int| 0 <= i < n.len() - 1 implies #[trigger] n[i].next == Some(
        n[i + 1].addr,
    ) by {
        if i < lo {
            assert(c[i].next == Some(c[i + 1].addr));
        } else if i > lo {
            assert(c[i + d].next == Some(c[i + d + 1].addr));
        }
    }
    assert forall|i: int| 0 < i < n.len() implies #[trigger] n[i].prev == Some(n[i - 1].addr) by {
        if i < lo {
            assert(c[i].prev == Some(c[i - 1].addr));
        } else if i > lo + 1 {
            assert(c[i + d].prev == Some(c[i + d - 1].addr));
        }
    }
}

proof fn lemma_merge_run_free(c: Seq<Meta>, lo: int, hi: int, m: Meta)
    requires
        no_adjacent_free(c),
        0 <= lo <= hi < c.len(),
        lo > 0 ==> !c[lo - 1].free,
        hi + 1 < c.len() ==> !c[hi + 1].free,
    ensures
        no_adjacent_free(merge_run(c, lo, hi, m)),
{
    let d = hi - lo;
    let n = merge_run(c, lo, hi, m);
    assert forall|i: int, j: int|
        0 <= i && j == i + 1 && j < n.len() implies !(#[trigger] n[i].free
        && #[trigger] n[j].free) by {
        if i < lo - 1 {
            assert(!(c[i].free && c[i + 1].free));
        } else if i > lo {
            assert(!(c[i + d].free && c[i + d + 1].free));
        }
    }
}

/// Placing a request in the first block that fits and then releasing that
/// block gives back the chain as it was.
pub proof fn lemma_place_release(c: Seq<Meta>, cap: int, j: int, size: int)
    requires
        chain_wf(c, cap),
        0 <= j < c.len(),
        size >= 0,
        fits(c[j], size),
    ensures
        index_of(place(c, cap, j, size), c[j].addr as int) == j,
        release(place(c, cap, j, size), cap, j) == c,
{
    let b = c[j];
    let p = place(c, cap, j, size);
    lemma_place_wf(c, cap, j, size);
    lemma_index_of(p, cap, j);
    lemma_block_end(c, cap, j);
    if j > 0 {
        assert(!(c[j - 1].free && c[j].free));
    }
    if j + 1 < c.len() {
        assert(!(c[j].free && c[j + 1].free));
        assert(c[j + 1].prev == Some(c[j].addr));
    }
    let hi = merge_hi(p, j);
    let d = hi - j;
    assert(merge_lo(p, j) == j);
    if splits(b, size, cap) {
        assert(hi == j + 1);
    } else {
        assert(hi == j);
    }
    assert(end_of(p[hi], cap) == end_of(b, cap));
    assert(merged_block(p, cap, j) == b);
    let r = release(p, cap, j);
    assert(r.len() == c.len());
    assert forall|i: int| 0 <= i < c.len() implies #[trigger] r[i] == c[i] by {
        if i == j + 1 {
            assert(r[i] == with_prev(p[i + d], b.addr));
        }
    }
    assert(r =~= c);
}

} // verus!
