//! The arena: a byte buffer holding a chain of self-describing blocks.
use vstd::prelude::*;

use crate::chain::{
    allocate_model, block_ok, capacity_ok, chain_wf, covers, end_of, fit_index, fits, free_model,
    index_of, lemma_block_end, lemma_chain_covers, lemma_fit_index, lemma_index_of,
    lemma_place_release, lemma_place_wf, lemma_release_wf, lemma_round_up, lemma_round_up_le,
    lemma_same_chunk, lemma_sorted_pair, merge_hi, merge_lo, merge_run, merged_block, no_adjacent_free, place,
    placed_block, remainder_block, split_point, splits, used_at, with_prev,
};
use crate::meta::{
    decode, flag_size_byte, header_at, lemma_byte_bits, lemma_flag_size_round_trip,
    lemma_pack_bits, round_up,
    write_header, Meta, CHUNK_SIZE, MAX_BLOCK_SIZE, MAX_CAPACITY, META_SIZE,
};

verus! {

/// No free block can hold the requested size.
#[derive(Clone, Copy, Debug, PartialEq, Eq)]
pub struct OutOfSpace;

/// Every block of `c` has its header in `bytes`.
pub open spec fn headers_ok(bytes: Seq<u8>, c: Seq<Meta>) -> bool {
    forall|i: int| 0 <= i < c.len() ==> #[trigger] header_at(bytes, c[i])
}

/// The buffer of a new arena of `size` bytes: zeroed but for the header of
/// the one free block (whose predecessor byte is zero).
pub open spec fn fresh_bytes(size: int) -> Seq<u8> {
    Seq::new(size as nat, |i: int| if i == 0 { flag_size_byte(true, size - META_SIZE) } else { 0u8 })
}

/// Offset `i` is one of the two header bytes of a block at `addr`.
pub open spec fn in_header(addr: int, i: int) -> bool {
    i == addr || i == addr + 1
}

/// Offset `i` may be written when `size` bytes are placed in block `b`: the
/// placed block's header and, on a split, the new free block's header and
/// the predecessor byte of the block after it.
pub open spec fn allocate_writes(b: Meta, size: int, cap: int, i: int) -> bool {
    ||| in_header(b.addr as int, i)
    ||| splits(b, size, cap) && in_header(split_point(b, size), i)
    ||| splits(b, size, cap) && (b.next matches Some(n) && i == n + 1)
}

/// Offset `i` may be written when a release leaves the free block `m`: its
/// header and the predecessor byte of the block after it.
pub open spec fn free_writes(m: Meta, i: int) -> bool {
    ||| in_header(m.addr as int, i)
    ||| m.next matches Some(n) && i == n + 1
}

/// A fixed-capacity arena of blocks with inline headers.
pub struct Stack {
    stack: Vec<u8>,
    chain: Ghost<Seq<Meta>>,
}

impl View for Stack {
    type V = Seq<Meta>;

    /// The blocks in address order.
    closed spec fn view(&self) -> Seq<Meta> {
        self.chain@
    }
}

/// The header of the `k`th block of a well-formed chain decodes to it.
proof fn lemma_decode_block(bytes: Seq<u8>, c: Seq<Meta>, k: int)
    requires
        chain_wf(c, bytes.len() as int),
        headers_ok(bytes, c),
        0 <= k < c.len(),
    ensures
        decode(bytes, c[k].addr as int) == c[k],
{
    let m = c[k];
    assert(header_at(bytes, m));
    assert(block_ok(m, bytes.len() as int));
    lemma_flag_size_round_trip(m.free, m.size as int);
    if k > 0 {
        assert(m.prev == Some(c[k - 1].addr));
        lemma_sorted_pair(c, bytes.len() as int, k - 1, k);
    }
}

/// A header written elsewhere leaves the header of `m` in place.
proof fn lemma_header_kept(bytes: Seq<u8>, m: Meta, w: Meta)
    requires
        header_at(bytes, m),
        w.addr + 1 < bytes.len(),
        m.addr + 1 < w.addr || w.addr + 1 < m.addr,
    ensures
        header_at(write_header(bytes, w), m),
{
}

/// A header written away from every block of `c` leaves all their headers in place.
proof fn lemma_headers_kept(bytes: Seq<u8>, c: Seq<Meta>, w: Meta)
    requires
        headers_ok(bytes, c),
        w.addr + 1 < bytes.len(),
        forall|i: int|
            0 <= i < c.len() ==> #[trigger] c[i].addr + 1 < w.addr || w.addr + 1 < c[i].addr,
    ensures
        headers_ok(write_header(bytes, w), c),
{
    assert forall|i: int| 0 <= i < c.len() implies #[trigger] header_at(
        write_header(bytes, w),
        c[i],
    ) by {
        assert(header_at(bytes, c[i]));
        lemma_header_kept(bytes, c[i], w);
    }
}

/// The headers that a split placement writes describe the new chain.
proof fn lemma_split_headers(
    b0: Seq<u8>,
    b2: Seq<u8>,
    b3: Seq<u8>,
    c: Seq<Meta>,
    j: int,
    size: int,
)
    requires
        chain_wf(c, b0.len() as int),
        headers_ok(b0, c),
        0 <= j < c.len(),
        0 <= size,
        fits(c[j], size),
        splits(c[j], size, b0.len() as int),
        split_point(c[j], size) >= c[j].addr + META_SIZE + size,
        end_of(c[j], b0.len() as int) <= b0.len(),
        b2 == (if j + 1 < c.len() {
            write_header(
                write_header(b0, remainder_block(c[j], size, b0.len() as int)),
                with_prev(c[j + 1], split_point(c[j], size) as usize),
            )
        } else {
            write_header(b0, remainder_block(c[j], size, b0.len() as int))
        }),
        b3 == write_header(b2, placed_block(c[j], size, b0.len() as int)),
    ensures
        headers_ok(b3, place(c, b0.len() as int, j, size)),
{
    let cap = b0.len() as int;
    let n = place(c, cap, j, size);
    let na = split_point(c[j], size);
    let rest = remainder_block(c[j], size, cap);
    let used = placed_block(c[j], size, cap);
    let b1 = write_header(b0, rest);
    lemma_block_end(c, cap, j);
    assert(header_at(b1, rest));
    if j + 1 < c.len() {
        lemma_block_end(c, cap, j + 1);
        lemma_header_kept(b1, rest, with_prev(c[j + 1], na as usize));
    }
    assert(header_at(b2, rest));
    assert forall|i: int| 0 <= i < n.len() implies #[trigger] header_at(b3, n[i]) by {
        if i < j {
            lemma_sorted_pair(c, cap, i, j);
            assert(header_at(b0, c[i]));
            lemma_header_kept(b0, c[i], rest);
            if j + 1 < c.len() {
                lemma_header_kept(b1, c[i], with_prev(c[j + 1], na as usize));
            }
            lemma_header_kept(b2, c[i], used);
        } else if i == j + 1 {
            lemma_header_kept(b2, rest, used);
        } else if i == j + 2 {
            lemma_header_kept(b2, n[i], used);
        } else if i > j + 2 {
            lemma_sorted_pair(c, cap, j + 1, i - 1);
            lemma_sorted_pair(c, cap, j, i - 1);
            assert(header_at(b0, c[i - 1]));
            lemma_header_kept(b0, c[i - 1], rest);
            lemma_header_kept(b1, c[i - 1], with_prev(c[j + 1], na as usize));
            lemma_header_kept(b2, c[i - 1], used);
        }
    }
}

/// A release changes no byte but the merged block's header and the
/// predecessor byte of the block after it.
proof fn lemma_release_frame(b0: Seq<u8>, b1: Seq<u8>, b2: Seq<u8>, c: Seq<Meta>, k: int)
    requires
        chain_wf(c, b0.len() as int),
        headers_ok(b0, c),
        0 <= k < c.len(),
        b1 == (if merge_hi(c, k) + 1 < c.len() {
            write_header(
                b0,
                with_prev(c[merge_hi(c, k) + 1], c[merge_lo(c, k)].addr),
            )
        } else {
            b0
        }),
        b2 == write_header(b1, merged_block(c, b0.len() as int, k)),
    ensures
        forall|i: int|
            0 <= i < b0.len() && !free_writes(merged_block(c, b0.len() as int, k), i)
                ==> #[trigger] b2[i] == b0[i],
{
    let cap = b0.len() as int;
    let hi = merge_hi(c, k);
    lemma_block_end(c, cap, merge_lo(c, k));
    if hi + 1 < c.len() {
        assert(c[hi].next == Some(c[hi + 1].addr));
        assert(header_at(b0, c[hi + 1]));
        lemma_block_end(c, cap, hi + 1);
    } else {
        lemma_block_end(c, cap, hi);
    }
}

/// The headers that a release writes describe the new chain.
proof fn lemma_release_headers(b0: Seq<u8>, b1: Seq<u8>, b2: Seq<u8>, c: Seq<Meta>, k: int)
    requires
        chain_wf(c, b0.len() as int),
        headers_ok(b0, c),
        0 <= k < c.len(),
        b1 == (if merge_hi(c, k) + 1 < c.len() {
            write_header(
                b0,
                with_prev(c[merge_hi(c, k) + 1], c[merge_lo(c, k)].addr),
            )
        } else {
            b0
        }),
        b2 == write_header(b1, merged_block(c, b0.len() as int, k)),
    ensures
        headers_ok(b2, merge_run(c, merge_lo(c, k), merge_hi(c, k), merged_block(c, b0.len() as int, k))),
{
    let cap = b0.len() as int;
    let lo = merge_lo(c, k);
    let hi = merge_hi(c, k);
    let d = hi - lo;
    let m = merged_block(c, cap, k);
    let n = merge_run(c, lo, hi, m);
    lemma_block_end(c, cap, lo);
    if hi + 1 < c.len() {
        lemma_sorted_pair(c, cap, lo, hi + 1);
        lemma_block_end(c, cap, hi + 1);
    }
    assert forall|i: int| 0 <= i < n.len() implies #[trigger] header_at(b2, n[i]) by {
        if i < lo {
            lemma_sorted_pair(c, cap, i, lo);
            assert(header_at(b0, c[i]));
            if hi + 1 < c.len() {
                lemma_sorted_pair(c, cap, i, hi + 1);
                lemma_header_kept(b0, c[i], with_prev(c[hi + 1], c[lo].addr));
            }
            lemma_header_kept(b1, c[i], m);
        } else if i == lo + 1 {
            lemma_header_kept(b1, n[i], m);
        } else if i > lo + 1 {
            lemma_sorted_pair(c, cap, hi + 1, i + d);
            lemma_sorted_pair(c, cap, lo, i + d);
            assert(header_at(b0, c[i + d]));
            lemma_header_kept(b0, c[i + d], with_prev(c[hi + 1], c[lo].addr));
            lemma_header_kept(b1, c[i + d], m);
        }
    }
}

impl Stack {
    /// Size of the buffer in bytes.
    pub open spec fn capacity(&self) -> int {
        self.bytes().len() as int
    }

    /// The raw contents of the buffer.
    pub closed spec fn bytes(&self) -> Seq<u8> {
        self.stack@
    }

    /// The buffer holds a well-formed chain of blocks whose headers are in place.
    pub closed spec fn wf(&self) -> bool {
        &&& chain_wf(self.chain@, self.stack@.len() as int)
        &&& headers_ok(self.stack@, self.chain@)
    }

    /// An arena of `size` bytes holding one free block that spans it.
    pub fn new(size: usize) -> (s: Stack)
        requires
            capacity_ok(size as int),
        ensures
            s.wf(),
            s.capacity() == size,
            s@ == seq![Meta { addr: 0, free: true, size: (size - META_SIZE) as usize, prev: None, next: None }],
            s.bytes() == fresh_bytes(size as int),
    {
        let mut stack = Stack { stack: vec![0u8; size], chain: Ghost(Seq::empty()) };
        let m = Meta { addr: 0, free: true, prev: None, next: None, size: size - META_SIZE };
        stack.write_meta(&m);
        stack.chain = Ghost(Seq::empty().push(m));
        proof {
            lemma_round_up(size as int);
            assert(header_at(stack.stack@, stack.chain@[0]));
            assert(stack.stack@ =~= fresh_bytes(size as int));
        }
        stack
    }

    /// An arena of `size` bytes, or `None` when the header encoding cannot
    /// describe that capacity.
    pub fn try_new(size: usize) -> (r: Option<Stack>)
        ensures
            r is Some <==> capacity_ok(size as int),
            r matches Some(s) ==> {
                &&& s.wf()
                &&& s.capacity() == size
                &&& s@ == seq![Meta { addr: 0, free: true, size: (size - META_SIZE) as usize, prev: None, next: None }]
                &&& s.bytes() == fresh_bytes(size as int)
            },
    {
        if CHUNK_SIZE <= size && size <= MAX_CAPACITY && size % CHUNK_SIZE == 0 {
            Some(Stack::new(size))
        } else {
            None
        }
    }

    /// Whether a used block starts at `addr`.
    pub fn is_used_block(&self, addr: usize) -> (r: bool)
        requires
            self.wf(),
        ensures
            r == used_at(self@, addr as int),
    {
        let blocks = self.collect();
        let mut i: usize = 0;
        while i < blocks.len()
            invariant
                blocks@ == self@,
                i <= blocks.len(),
                forall|t: int| 0 <= t < i ==> !(#[trigger] blocks@[t].addr == addr && !blocks@[t].free),
            decreases blocks.len() - i,
        {
            if blocks[i].addr == addr && !blocks[i].free {
                return true;
            }
            i = i + 1;
        }
        false
    }

    /// `size` rounded up to a whole number of chunks.
    pub fn ceil(&self, size: usize) -> (r: usize)
        requires
            size <= usize::MAX - CHUNK_SIZE,
        ensures
            r == round_up(size as int),
    {
        reveal(round_up);
        let rem = size % CHUNK_SIZE;
        if rem == 0 {
            size
        } else {
            size - rem + CHUNK_SIZE
        }
    }

    /// Decodes the header at `addr`.
    pub fn read_meta(&self, addr: usize) -> (r: Meta)
        requires
            capacity_ok(self.capacity()),
            addr + 1 < self.capacity(),
        ensures
            r == decode(self.bytes(), addr as int),
    {
        let first = self.stack[addr];
        let free = first & 1 == 1;
        let size = (first >> 1) as usize;
        proof {
            lemma_byte_bits(first);
        }
        let prev = self.stack[addr + 1] as usize;
        let prev = if prev < addr {
            Some(prev)
        } else {
            None
        };
        let next = self.ceil(addr + META_SIZE + size);
        let next = if addr < next && next < self.stack.len() {
            Some(next)
        } else {
            None
        };
        Meta { addr, free, size, prev, next }
    }

    /// Writes the header of `meta` at its address; the successor offset is
    /// not stored.
    pub fn write_meta(&mut self, meta: &Meta)
        requires
            capacity_ok(old(self).capacity()),
            meta.addr + 1 < old(self).capacity(),
            meta.size <= MAX_BLOCK_SIZE,
            meta.prev matches Some(p) ==> p <= u8::MAX,
        ensures
            final(self).bytes() == write_header(old(self).bytes(), *meta),
            final(self).capacity() == old(self).capacity(),
            final(self)@ == old(self)@,
    {
        proof {
            lemma_pack_bits(meta.size as u8, meta.free);
        }
        self.stack.set(meta.addr, ((meta.size as u8) << 1u8) | (meta.free as u8));
        let prev: u8 = match meta.prev {
            Some(p) => p as u8,
            None => 0,
        };
        self.stack.set(meta.addr + 1, prev);
    }

    /// The first block, from the block at `addr` on, that is free and holds
    /// at least `size` bytes.
    pub fn find_free(&self, size: usize, addr: usize) -> (r: Result<Meta, OutOfSpace>)
        requires
            self.wf(),
            exists|k: int| 0 <= k < self@.len() && #[trigger] self@[k].addr == addr,
        ensures
            ({
                let j = fit_index(self@, index_of(self@, addr as int), size as int);
                if j < self@.len() {
                    r == Ok::<Meta, OutOfSpace>(self@[j])
                } else {
                    r == Err::<Meta, OutOfSpace>(OutOfSpace)
                }
            }),
    {
        let ghost c = self@;
        let ghost cap = self.capacity();
        let ghost k0 = index_of(c, addr as int);
        let ghost mut k = k0;
        let mut cur = addr;
        loop
            invariant
                self.wf(),
                c == self@,
                cap == self.capacity(),
                k0 == index_of(c, addr as int),
                0 <= k < c.len(),
                c[k].addr == cur,
                fit_index(c, k0, size as int) == fit_index(c, k, size as int),
            decreases c.len() - k,
        {
            proof {
                lemma_decode_block(self.stack@, c, k);
                assert(block_ok(c[k], cap));
            }
            let meta = self.read_meta(cur);
            if meta.free && size <= meta.size {
                assert(fits(c[k], size as int));
                return Ok(meta);
            }
            assert(!fits(c[k], size as int));
            match meta.next {
                Some(n) => {
                    proof {
                        assert(c[k].next == Some(c[k + 1].addr));
                        k = k + 1;
                    }
                    cur = n;
                },
                None => {
                    proof {
                        if k < c.len() - 1 {
                            assert(c[k].next == Some(c[k + 1].addr));
                        }
                        assert(fit_index(c, k + 1, size as int) == c.len());
                    }
                    return Err(OutOfSpace);
                },
            }
        }
    }

    /// All blocks, in address order from offset zero.
    pub fn collect(&self) -> (r: Vec<Meta>)
        requires
            self.wf(),
        ensures
            r@ == self@,
    {
        let ghost c = self@;
        let ghost cap = self.capacity();
        proof {
            lemma_decode_block(self.stack@, c, 0);
        }
        let meta = self.read_meta(0);
        let mut next = meta.next;
        let mut res = vec![meta];
        let ghost mut k: int = 0;
        while next.is_some()
            invariant
                self.wf(),
                c == self@,
                cap == self.capacity(),
                0 <= k < c.len(),
                next == c[k].next,
                res@ == c.take(k + 1),
            decreases c.len() - k,
        {
            proof {
                if k == c.len() - 1 {
                    assert(c.last() == c[k]);
                }
                assert(c[k].next == Some(c[k + 1].addr));
                lemma_decode_block(self.stack@, c, k + 1);
                lemma_block_end(c, cap, k + 1);
            }
            let addr = next.unwrap();
            let meta = self.read_meta(addr);
            next = meta.next;
            res.push(meta);
            proof {
                k = k + 1;
                assert(res@ =~= c.take(k + 1));
            }
        }
        proof {
            if k < c.len() - 1 {
                assert(c[k].next == Some(c[k + 1].addr));
            }
            assert(c.take(k + 1) =~= c);
        }
        res
    }

    /// Places `size` bytes in the first free block that can hold them,
    /// splitting off the rest of that block when at least a chunk is left.
    #[verifier::rlimit(40)]
    pub fn allocate(&mut self, size: usize) -> (r: Result<Meta, OutOfSpace>)
        requires
            old(self).wf(),
        ensures
            final(self).wf(),
            final(self).capacity() == old(self).capacity(),
            final(self)@ == allocate_model(old(self)@, old(self).capacity(), size as int),
            r is Err <==> forall|i: int|
                0 <= i < old(self)@.len() ==> !fits(#[trigger] old(self)@[i], size as int),
            ({
                let c = old(self)@;
                let j = fit_index(c, 0, size as int);
                if j < c.len() {
                    &&& r == Ok::<Meta, OutOfSpace>(
                        placed_block(c[j], size as int, old(self).capacity()),
                    )
                    &&& final(self)@[j] == placed_block(c[j], size as int, old(self).capacity())
                    &&& forall|i: int|
                        0 <= i < old(self).capacity() && !allocate_writes(
                            c[j],
                            size as int,
                            old(self).capacity(),
                            i,
                        ) ==> #[trigger] final(self).bytes()[i] == old(self).bytes()[i]
                } else {
                    &&& r == Err::<Meta, OutOfSpace>(OutOfSpace)
                    &&& *final(self) == *old(self)
                }
            }),
    {
        let ghost c = self@;
        let ghost cap = self.capacity();
        let ghost j = fit_index(c, 0, size as int);
        proof {
            lemma_index_of(c, cap, 0);
            lemma_fit_index(c, 0, size as int);
        }
        let found = match self.find_free(size, 0) {
            Ok(m) => m,
            Err(e) => {
                return Err(e);
            },
        };
        let ghost b0 = self.stack@;
        proof {
            lemma_block_end(c, cap, j);
            lemma_round_up(found.addr + META_SIZE + size);
            lemma_round_up_le(found.addr + META_SIZE + size, end_of(found, cap));
            lemma_place_wf(c, cap, j, size as int);
        }
        let limit = match found.next {
            Some(n) => n,
            None => self.stack.len(),
        };
        let next_addr = self.ceil(found.addr + META_SIZE + size);
        if limit - next_addr >= CHUNK_SIZE {
            let rest = Meta {
                addr: next_addr,
                free: true,
                size: limit - next_addr - META_SIZE,
                prev: Some(found.addr),
                next: found.next,
            };
            proof {
                assert(rest == remainder_block(found, size as int, cap));
                assert forall|i: int| 0 <= i < c.len() implies #[trigger] c[i].addr + 1 < rest.addr
                    || rest.addr + 1 < c[i].addr by {
                    if i < j {
                        lemma_sorted_pair(c, cap, i, j);
                    } else if i > j {
                        assert(c[j].next == Some(c[j + 1].addr));
                        if i > j + 1 {
                            lemma_sorted_pair(c, cap, j + 1, i);
                        }
                    }
                }
                if j + 1 < c.len() {
                    assert(c[j].next == Some(c[j + 1].addr));
                }
                lemma_headers_kept(b0, c, rest);
            }
            self.write_meta(&rest);
            if let Some(n) = found.next {
                proof {
                    assert(c[j].next == Some(c[j + 1].addr));
                    lemma_decode_block(self.stack@, c, j + 1);
                    lemma_block_end(c, cap, j + 1);
                }
                let succ = self.read_meta(n);
                let succ = Meta { prev: Some(next_addr), ..succ };
                let ghost b1 = self.stack@;
                self.write_meta(&succ);
                proof {
                    assert(header_at(b1, c[j + 1]));
                    assert(self.stack@[n as int] == b1[n as int]);
                }
            }
            let used = Meta {
                addr: found.addr,
                free: false,
                size,
                prev: found.prev,
                next: Some(next_addr),
            };
            proof {
                if j > 0 {
                    assert(c[j].prev == Some(c[j - 1].addr));
                    lemma_block_end(c, cap, j - 1);
                }
            }
            let ghost b2 = self.stack@;
            self.write_meta(&used);
            proof {
                lemma_split_headers(b0, b2, self.stack@, c, j, size as int);
                if j + 1 < c.len() {
                    assert(c[j].next == Some(c[j + 1].addr));
                    assert(header_at(b0, c[j + 1]));
                    lemma_block_end(c, cap, j + 1);
                }
                assert forall|i: int|
                    0 <= i < cap && !allocate_writes(c[j], size as int, cap, i) implies #[trigger] self.stack@[i]
                        == b0[i] by {}
            }
            self.chain = Ghost(place(c, cap, j, size as int));
            Ok(used)
        } else {
            let used = Meta { free: false, size, ..found };
            proof {
                if j > 0 {
                    assert(c[j].prev == Some(c[j - 1].addr));
                    lemma_block_end(c, cap, j - 1);
                }
            }
            self.write_meta(&used);
            proof {
                let n = place(c, cap, j, size as int);
                assert forall|i: int| 0 <= i < n.len() implies #[trigger] header_at(
                    self.stack@,
                    n[i],
                ) by {
                    if i != j {
                        if i < j {
                            lemma_sorted_pair(c, cap, i, j);
                        } else {
                            lemma_sorted_pair(c, cap, j, i);
                        }
                        assert(header_at(b0, c[i]));
                        lemma_header_kept(b0, c[i], used);
                    }
                }
            }
            self.chain = Ghost(place(c, cap, j, size as int));
            Ok(used)
        }
    }

    /// Releases the used block at `meta.addr`, merging it with a free
    /// neighbour on either side, and returns the free block that results.
    ///
    /// Only the address of `meta` is used: the block's header is decoded
    /// afresh, so a snapshot whose back-link has since changed still works.
    /// The freed block reclaims its whole footprint up to its successor.
    #[verifier::rlimit(40)]
    pub fn free(&mut self, meta: Meta) -> (r: Meta)
        requires
            old(self).wf(),
            used_at(old(self)@, meta.addr as int),
        ensures
            final(self).wf(),
            final(self).capacity() == old(self).capacity(),
            final(self)@ == free_model(old(self)@, old(self).capacity(), meta.addr as int),
            r == merged_block(old(self)@, old(self).capacity(), index_of(old(self)@, meta.addr as int)),
            no_adjacent_free(final(self)@),
            forall|i: int|
                0 <= i < old(self).capacity() && !free_writes(r, i)
                    ==> #[trigger] final(self).bytes()[i] == old(self).bytes()[i],
    {
        let ghost c = self@;
        let ghost cap = self.capacity();
        let ghost b0 = self.stack@;
        let ghost k = index_of(c, meta.addr as int);
        let ghost lo = merge_lo(c, k);
        let ghost hi = merge_hi(c, k);
        proof {
            let k1 = choose|k1: int| 0 <= k1 < c.len() && #[trigger] c[k1].addr == meta.addr && !c[k1].free;
            lemma_index_of(c, cap, k1);
            lemma_decode_block(b0, c, k);
            lemma_block_end(c, cap, k);
            lemma_round_up(c[k].addr + META_SIZE + c[k].size);
            lemma_release_wf(c, cap, k);
        }
        let mut m = self.read_meta(meta.addr);
        m.free = true;
        m.size = self.ceil(m.addr + META_SIZE + m.size) - m.addr - META_SIZE;
        if let Some(prev) = m.prev {
            proof {
                assert(c[k].prev == Some(c[k - 1].addr));
                lemma_decode_block(b0, c, k - 1);
                lemma_block_end(c, cap, k - 1);
            }
            let p = self.read_meta(prev);
            if p.free {
                m.size = m.size + (m.addr - p.addr);
                m.addr = p.addr;
                m.prev = p.prev;
            }
        }
        proof {
            if k > 0 {
                assert(c[k].prev == Some(c[k - 1].addr));
            }
            assert(m.addr == c[lo].addr && m.prev == c[lo].prev);
            assert(m.addr + META_SIZE + m.size == end_of(c[k], cap));
        }
        if let Some(next) = m.next {
            proof {
                assert(c[k].next == Some(c[k + 1].addr));
                lemma_decode_block(b0, c, k + 1);
                lemma_block_end(c, cap, k + 1);
            }
            let mut nx = self.read_meta(next);
            if nx.free {
                m.size = m.size + META_SIZE + nx.size;
                m.next = nx.next;
                if let Some(nn) = nx.next {
                    proof {
                        assert(c[k + 1].next == Some(c[k + 2].addr));
                        lemma_decode_block(b0, c, k + 2);
                        lemma_block_end(c, cap, k + 2);
                    }
                    let mut x = self.read_meta(nn);
                    x.prev = Some(m.addr);
                    self.write_meta(&x);
                }
            } else {
                nx.prev = Some(m.addr);
                self.write_meta(&nx);
            }
        }
        proof {
            if k + 1 < c.len() {
                assert(c[k].next == Some(c[k + 1].addr));
            }
            assert(m == merged_block(c, cap, k));
        }
        let ghost b1 = self.stack@;
        self.write_meta(&m);
        proof {
            lemma_release_headers(b0, b1, self.stack@, c, k);
            lemma_release_frame(b0, b1, self.stack@, c, k);
        }
        self.chain = Ghost(merge_run(c, lo, hi, m));
        m
    }
}

/// Every arena reachable through this interface holds a well-formed chain
/// whose blocks follow one another without gap or overlap from offset zero
/// to the capacity.
pub proof fn lemma_coverage(s: &Stack)
    requires
        s.wf(),
    ensures
        chain_wf(s@, s.capacity()),
        covers(s@, s.capacity()),
{
    lemma_chain_covers(s@, s.capacity());
}

/// In a well-formed arena the header of each block decodes to that block.
pub proof fn lemma_read_block(s: &Stack, k: int)
    requires
        s.wf(),
        0 <= k < s@.len(),
    ensures
        decode(s.bytes(), s@[k].addr as int) == s@[k],
        s.bytes().len() == s.capacity(),
        s@[k].addr + 1 < s.capacity(),
        capacity_ok(s.capacity()),
{
    lemma_decode_block(s.bytes(), s@, k);
    lemma_block_end(s@, s.capacity(), k);
}

/// Allocating `size` bytes and at once freeing the block obtained restores
/// the blocks exactly as they were.
pub proof fn lemma_allocate_free_round_trip(s: &Stack, size: int)
    requires
        s.wf(),
        0 <= size,
        fit_index(s@, 0, size) < s@.len(),
    ensures
        ({
            let cap = s.capacity();
            let a = allocate_model(s@, cap, size);
            let addr = placed_block(s@[fit_index(s@, 0, size)], size, cap).addr as int;
            &&& used_at(a, addr)
            &&& free_model(a, cap, addr) == s@
        }),
{
    let c = s@;
    let cap = s.capacity();
    let j = fit_index(c, 0, size);
    lemma_fit_index(c, 0, size);
    lemma_place_wf(c, cap, j, size);
    lemma_place_release(c, cap, j, size);
    assert(allocate_model(c, cap, size)[j].addr == c[j].addr);
}

/// An allocation whose rounded end leaves less than a chunk of the chosen
/// free block takes that block whole and adds no block; one that leaves a
/// chunk or more adds exactly one free block right after the used one.
pub proof fn lemma_split_threshold(s: &Stack, size: int)
    requires
        s.wf(),
        0 <= size,
        fit_index(s@, 0, size) < s@.len(),
    ensures
        ({
            let c = s@;
            let cap = s.capacity();
            let j = fit_index(c, 0, size);
            let n = allocate_model(c, cap, size);
            let left = end_of(c[j], cap) - round_up(c[j].addr + META_SIZE + size);
            &&& !n[j].free
            &&& n[j].addr == c[j].addr
            &&& forall|i: int| 0 <= i < j ==> #[trigger] n[i] == c[i]
            &&& left < CHUNK_SIZE ==> {
                &&& n.len() == c.len()
                &&& round_up(c[j].addr + META_SIZE + size) == end_of(c[j], cap)
                &&& n[j].next == c[j].next
                &&& forall|i: int|
                    j < i < c.len() ==> #[trigger] n[i].addr == c[i].addr && n[i].free == c[i].free
            }
            &&& left >= CHUNK_SIZE ==> {
                &&& n.len() == c.len() + 1
                &&& n[j + 1].free
                &&& n[j + 1].addr == round_up(c[j].addr + META_SIZE + size)
                &&& forall|i: int|
                    j + 1 < i < n.len() ==> #[trigger] n[i].addr == c[i - 1].addr && n[i].free
                        == c[i - 1].free
            }
        }),
{
    let c = s@;
    let cap = s.capacity();
    let j = fit_index(c, 0, size);
    let n = allocate_model(c, cap, size);
    lemma_fit_index(c, 0, size);
    lemma_place_wf(c, cap, j, size);
    assert(n == place(c, cap, j, size));
    assert forall|i: int| 0 <= i < j implies #[trigger] n[i] == c[i] by {}
    if splits(c[j], size, cap) {
        lemma_block_end(c, cap, j);
        lemma_round_up(c[j].addr + META_SIZE + size);
        assert(n[j + 1] == remainder_block(c[j], size, cap));
        assert forall|i: int| j + 1 < i < n.len() implies #[trigger] n[i].addr == c[i - 1].addr
            && n[i].free == c[i - 1].free by {}
    } else {
        lemma_block_end(c, cap, j);
        lemma_round_up(c[j].addr + META_SIZE + size);
        lemma_round_up_le(c[j].addr + META_SIZE + size, end_of(c[j], cap));
        lemma_same_chunk(round_up(c[j].addr + META_SIZE + size), end_of(c[j], cap));
        assert forall|i: int| j < i < c.len() implies #[trigger] n[i].addr == c[i].addr
            && n[i].free == c[i].free by {}
    }
}

} // verus!
