//! First-fit allocator over an implicit free list.
//!
//! The region is a byte buffer split into blocks that follow one another with
//! no gaps. Each block starts with a header word (see [`crate::utils`]) that
//! records its total size and whether it is free; the next block starts where
//! the previous one ends. Pointers handed out are byte offsets into the region
//! and point just past a block's header.
//!
//! Requested sizes are rounded up to a multiple of the header width, so every
//! block address is a multiple of it and every payload is word aligned; only
//! the last block may have a size that is not, since the region keeps its
//! length. Placement by an alignment above a word is not attempted: every
//! request is served at word alignment. Adjacent free blocks are never merged,
//! and resizing does not copy payload bytes.
use vstd::prelude::*;
use crate::utils::{
    HEADER_WIDTH,
    encode,
    header_size,
    header_free,
    word_at,
    read_word,
    write_word,
    is_free,
    get_payload_size,
    with_free,
};

verus! {

/// A block of the region as the allocator's model sees it.
pub struct Block {
    /// Byte offset of the block's header.
    pub addr: int,
    /// Total size in bytes, header included.
    pub size: int,
    pub free: bool,
}

/// `n` rounded up to a multiple of the header width.
pub open spec fn round_up(n: int) -> int {
    let w = HEADER_WIDTH as int;
    if n % w == 0 {
        n
    } else {
        n - n % w + w
    }
}

/// Size of the block that a request of `n` bytes is given when it is split off.
pub open spec fn needed(n: int) -> int {
    HEADER_WIDTH + round_up(n)
}

/// Whether block `b` can serve a request of `n` bytes.
pub open spec fn fits(b: Block, n: int) -> bool {
    b.free && b.size >= needed(n)
}

/// The blocks partition `[0, end)` in address order, each word aligned, of even
/// size (the lowest header bit holds the free flag) and large enough for its
/// header.
pub open spec fn blocks_wf(bs: Seq<Block>, end: int) -> bool {
    &&& bs.len() >= 1
    &&& bs[0].addr == 0
    &&& bs.last().addr + bs.last().size == end
    &&& forall|i: int|
        0 <= i < bs.len() ==> {
            &&& #[trigger] bs[i].size >= HEADER_WIDTH as int
            &&& bs[i].size % 2 == 0
            &&& bs[i].addr % HEADER_WIDTH as int == 0
            &&& bs[i].addr + bs[i].size <= end
        }
    &&& forall|i: int| 0 <= i < bs.len() - 1 ==> #[trigger] bs[i + 1].addr == bs[i].addr + bs[i].size
    &&& forall|i: int, j: int|
        #![trigger bs[i], bs[j]]
        0 <= i < j < bs.len() ==> bs[i].addr + bs[i].size <= bs[j].addr
}

/// Index of the first block at or after `from` that fits a request of `n`
/// bytes, or the number of blocks when none does.
pub open spec fn first_fit(bs: Seq<Block>, n: int, from: nat) -> nat
    decreases bs.len() - from,
{
    if from >= bs.len() {
        bs.len()
    } else if fits(bs[from as int], n) {
        from
    } else {
        first_fit(bs, n, from + 1)
    }
}

/// Whether serving a request of `n` bytes from block `b` leaves a remainder
/// that can hold a header and at least one payload byte.
pub open spec fn splits(b: Block, n: int) -> bool {
    b.size - needed(n) >= HEADER_WIDTH + 1
}

/// The blocks after block `k` is handed out for a request of `n` bytes.
pub open spec fn take_block(bs: Seq<Block>, k: int, n: int) -> Seq<Block> {
    let b = bs[k];
    if splits(b, n) {
        bs.take(k).push(Block { addr: b.addr, size: needed(n), free: false }).push(
            Block { addr: b.addr + needed(n), size: b.size - needed(n), free: true },
        ) + bs.skip(k + 1)
    } else {
        bs.update(k, Block { addr: b.addr, size: b.size, free: false })
    }
}

/// The blocks after a request of `n` bytes: unchanged when no block fits.
pub open spec fn after_alloc(bs: Seq<Block>, n: int) -> Seq<Block> {
    let k = first_fit(bs, n, 0);
    if k < bs.len() {
        take_block(bs, k as int, n)
    } else {
        bs
    }
}

/// The pointer a request of `n` bytes is answered with.
pub open spec fn alloc_result(bs: Seq<Block>, n: int) -> Option<int> {
    let k = first_fit(bs, n, 0);
    if k < bs.len() {
        Some(bs[k as int].addr + HEADER_WIDTH)
    } else {
        None
    }
}

/// The blocks after block `k` is marked free.
pub open spec fn free_block(bs: Seq<Block>, k: int) -> Seq<Block> {
    bs.update(k, Block { addr: bs[k].addr, size: bs[k].size, free: true })
}

/// Whether `p` is the payload pointer of a block that is handed out.
pub open spec fn is_live(bs: Seq<Block>, p: int) -> bool {
    exists|k: int| 0 <= k < bs.len() && #[trigger] bs[k].addr + HEADER_WIDTH == p && !bs[k].free
}

/// Whether a block's header stands at `addr`.
pub open spec fn is_block(bs: Seq<Block>, addr: int) -> bool {
    exists|k: int| 0 <= k < bs.len() && #[trigger] bs[k].addr == addr
}

/// The index of the block whose header stands at `addr`.
pub open spec fn block_index(bs: Seq<Block>, addr: int) -> int {
    choose|k: int| 0 <= k < bs.len() && #[trigger] bs[k].addr == addr
}

/// Block addresses are distinct.
pub proof fn lemma_addr_unique(bs: Seq<Block>, end: int, i: int, j: int)
    requires
        blocks_wf(bs, end),
        0 <= i < bs.len(),
        0 <= j < bs.len(),
        bs[i].addr == bs[j].addr,
    ensures
        i == j,
{
    if i < j {
        assert(bs[i].addr + bs[i].size <= bs[j].addr);
    } else if j < i {
        assert(bs[j].addr + bs[j].size <= bs[i].addr);
    }
}

/// `first_fit` is the least index at or after `from` whose block fits.
pub proof fn lemma_first_fit(bs: Seq<Block>, n: int, from: nat)
    requires
        from <= bs.len(),
    ensures
        from <= first_fit(bs, n, from) <= bs.len(),
        first_fit(bs, n, from) < bs.len() ==> fits(bs[first_fit(bs, n, from) as int], n),
        forall|j: int| from <= j < first_fit(bs, n, from) ==> !fits(#[trigger] bs[j], n),
    decreases bs.len() - from,
{
    if from < bs.len() && !fits(bs[from as int], n) {
        lemma_first_fit(bs, n, from + 1);
    }
}

/// A request that needs more than the whole region fits nowhere.
proof fn lemma_no_fit(bs: Seq<Block>, end: int, n: int, from: nat)
    requires
        blocks_wf(bs, end),
        needed(n) > end,
        from <= bs.len(),
    ensures
        first_fit(bs, n, from) == bs.len(),
    decreases bs.len() - from,
{
    if from < bs.len() {
        assert(bs[from as int].addr + bs[from as int].size <= end);
        assert(bs[from as int].addr >= 0) by {
            if from > 0 {
                assert(bs[0].addr + bs[0].size <= bs[from as int].addr);
            }
        }
        lemma_no_fit(bs, end, n, from + 1);
    }
}

/// Where each block of a split ends up.
proof fn lemma_split_shape(bs: Seq<Block>, k: int, n: int)
    requires
        0 <= k < bs.len(),
        splits(bs[k], n),
    ensures
        take_block(bs, k, n).len() == bs.len() + 1,
        forall|i: int|
            0 <= i < bs.len() + 1 ==> #[trigger] take_block(bs, k, n)[i] == (if i < k {
                bs[i]
            } else if i == k {
                Block { addr: bs[k].addr, size: needed(n), free: false }
            } else if i == k + 1 {
                Block { addr: bs[k].addr + needed(n), size: bs[k].size - needed(n), free: true }
            } else {
                bs[i - 1]
            }),
{
}

/// Handing out a fitting block keeps the blocks a partition of the region.
#[verifier::rlimit(40)]
proof fn lemma_take_block_wf(bs: Seq<Block>, end: int, k: int, n: int)
    requires
        blocks_wf(bs, end),
        0 <= k < bs.len(),
        fits(bs[k], n),
        n > 0,
    ensures
        blocks_wf(take_block(bs, k, n), end),
{
    let nb = take_block(bs, k, n);
    let b = bs[k];
    if splits(b, n) {
        lemma_split_shape(bs, k, n);
        assert forall|i: int, j: int|
            #![trigger nb[i], nb[j]]
            0 <= i < j < nb.len() implies nb[i].addr + nb[i].size <= nb[j].addr by {
            if j <= k + 1 {
                if i < k {
                    assert(bs[i].addr + bs[i].size <= bs[k].addr);
                }
            } else if i >= k {
                if i > k + 1 {
                    assert(bs[i - 1].addr + bs[i - 1].size <= bs[j - 1].addr);
                } else {
                    assert(bs[k].addr + bs[k].size <= bs[j - 1].addr);
                }
            } else {
                assert(bs[i].addr + bs[i].size <= bs[j - 1].addr);
            }
        }
        assert forall|i: int| 0 <= i < nb.len() - 1 implies #[trigger] nb[i + 1].addr == nb[i].addr
            + nb[i].size by {
            if i > k + 1 {
                let j = i - 1;
                assert(bs[j + 1].addr == bs[j].addr + bs[j].size);
            } else if i == k + 1 {
                assert(bs[k + 1].addr == bs[k].addr + bs[k].size);
            } else if i < k && i + 1 < k {
                assert(bs[i + 1].addr == bs[i].addr + bs[i].size);
            } else if i < k {
                assert(bs[k].addr == bs[k - 1].addr + bs[k - 1].size);
            }
        }
        assert(nb.last() == (if k == bs.len() - 1 {
            nb[k + 1]
        } else {
            bs.last()
        }));
    } else {
        assert forall|i: int, j: int|
            #![trigger nb[i], nb[j]]
            0 <= i < j < nb.len() implies nb[i].addr + nb[i].size <= nb[j].addr by {
            assert(bs[i].addr + bs[i].size <= bs[j].addr);
        }
        assert forall|i: int| 0 <= i < nb.len() - 1 implies #[trigger] nb[i + 1].addr == nb[i].addr
            + nb[i].size by {
            assert(bs[i + 1].addr == bs[i].addr + bs[i].size);
        }
    }
}

/// Marking a block free keeps the blocks a partition of the region.
proof fn lemma_free_block_wf(bs: Seq<Block>, end: int, k: int)
    requires
        blocks_wf(bs, end),
        0 <= k < bs.len(),
    ensures
        blocks_wf(free_block(bs, k), end),
{
    let nb = free_block(bs, k);
    assert forall|i: int, j: int|
        #![trigger nb[i], nb[j]]
        0 <= i < j < nb.len() implies nb[i].addr + nb[i].size <= nb[j].addr by {
        assert(bs[i].addr + bs[i].size <= bs[j].addr);
    }
    assert forall|i: int| 0 <= i < nb.len() - 1 implies #[trigger] nb[i + 1].addr == nb[i].addr
        + nb[i].size by {
        assert(bs[i + 1].addr == bs[i].addr + bs[i].size);
    }
}

/// `first_fit` finds `k` when no block from `from` on before `k` fits and `k` does.
proof fn lemma_first_fit_at(bs: Seq<Block>, n: int, from: nat, k: nat)
    requires
        from <= k < bs.len(),
        forall|j: int| from <= j < k ==> !fits(#[trigger] bs[j], n),
        fits(bs[k as int], n),
    ensures
        first_fit(bs, n, from) == k,
    decreases k - from,
{
    if from < k {
        lemma_first_fit_at(bs, n, from + 1, k);
    }
}

/// The payloads of two different blocks never overlap.
pub proof fn lemma_payloads_disjoint(bs: Seq<Block>, end: int, i: int, j: int)
    requires
        blocks_wf(bs, end),
        0 <= i < bs.len(),
        0 <= j < bs.len(),
        i != j,
    ensures
        bs[i].addr + bs[i].size <= bs[j].addr + HEADER_WIDTH || bs[j].addr + bs[j].size <= bs[i].addr
            + HEADER_WIDTH,
{
    if i < j {
        assert(bs[i].addr + bs[i].size <= bs[j].addr);
    } else {
        assert(bs[j].addr + bs[j].size <= bs[i].addr);
    }
}

/// A successful request of `n` bytes returns a payload `[p, p + n)` that
/// overlaps no payload handed out before, and every block handed out before is
/// still there, unchanged. So over any run of successful requests the returned
/// payloads are pairwise disjoint.
pub proof fn lemma_allocate_disjoint(bs: Seq<Block>, end: int, n: int, p: int, j: int)
    requires
        blocks_wf(bs, end),
        n > 0,
        alloc_result(bs, n) == Some(p),
        0 <= j < bs.len(),
        !bs[j].free,
    ensures
        p + n <= bs[j].addr + HEADER_WIDTH || bs[j].addr + bs[j].size <= p,
        after_alloc(bs, n).contains(bs[j]),
{
    let k = first_fit(bs, n, 0) as int;
    lemma_first_fit(bs, n, 0);
    if j < k {
        assert(bs[j].addr + bs[j].size <= bs[k].addr);
    } else {
        assert(bs[k].addr + bs[k].size <= bs[j].addr);
    }
    let nb = take_block(bs, k, n);
    if splits(bs[k], n) {
        lemma_split_shape(bs, k, n);
        if j < k {
            assert(nb[j] == bs[j]);
        } else {
            assert(nb[j + 1] == bs[j]);
        }
    } else {
        assert(nb[j] == bs[j]);
    }
}

/// A block that was just handed out for `n` bytes and then freed is what the
/// next request of `n` bytes gets, at the same address; for a smaller request
/// no block after it is considered.
pub proof fn lemma_reuse(bs: Seq<Block>, end: int, n: int, p: int, m: int)
    requires
        blocks_wf(bs, end),
        n > 0,
        0 < m <= n,
        alloc_result(bs, n) == Some(p),
    ensures
        ({
            let after = after_alloc(bs, n);
            let k = block_index(after, p - HEADER_WIDTH);
            let freed = free_block(after, k);
            &&& alloc_result(freed, n) == Some(p)
            &&& first_fit(freed, m, 0) <= k
        }),
{
    let k = first_fit(bs, n, 0) as int;
    lemma_first_fit(bs, n, 0);
    let after = take_block(bs, k, n);
    lemma_take_block_wf(bs, end, k, n);
    if splits(bs[k], n) {
        lemma_split_shape(bs, k, n);
    }
    assert(after[k].addr == p - HEADER_WIDTH);
    assert(is_block(after, p - HEADER_WIDTH));
    lemma_addr_unique(after, end, k, block_index(after, p - HEADER_WIDTH));
    let freed = free_block(after, k);
    assert forall|j: int| 0 <= j < k implies !fits(#[trigger] freed[j], n) by {
        assert(freed[j] == bs[j]);
    }
    assert(round_up(m) <= round_up(n));
    lemma_first_fit_at(freed, n, 0, k as nat);
    lemma_first_fit(freed, m, 0);
}

/// Resizing a live block to a size it can still hold gives the same block
/// back when no free block before it fits the new size.
pub proof fn lemma_resize_in_place(bs: Seq<Block>, end: int, k: int, m: int)
    requires
        blocks_wf(bs, end),
        0 <= k < bs.len(),
        !bs[k].free,
        m > 0,
        bs[k].size >= needed(m),
        forall|j: int| 0 <= j < k ==> !fits(#[trigger] bs[j], m),
    ensures
        alloc_result(free_block(bs, k), m) == Some(bs[k].addr + HEADER_WIDTH),
{
    let freed = free_block(bs, k);
    assert forall|j: int| 0 <= j < k implies !fits(#[trigger] freed[j], m) by {
        assert(freed[j] == bs[j]);
    }
    lemma_first_fit_at(freed, m, 0, k as nat);
}

/// Freeing two neighbouring blocks leaves two blocks, each with its own
/// header and size: they are not merged into one.
pub proof fn lemma_no_coalescing(bs: Seq<Block>, end: int, i: int)
    requires
        blocks_wf(bs, end),
        0 <= i,
        i + 1 < bs.len(),
        !bs[i].free,
        !bs[i + 1].free,
    ensures
        ({
            let after = free_block(free_block(bs, i), i + 1);
            &&& after.len() == bs.len()
            &&& after[i] == Block { addr: bs[i].addr, size: bs[i].size, free: true }
            &&& after[i + 1] == Block { addr: bs[i + 1].addr, size: bs[i + 1].size, free: true }
            &&& after[i].size < bs[i].size + bs[i + 1].size
        }),
{
}

/// First-fit allocator that owns its region.
pub struct ImplicitAllocator {
    region: Vec<u8>,
    end: usize,
    blocks: Ghost<Seq<Block>>,
}

impl ImplicitAllocator {
    /// The blocks of the region, in address order.
    pub closed spec fn blocks(&self) -> Seq<Block> {
        self.blocks@
    }

    /// One past the last byte under management.
    pub closed spec fn end(&self) -> int {
        self.end as int
    }

    /// The blocks of a well-formed allocator partition its region, so the
    /// lemmas over `blocks_wf` apply to it.
    pub proof fn lemma_wf_partition(&self)
        requires
            self.wf(),
        ensures
            blocks_wf(self.blocks(), self.end()),
            self.end() <= usize::MAX,
    {
    }

    /// The model matches the headers stored in the region.
    pub closed spec fn wf(&self) -> bool {
        &&& blocks_wf(self.blocks@, self.end as int)
        &&& self.end as int <= self.region@.len()
        &&& forall|i: int|
            0 <= i < self.blocks@.len() ==> word_at(self.region@, #[trigger] self.blocks@[i].addr)
                == encode(self.blocks@[i].size, self.blocks@[i].free)
    }

    /// Takes ownership of `buffer` and makes it one free block spanning the
    /// whole buffer, less its last byte when the length is odd (the lowest
    /// header bit holds the free flag). A buffer too short for one header is
    /// refused.
    pub fn new(buffer: Vec<u8>) -> (r: Option<ImplicitAllocator>)
        ensures
            r is Some <==> buffer@.len() >= HEADER_WIDTH,
            r matches Some(a) ==> {
                &&& a.wf()
                &&& a.end() == buffer@.len() - buffer@.len() % 2
                &&& a.blocks() == seq![Block { addr: 0, size: a.end(), free: true }]
            },
    {
        let mut region = buffer;
        let len = region.len();
        if len < HEADER_WIDTH {
            return None;
        }
        let end = len - len % 2;
        write_word(&mut region, 0, end as u64 + 1);
        let ghost bs = seq![Block { addr: 0, size: end as int, free: true }];
        Some(ImplicitAllocator { region, end, blocks: Ghost(bs) })
    }

    /// Hands out block `k`, whose header `h` stands at `cursor`, for a request
    /// of `n` bytes, splitting it when the rest is large enough.
    fn take_at(
        &mut self,
        cursor: usize,
        h: u64,
        rounded: usize,
        Ghost(k): Ghost<int>,
        Ghost(n): Ghost<int>,
    )
        requires
            old(self).wf(),
            0 <= k < old(self).blocks().len(),
            cursor == old(self).blocks()[k].addr,
            h == encode(old(self).blocks()[k].size, old(self).blocks()[k].free),
            fits(old(self).blocks()[k], n),
            rounded == round_up(n),
            n > 0,
        ensures
            final(self).wf(),
            final(self).end() == old(self).end(),
            final(self).blocks() == take_block(old(self).blocks(), k, n),
            final(self).blocks()[k].addr == cursor,
            !final(self).blocks()[k].free,
            final(self).blocks()[k].size >= needed(n),
    {
        let ghost bs = self.blocks@;
        let ghost b = bs[k];
        assert(header_size(h) == b.size);
        let payload = get_payload_size(h) as usize;
        let need = HEADER_WIDTH + rounded;
        let ghost r0 = self.region@;
        let ghost nb = take_block(bs, k, n);
        proof {
            lemma_take_block_wf(bs, self.end as int, k, n);
            assert(bs[k].addr + bs[k].size <= self.end);
        }
        if payload - rounded >= HEADER_WIDTH + 1 {
            let rest = payload - rounded;
            write_word(&mut self.region, cursor + need, rest as u64 + 1);
            let ghost r1 = self.region@;
            write_word(&mut self.region, cursor, need as u64);
            self.blocks = Ghost(nb);
            proof {
                lemma_split_shape(bs, k, n);
                assert forall|i: int|
                    0 <= i < nb.len() implies word_at(self.region@, #[trigger] nb[i].addr) == encode(
                    nb[i].size,
                    nb[i].free,
                ) by {
                    if i < k {
                        assert(bs[i].addr + bs[i].size <= bs[k].addr);
                        assert(word_at(r1, nb[i].addr) == word_at(r0, nb[i].addr));
                    } else if i == k + 1 {
                        assert(word_at(r1, nb[i].addr) == rest + 1);
                    } else if i > k + 1 {
                        assert(bs[k].addr + bs[k].size <= bs[i - 1].addr);
                        assert(word_at(r1, nb[i].addr) == word_at(r0, nb[i].addr));
                    }
                }
            }
        } else {
            write_word(&mut self.region, cursor, with_free(h, false));
            self.blocks = Ghost(nb);
            proof {
                assert forall|i: int|
                    0 <= i < nb.len() implies word_at(self.region@, #[trigger] nb[i].addr) == encode(
                    nb[i].size,
                    nb[i].free,
                ) by {
                    if i < k {
                        assert(bs[i].addr + bs[i].size <= bs[k].addr);
                    } else if i > k {
                        assert(bs[k].addr + bs[k].size <= bs[i].addr);
                    }
                }
            }
        }
    }

    /// Serves a request of `size` bytes by first fit: the first free block in
    /// address order whose size covers a header and `size` rounded up to a
    /// multiple of the header width. The block is split when the rest can hold
    /// a header and at least one byte; otherwise it is handed out whole.
    /// Returns the payload pointer, or `None` when no block fits; on `None`
    /// nothing changes. Payloads are always word aligned; `align` is not
    /// otherwise taken into account.
    pub fn allocate(&mut self, size: usize, align: usize) -> (r: Option<usize>)
        requires
            old(self).wf(),
            size > 0,
        ensures
            final(self).wf(),
            final(self).end() == old(self).end(),
            final(self).blocks() == after_alloc(old(self).blocks(), size as int),
            r is None <==> alloc_result(old(self).blocks(), size as int) is None,
            r matches Some(p) ==> alloc_result(old(self).blocks(), size as int) == Some(p as int),
            r is None ==> *final(self) == *old(self),
            size > old(self).end() ==> r is None,
            r matches Some(p) ==> {
                &&& p % HEADER_WIDTH == 0
                &&& exists|k: int|
                    0 <= k < final(self).blocks().len() && #[trigger] final(self).blocks()[k].addr
                        + HEADER_WIDTH == p && !final(self).blocks()[k].free
                        && final(self).blocks()[k].size >= HEADER_WIDTH + size
            },
    {
        let ghost bs = self.blocks@;
        if size > self.end - HEADER_WIDTH {
            proof {
                lemma_no_fit(bs, self.end as int, size as int, 0);
            }
            return None;
        }
        let rounded: usize = if size % HEADER_WIDTH == 0 {
            size
        } else {
            size - size % HEADER_WIDTH + HEADER_WIDTH
        };
        let mut cursor: usize = 0;
        let ghost mut k: int = 0;
        proof {
            lemma_first_fit(bs, size as int, 0);
        }
        while cursor < self.end
            invariant
                *self == *old(self),
                self.wf(),
                bs == self.blocks@,
                rounded == round_up(size as int),
                rounded < self.end,
                size > 0,
                0 <= k <= bs.len(),
                k < bs.len() ==> cursor == bs[k].addr,
                k == bs.len() ==> cursor == self.end,
                first_fit(bs, size as int, 0) == first_fit(bs, size as int, k as nat),
            decreases self.end - cursor,
        {
            let ghost b = bs[k];
            let h = read_word(&self.region, cursor);
            assert(h == encode(b.size, b.free));
            assert(header_size(h) == b.size && header_free(h) == b.free);
            let payload = get_payload_size(h) as usize;
            if is_free(h) && payload >= rounded {
                proof {
                    assert(first_fit(bs, size as int, k as nat) == k);
                }
                self.take_at(cursor, h, rounded, Ghost(k), Ghost(size as int));
                assert(self.blocks@[k].addr + HEADER_WIDTH == cursor + HEADER_WIDTH);
                return Some(cursor + HEADER_WIDTH);
            }
            cursor = cursor + payload + HEADER_WIDTH;
            proof {
                k = k + 1;
            }
        }
        proof {
            assert(k == bs.len()) by {
                if k < bs.len() {
                    assert(bs[k].addr + bs[k].size <= self.end);
                }
            }
        }
        None
    }

    /// Marks the block of the live payload pointer `ptr` free again; its size
    /// is kept and no neighbour is merged with it. `size` is the size the
    /// block was requested with; the header already records what is needed.
    pub fn free(&mut self, ptr: usize, size: usize)
        requires
            old(self).wf(),
            is_live(old(self).blocks(), ptr as int),
        ensures
            final(self).wf(),
            final(self).end() == old(self).end(),
            final(self).blocks() == free_block(
                old(self).blocks(),
                block_index(old(self).blocks(), ptr - HEADER_WIDTH),
            ),
    {
        let ghost bs = self.blocks@;
        let ghost k = choose|k: int|
            0 <= k < bs.len() && #[trigger] bs[k].addr + HEADER_WIDTH == ptr && !bs[k].free;
        proof {
            let j = block_index(bs, ptr - HEADER_WIDTH);
            assert(bs[k].addr == ptr - HEADER_WIDTH);
            assert(is_block(bs, ptr - HEADER_WIDTH));
            lemma_addr_unique(bs, self.end as int, j, k);
            assert(bs[k].addr + bs[k].size <= self.end);
            lemma_free_block_wf(bs, self.end as int, k);
        }
        let at = ptr - HEADER_WIDTH;
        let h = read_word(&self.region, at);
        write_word(&mut self.region, at, with_free(h, true));
        let ghost nb = free_block(bs, k);
        self.blocks = Ghost(nb);
        proof {
            assert forall|i: int|
                0 <= i < nb.len() implies word_at(self.region@, #[trigger] nb[i].addr) == encode(
                nb[i].size,
                nb[i].free,
            ) by {
                if i < k {
                    assert(bs[i].addr + bs[i].size <= bs[k].addr);
                } else if i > k {
                    assert(bs[k].addr + bs[k].size <= bs[i].addr);
                }
            }
        }
    }

    /// Frees the block of `ptr`, then serves a request of `new_size` bytes at
    /// word alignment. Payload bytes are not carried over, and when the
    /// request fails the old block stays freed.
    pub fn resize(&mut self, ptr: usize, old_size: usize, new_size: usize) -> (r: Option<usize>)
        requires
            old(self).wf(),
            is_live(old(self).blocks(), ptr as int),
            new_size > 0,
        ensures
            final(self).wf(),
            final(self).end() == old(self).end(),
            ({
                let freed = free_block(
                    old(self).blocks(),
                    block_index(old(self).blocks(), ptr - HEADER_WIDTH),
                );
                &&& final(self).blocks() == after_alloc(freed, new_size as int)
                &&& (r is None <==> alloc_result(freed, new_size as int) is None)
                &&& (r matches Some(p) ==> alloc_result(freed, new_size as int) == Some(p as int))
            }),
    {
        self.free(ptr, old_size);
        self.allocate(new_size, HEADER_WIDTH)
    }

    /// The header word of the block whose header stands at `addr`.
    pub fn read_header(&self, addr: usize) -> (r: u64)
        requires
            self.wf(),
            is_block(self.blocks(), addr as int),
        ensures
            r == encode(
                self.blocks()[block_index(self.blocks(), addr as int)].size,
                self.blocks()[block_index(self.blocks(), addr as int)].free,
            ),
    {
        let ghost bs = self.blocks@;
        let ghost k = block_index(bs, addr as int);
        proof {
            assert(bs[k].addr + bs[k].size <= self.end);
        }
        read_word(&self.region, addr)
    }
}

/// An allocator over a fresh zeroed buffer of 4096 bytes.
pub fn init_heap_allocator() -> (r: ImplicitAllocator)
    ensures
        r.wf(),
        r.end() == 4096,
        r.blocks() == seq![Block { addr: 0, size: 4096, free: true }],
{
    let heap_size: usize = 4096;
    let made = ImplicitAllocator::new(vec![0u8; heap_size]);
    made.unwrap()
}

} // verus!
