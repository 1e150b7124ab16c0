//! A bump arena: a chain of zeroed byte blocks, each handing out aligned
//! spans from its front; a request that does not fit in any
//! block of the chain opens a new block at the end, doubled in size until
//! the request fits.
use vstd::prelude::*;

verus! {

/// The default size of a block, in bytes.
pub const DEFAULT_CAPACITY: usize = 65536;

/// One block of the chain and the blocks after it.
pub struct ArenaInternal {
    bytes: Vec<u8>,
    next: usize,
    next_arena: Option<Box<ArenaInternal>>,
}

/// Where a span was handed out: the block's position in the chain (0 is
/// the first), the offset of the span in it and its length.
#[derive(Clone, Copy, Debug, PartialEq, Eq, Structural)]
pub struct ArenaSpan {
    pub arena: usize,
    pub offset: usize,
    pub len: usize,
}

/// The smallest `nc * 2^k` that is at least `count`; `None` where no such
/// size exists (a zero-sized block) or it would overflow `usize`.
pub open spec fn grown(nc: int, count: int) -> Option<int>
    decreases grow_measure(nc, count),
{
    if nc >= count {
        Some(nc)
    } else if nc <= 0 || nc * 2 > usize::MAX {
        None
    } else {
        grown(nc * 2, count)
    }
}

/// How far a size is from reaching `count`.
pub open spec fn grow_measure(nc: int, count: int) -> nat {
    if nc >= count {
        0
    } else {
        (count - nc) as nat
    }
}

/// `next` rounded up to a multiple of `align`; `None` on overflow.
pub open spec fn aligned(next: int, align: int) -> Option<int> {
    if next % align == 0 {
        Some(next)
    } else if next + (align - next % align) > usize::MAX {
        None
    } else {
        Some(next + (align - next % align))
    }
}

/// The chain (as (capacity, fill) pairs) after handing out `count` bytes
/// aligned to `align`, with the block position and offset of the span.
/// The first block that can hold the span strictly below its capacity
/// takes it; past the last block a new one is opened, as large as the last
/// block doubled until it holds `count`. `None` where handing out would
/// overflow or never end.
pub open spec fn alloc_spec(chain: Seq<(int, int)>, count: int, align: int) -> Option<(Seq<(int, int)>, int, int)>
    decreases chain.len(),
{
    if chain.len() == 0 || align <= 0 {
        None
    } else {
        let (cap, next) = chain[0];
        match aligned(next, align) {
            None => None,
            Some(l) => if l + count > usize::MAX {
                None
            } else if l + count < cap {
                Some((chain.update(0, (cap, l + count)), 0, l))
            } else if chain.len() > 1 {
                match alloc_spec(chain.drop_first(), count, align) {
                    None => None,
                    Some((rest, a, o)) => Some((seq![chain[0]] + rest, a + 1, o)),
                }
            } else {
                match grown(cap, count) {
                    None => None,
                    Some(nc) => if count < nc {
                        Some((chain.push((nc, count)), 1, 0))
                    } else {
                        None
                    },
                }
            },
        }
    }
}

/// The bytes of the blocks agree with the chain: as many blocks, each as
/// long as its capacity, and zero at and past its fill.
pub open spec fn blocks_match(blocks: Seq<Seq<u8>>, chain: Seq<(int, int)>) -> bool {
    &&& blocks.len() == chain.len()
    &&& forall|j: int| 0 <= j < blocks.len() ==> (#[trigger] blocks[j]).len() == chain[j].0
    &&& forall|j: int| 0 <= j < blocks.len() ==> 0 <= (#[trigger] chain[j]).1 <= chain[j].0
    &&& forall|j: int, i: int| 0 <= j < blocks.len() && chain[j].1 <= i < blocks[j].len() ==> (#[trigger] blocks[j][i]) == 0
}

/// `n` zero bytes.
pub open spec fn zeros(n: int) -> Seq<u8> {
    Seq::new(n as nat, |i: int| 0u8)
}

impl ArenaInternal {
    /// The chain as (capacity, fill) pairs, this block first.
    pub closed spec fn chain(&self) -> Seq<(int, int)>
        decreases self,
    {
        seq![(self.bytes@.len() as int, self.next as int)] + match self.next_arena {
            Some(b) => b.chain(),
            None => seq![],
        }
    }

    /// The bytes of each block of the chain, this block first.
    pub closed spec fn blocks(&self) -> Seq<Seq<u8>>
        decreases self,
    {
        seq![self.bytes@] + match self.next_arena {
            Some(b) => b.blocks(),
            None => seq![],
        }
    }

    /// Every byte of every block at or past the block's fill is zero.
    pub closed spec fn wf(&self) -> bool
        decreases self,
    {
        &&& self.next <= self.bytes@.len()
        &&& forall|i: int| self.next <= i < self.bytes@.len() ==> self.bytes@[i] == 0
        &&& match self.next_arena {
            Some(b) => b.wf(),
            None => true,
        }
    }

    /// The chain and the blocks have the same length, each block as long as
    /// its capacity.
    pub proof fn lemma_shape(&self)
        ensures
            self.blocks().len() == self.chain().len(),
            forall|j: int| 0 <= j < self.blocks().len() ==> (#[trigger] self.blocks()[j]).len() == self.chain()[j].0,
            forall|j: int| 0 <= j < self.chain().len() ==> (#[trigger] self.chain()[j]).1 >= 0,
            forall|j: int| 0 <= j < self.blocks().len() ==> (#[trigger] self.blocks()[j]).len() <= usize::MAX,
        decreases self,
    {
        assert(self.bytes@.len() == self.bytes.len());
        if let Some(b) = self.next_arena {
            b.lemma_shape();
            assert forall|j: int| 0 <= j < self.blocks().len() implies (#[trigger] self.blocks()[j]).len()
                == self.chain()[j].0 by {
                if j > 0 {
                    assert(self.blocks()[j] == b.blocks()[j - 1]);
                    assert(self.chain()[j] == b.chain()[j - 1]);
                }
            }
            assert forall|j: int| 0 <= j < self.chain().len() implies (#[trigger] self.chain()[j]).1 >= 0 by {
                if j > 0 {
                    assert(self.chain()[j] == b.chain()[j - 1]);
                }
            }
            assert forall|j: int| 0 <= j < self.blocks().len() implies (#[trigger] self.blocks()[j]).len()
                <= usize::MAX by {
                if j > 0 {
                    assert(self.blocks()[j] == b.blocks()[j - 1]);
                }
            }
        }
    }

    /// What a well-formed chain shows through its views: one byte sequence
    /// per block, as long as the block, zero at and past the block's fill.
    pub proof fn lemma_views(&self)
        requires
            self.wf(),
        ensures
            blocks_match(self.blocks(), self.chain()),
        decreases self,
    {
        if let Some(b) = self.next_arena {
            b.lemma_views();
            let bs = self.blocks();
            let ch = self.chain();
            assert forall|j: int| 0 < j < bs.len() implies bs[j] == b.blocks()[j - 1] && ch[j] == b.chain()[j - 1] by {}
        }
    }

    /// A single empty block of the default size.
    pub fn new() -> (r: Self)
        ensures
            r.wf(),
            r.chain() == seq![(DEFAULT_CAPACITY as int, 0int)],
            r.blocks() == seq![zeros(DEFAULT_CAPACITY as int)],
    {
        Self::new_with_capacity(DEFAULT_CAPACITY)
    }

    /// A single empty block of `count` zeroed bytes.
    pub fn new_with_capacity(count: usize) -> (r: Self)
        ensures
            r.wf(),
            r.chain() == seq![(count as int, 0int)],
            r.blocks() == seq![zeros(count as int)],
    {
        let r = Self::zeroed(count);
        assert(r.chain() =~= seq![(count as int, 0int)]);
        assert(r.blocks() =~= seq![zeros(count as int)]);
        r
    }

    fn zeroed(count: usize) -> (r: Self)
        ensures
            r.bytes@ == zeros(count as int),
            r.next == 0,
            r.next_arena is None,
            r.wf(),
    {
        let mut out: Vec<u8> = Vec::new();
        let mut i: usize = 0;
        while i < count
            invariant
                i <= count,
                out@ == zeros(i as int),
            decreases count - i,
        {
            out.push(0);
            i = i + 1;
            assert(out@ =~= zeros(i as int));
        }
        Self { bytes: out, next: 0, next_arena: None }
    }

    /// Byte `offset` of block `arena` of the chain.
    pub fn read_byte(&self, arena: usize, offset: usize) -> (r: u8)
        requires
            arena < self.blocks().len(),
            offset < self.blocks()[arena as int].len(),
        ensures
            r == self.blocks()[arena as int][offset as int],
        decreases arena,
    {
        if arena == 0 {
            self.bytes[offset]
        } else {
            match &self.next_arena {
                Some(b) => {
                    assert(self.blocks()[arena as int] == b.blocks()[arena - 1]);
                    b.read_byte(arena - 1, offset)
                },
                None => {
                    assert(self.blocks().len() == 1);
                    0
                },
            }
        }
    }

    /// Sets byte `offset` of block `arena` of the chain, below its fill,
    /// to `v`.
    pub fn write_byte(&mut self, arena: usize, offset: usize, v: u8)
        requires
            old(self).wf(),
            arena < old(self).chain().len(),
            offset < old(self).chain()[arena as int].1,
            offset < old(self).blocks()[arena as int].len(),
        ensures
            final(self).wf(),
            final(self).chain() == old(self).chain(),
            final(self).blocks() == old(self).blocks().update(
                arena as int,
                old(self).blocks()[arena as int].update(offset as int, v),
            ),
        decreases arena,
    {
        let ghost c0 = self.chain();
        let ghost b0 = self.blocks();
        proof {
            self.lemma_shape();
        }
        if arena == 0 {
            self.bytes.set(offset, v);
            assert(self.chain() =~= c0);
            assert(self.blocks() =~= b0.update(0, b0[0].update(offset as int, v)));
        } else {
            match self.next_arena.take() {
                Some(mut b) => {
                    assert(c0.drop_first() =~= b.chain());
                    assert(b0.drop_first() =~= b.blocks());
                    assert(b0[arena as int] == b.blocks()[arena - 1]);
                    assert(c0[arena as int] == b.chain()[arena - 1]);
                    b.write_byte(arena - 1, offset, v);
                    self.next_arena = Some(b);
                    assert(self.chain() =~= c0);
                    assert(self.blocks() =~= b0.update(arena as int, b0[arena as int].update(offset as int, v)));
                },
                None => {
                    assert(c0.len() == 1);
                },
            }
        }
    }

    /// Hands out `count` bytes aligned to `align` from the first block of
    /// the chain that holds them, opening a new block if none does.
    pub fn alloc_bytes(&mut self, count: usize, align: usize) -> (r: ArenaSpan)
        requires
            old(self).wf(),
            alloc_spec(old(self).chain(), count as int, align as int) is Some,
            old(self).chain().len() < usize::MAX,
        ensures
            final(self).wf(),
            alloc_spec(old(self).chain(), count as int, align as int) == Some(
                (final(self).chain(), r.arena as int, r.offset as int),
            ),
            r.len == count,
            r.arena <= old(self).chain().len(),
            r.arena < final(self).chain().len(),
            final(self).blocks().len() == final(self).chain().len(),
            forall|j: int| 0 <= j < old(self).blocks().len() ==> final(self).blocks()[j] == old(self).blocks()[j],
            r.arena == old(self).chain().len() ==> final(self).blocks()[r.arena as int] == zeros(
                final(self).chain()[r.arena as int].0,
            ),
            forall|i: int| 0 <= i < count ==> #[trigger] final(self).blocks()[r.arena as int][r.offset + i] == 0,
        decreases old(self).chain().len(),
    {
        let ghost c0 = self.chain();
        let ghost b0 = self.blocks();
        proof {
            self.lemma_shape();
            lemma_alloc_span(c0, count as int, align as int);
        }
        let mut l = self.next;
        if l % align != 0 {
            l += align - l % align;
        }
        if l + count >= self.bytes.len() {
            match self.next_arena.take() {
                Some(mut nxt) => {
                    assert(c0.drop_first() =~= nxt.chain());
                    assert(b0.drop_first() =~= nxt.blocks());
                    let r = nxt.alloc_bytes(count, align);
                    self.next_arena = Some(nxt);
                    assert(self.chain() =~= seq![c0[0]] + nxt.chain());
                    assert(self.blocks() =~= seq![b0[0]] + nxt.blocks());
                    proof {
                        nxt.lemma_shape();
                        assert forall|i: int| 0 <= i < count implies #[trigger] self.blocks()[r.arena + 1][r.offset
                            + i] == 0 by {
                            assert(self.blocks()[r.arena + 1] == nxt.blocks()[r.arena as int]);
                            assert(nxt.blocks()[r.arena as int][r.offset + i] == 0);
                        }
                        assert forall|j: int| 0 <= j < b0.len() implies self.blocks()[j] == b0[j] by {
                            if j > 0 {
                                assert(self.blocks()[j] == nxt.blocks()[j - 1]);
                            }
                        }
                    }
                    ArenaSpan { arena: r.arena + 1, offset: r.offset, len: count }
                },
                None => {
                    let mut nc = self.bytes.len();
                    while nc < count
                        invariant
                            grown(nc as int, count as int) == grown(self.bytes@.len() as int, count as int),
                            grown(nc as int, count as int) is Some,
                        decreases grow_measure(nc as int, count as int),
                    {
                        nc = nc * 2;
                    }
                    let mut next_ar = ArenaInternal::zeroed(nc);
                    next_ar.next = count;
                    assert(next_ar.chain() =~= seq![(nc as int, count as int)]);
                    assert(next_ar.blocks() =~= seq![zeros(nc as int)]);
                    assert(next_ar.wf());
                    self.next_arena = Some(Box::new(next_ar));
                    assert(self.chain() =~= c0.push((nc as int, count as int)));
                    assert(self.blocks() =~= b0.push(zeros(nc as int)));
                    ArenaSpan { arena: 1, offset: 0, len: count }
                },
            }
        } else {
            self.next = l + count;
            assert(self.chain() =~= c0.update(0, (self.bytes@.len() as int, (l + count) as int)));
            assert(self.blocks() =~= b0);
            assert(self.wf());
            ArenaSpan { arena: 0, offset: l, len: count }
        }
    }
}

/// An arena: the owner of a chain of blocks.
pub struct Arena {
    ptr: ArenaInternal,
}

impl Arena {
    /// The chain of the arena's blocks as (capacity, fill) pairs.
    pub closed spec fn chain(&self) -> Seq<(int, int)> {
        self.ptr.chain()
    }

    /// The bytes of the arena's blocks.
    pub closed spec fn blocks(&self) -> Seq<Seq<u8>> {
        self.ptr.blocks()
    }

    /// Every byte not yet handed out is zero.
    pub closed spec fn wf(&self) -> bool {
        self.ptr.wf()
    }

    /// A well-formed arena's blocks agree with its chain.
    pub proof fn lemma_views(&self)
        requires
            self.wf(),
        ensures
            blocks_match(self.blocks(), self.chain()),
    {
        self.ptr.lemma_views();
    }

    /// An arena of one empty block of the default size.
    pub fn new() -> (r: Self)
        ensures
            r.wf(),
            r.chain() == seq![(DEFAULT_CAPACITY as int, 0int)],
            r.blocks() == seq![zeros(DEFAULT_CAPACITY as int)],
    {
        Self { ptr: ArenaInternal::new() }
    }

    /// An arena of one empty block of `count` zero bytes.
    pub fn new_with_capacity(count: usize) -> (r: Self)
        ensures
            r.wf(),
            r.chain() == seq![(count as int, 0int)],
            r.blocks() == seq![zeros(count as int)],
    {
        Self { ptr: ArenaInternal::new_with_capacity(count) }
    }

    /// Hands out `count` bytes aligned to `align`, all zero; the bytes of
    /// every block stay as they were, and a new block comes zeroed.
    pub fn alloc_bytes(&mut self, count: usize, align: usize) -> (r: ArenaSpan)
        requires
            old(self).wf(),
            alloc_spec(old(self).chain(), count as int, align as int) is Some,
            old(self).chain().len() < usize::MAX,
        ensures
            final(self).wf(),
            alloc_spec(old(self).chain(), count as int, align as int) == Some(
                (final(self).chain(), r.arena as int, r.offset as int),
            ),
            r.len == count,
            r.arena < final(self).chain().len(),
            final(self).blocks().len() == final(self).chain().len(),
            forall|j: int| 0 <= j < old(self).blocks().len() ==> final(self).blocks()[j] == old(self).blocks()[j],
            r.arena == old(self).chain().len() ==> final(self).blocks()[r.arena as int] == zeros(
                final(self).chain()[r.arena as int].0,
            ),
            forall|i: int| 0 <= i < count ==> #[trigger] final(self).blocks()[r.arena as int][r.offset + i] == 0,
            r.offset as int % align as int == 0,
            r.offset + count < final(self).blocks()[r.arena as int].len(),
            r.arena < old(self).chain().len() ==> r.offset >= old(self).chain()[r.arena as int].1,
    {
        let ghost c0 = self.chain();
        let r = self.ptr.alloc_bytes(count, align);
        proof {
            self.ptr.lemma_shape();
            assert(forall|j: int| 0 <= j < c0.len() ==> (#[trigger] c0[j]).1 >= 0) by {
                old(self).ptr.lemma_shape();
            }
            lemma_alloc_span(c0, count as int, align as int);
            assert(self.ptr.blocks()[r.arena as int].len() == self.ptr.chain()[r.arena as int].0);
        }
        r
    }

    /// Byte `i` of the span `s`.
    pub fn read(&self, s: ArenaSpan, i: usize) -> (r: u8)
        requires
            s.arena < self.blocks().len(),
            i < s.len,
            s.offset + s.len <= self.blocks()[s.arena as int].len(),
        ensures
            r == self.blocks()[s.arena as int][s.offset + i],
    {
        proof {
            self.ptr.lemma_shape();
        }
        self.ptr.read_byte(s.arena, s.offset + i)
    }

    /// Sets byte `i` of the span `s`, a span handed out before, to `v`.
    pub fn write(&mut self, s: ArenaSpan, i: usize, v: u8)
        requires
            old(self).wf(),
            s.arena < old(self).chain().len(),
            i < s.len,
            s.offset + s.len <= old(self).chain()[s.arena as int].1,
        ensures
            final(self).wf(),
            final(self).chain() == old(self).chain(),
            final(self).blocks() == old(self).blocks().update(
                s.arena as int,
                old(self).blocks()[s.arena as int].update(s.offset + i, v),
            ),
    {
        proof {
            self.ptr.lemma_shape();
            self.ptr.lemma_views();
            let j = s.arena as int;
            assert(self.ptr.chain()[j].1 <= self.ptr.chain()[j].0);
            assert(self.ptr.blocks()[j].len() == self.ptr.chain()[j].0);
            assert(self.ptr.blocks()[j].len() <= usize::MAX);
        }
        self.ptr.write_byte(s.arena, s.offset + i, v)
    }

    /// Leaves the arena as it is: blocks are only released with the arena.
    pub fn clear(&mut self)
        ensures
            final(self).chain() == old(self).chain(),
            final(self).blocks() == old(self).blocks(),
            final(self).wf() == old(self).wf(),
    {
    }
}

impl Default for Arena {
    fn default() -> (r: Self)
        ensures
            r.wf(),
            r.chain() == seq![(DEFAULT_CAPACITY as int, 0int)],
            r.blocks() == seq![zeros(DEFAULT_CAPACITY as int)],
    {
        Self::new()
    }
}

/// A value that can be built inside an arena.
pub trait FromArena<T>: Sized {
    fn new_arena(arena: &Arena, v: T) -> Self;
}

/// Why a handle into an arena could not be followed.
#[derive(Clone, Copy, Debug, PartialEq, Eq, Structural)]
pub enum MemoryException {
    NullPtr,
    DanglingPtr { address: usize },
    IndexOutOfBounds { index: usize, len: usize },
}

/// Rounding up to a multiple of the alignment lands on a multiple at or
/// after the fill.
pub proof fn lemma_aligned(next: int, align: int)
    requires
        next >= 0,
        align > 0,
        aligned(next, align) is Some,
    ensures
        aligned(next, align) matches Some(l) && l >= next && l % align == 0,
{
    if next % align != 0 {
        let l = next + (align - next % align);
        assert(l % align == 0) by (nonlinear_arith)
            requires
                align > 0,
                l == next + (align - next % align),
        ;
    }
}

/// A span is aligned, lies in its block strictly below the block's
/// capacity, starts at or after everything handed out from that block
/// before, and leaves the other blocks as they were.
pub proof fn lemma_alloc_span(chain: Seq<(int, int)>, count: int, align: int)
    requires
        alloc_spec(chain, count, align) is Some,
        count >= 0,
        forall|j: int| 0 <= j < chain.len() ==> (#[trigger] chain[j]).1 >= 0,
    ensures
        alloc_spec(chain, count, align) matches Some((c2, a, o)) && {
            &&& 0 <= a < c2.len()
            &&& 0 <= o
            &&& c2.len() == chain.len() || (c2.len() == chain.len() + 1 && a == chain.len())
            &&& o % align == 0
            &&& o + count < c2[a].0
            &&& c2[a].1 == o + count
            &&& a < chain.len() ==> o >= chain[a].1 && c2[a].0 == chain[a].0
            &&& forall|j: int| 0 <= j < chain.len() && j != a ==> c2[j] == chain[j]
        },
    decreases chain.len(),
{
    let (cap, next) = chain[0];
    lemma_aligned(next, align);
    let l = aligned(next, align).unwrap();
    if l + count < cap {
    } else if chain.len() > 1 {
        let rest = chain.drop_first();
        assert forall|j: int| 0 <= j < rest.len() implies (#[trigger] rest[j]).1 >= 0 by {
            assert(rest[j] == chain[j + 1]);
        }
        lemma_alloc_span(rest, count, align);
        let (c2r, ar, or) = alloc_spec(rest, count, align).unwrap();
        let c2 = seq![chain[0]] + c2r;
        assert forall|j: int| 0 <= j < chain.len() && j != ar + 1 implies c2[j] == chain[j] by {
            if j > 0 {
                assert(c2[j] == c2r[j - 1]);
                assert(rest[j - 1] == chain[j]);
            }
        }
        assert(c2[ar + 1] == c2r[ar]);
        if ar < rest.len() {
            assert(rest[ar] == chain[ar + 1]);
        }
    } else {
        assert(0int % align == 0);
    }
}

/// Two spans handed out one after the other from the same block do not
/// overlap: the second starts at or after the end of the first.
pub proof fn lemma_alloc_disjoint(chain: Seq<(int, int)>, count1: int, count2: int, align1: int, align2: int)
    requires
        count1 >= 0,
        count2 >= 0,
        forall|j: int| 0 <= j < chain.len() ==> (#[trigger] chain[j]).1 >= 0,
        alloc_spec(chain, count1, align1) matches Some((c1, a1, o1)) && alloc_spec(c1, count2, align2) is Some,
    ensures
        alloc_spec(chain, count1, align1) matches Some((c1, a1, o1)) && (alloc_spec(c1, count2, align2) matches Some(
            (c2, a2, o2),
        ) && (a1 == a2 ==> o1 + count1 <= o2)),
{
    lemma_alloc_span(chain, count1, align1);
    let (c1, a1, o1) = alloc_spec(chain, count1, align1).unwrap();
    assert forall|j: int| 0 <= j < c1.len() implies (#[trigger] c1[j]).1 >= 0 by {
        if j != a1 {
            assert(c1[j] == chain[j]);
        }
    }
    lemma_alloc_span(c1, count2, align2);
}


/// The chain after a run of requests (count, align) handed out one after
/// the other, with the spans (block position, offset, length) handed out,
/// in order. `None` where some request in the run could not be handed out.
pub open spec fn alloc_run(chain: Seq<(int, int)>, reqs: Seq<(int, int)>) -> Option<(Seq<(int, int)>, Seq<(int, int, int)>)>
    decreases reqs.len(),
{
    if reqs.len() == 0 {
        Some((chain, seq![]))
    } else {
        match alloc_run(chain, reqs.drop_last()) {
            None => None,
            Some((c, spans)) => match alloc_spec(c, reqs.last().0, reqs.last().1) {
                None => None,
                Some((c2, a, o)) => Some((c2, spans.push((a, o, reqs.last().0)))),
            },
        }
    }
}

/// What a run keeps: fills are non-negative, and every span handed out
/// lies in an existing block, below that block's fill.
pub open spec fn run_inv(c: Seq<(int, int)>, spans: Seq<(int, int, int)>) -> bool {
    &&& forall|j: int| 0 <= j < c.len() ==> (#[trigger] c[j]).1 >= 0
    &&& forall|i: int|
        0 <= i < spans.len() ==> 0 <= (#[trigger] spans[i]).0 < c.len() && 0 <= spans[i].1 && 0 <= spans[i].2
            && spans[i].1 + spans[i].2 <= c[spans[i].0].1
}

proof fn lemma_alloc_run_inv(chain: Seq<(int, int)>, reqs: Seq<(int, int)>)
    requires
        forall|j: int| 0 <= j < chain.len() ==> (#[trigger] chain[j]).1 >= 0,
        forall|i: int| 0 <= i < reqs.len() ==> (#[trigger] reqs[i]).0 >= 0,
        alloc_run(chain, reqs) is Some,
    ensures
        alloc_run(chain, reqs) matches Some((c, spans)) && run_inv(c, spans) && spans.len() == reqs.len() && forall|
            i: int,
            k: int,
        |
            0 <= i < k < spans.len() && (#[trigger] spans[i]).0 == (#[trigger] spans[k]).0 ==> spans[i].1
                + spans[i].2 <= spans[k].1,
    decreases reqs.len(),
{
    if reqs.len() > 0 {
        let rs = reqs.drop_last();
        assert forall|i: int| 0 <= i < rs.len() implies (#[trigger] rs[i]).0 >= 0 by {
            assert(rs[i] == reqs[i]);
        }
        lemma_alloc_run_inv(chain, rs);
        let (c, spans) = alloc_run(chain, rs).unwrap();
        let (count, align) = reqs.last();
        assert(count == reqs[reqs.len() - 1].0);
        lemma_alloc_span(c, count, align);
        let (c2, a, o) = alloc_spec(c, count, align).unwrap();
        let spans2 = spans.push((a, o, count));
        assert forall|j: int| 0 <= j < c2.len() implies (#[trigger] c2[j]).1 >= 0 by {
            if j != a {
                assert(c2[j] == c[j]);
            }
        }
        assert forall|i: int| 0 <= i < spans2.len() implies 0 <= (#[trigger] spans2[i]).0 < c2.len() && 0
            <= spans2[i].1 && 0 <= spans2[i].2 && spans2[i].1 + spans2[i].2 <= c2[spans2[i].0].1 by {
            if i < spans.len() {
                assert(spans2[i] == spans[i]);
                let b = spans[i].0;
                if b != a {
                    assert(c2[b] == c[b]);
                }
            }
        }
        assert forall|i: int, k: int|
            0 <= i < k < spans2.len() && (#[trigger] spans2[i]).0 == (#[trigger] spans2[k]).0 implies spans2[i].1
                + spans2[i].2 <= spans2[k].1 by {
            assert(spans2[i] == spans[i]);
            if k < spans.len() {
                assert(spans2[k] == spans[k]);
            } else {
                assert(spans[i].0 < c.len());
            }
        }
    }
}

/// The spans that a run of requests hands out never overlap: of two spans
/// in the same block, the later one starts at or after the end of the
/// earlier one.
pub proof fn lemma_alloc_run_disjoint(chain: Seq<(int, int)>, reqs: Seq<(int, int)>)
    requires
        forall|j: int| 0 <= j < chain.len() ==> (#[trigger] chain[j]).1 >= 0,
        forall|i: int| 0 <= i < reqs.len() ==> (#[trigger] reqs[i]).0 >= 0,
        alloc_run(chain, reqs) is Some,
    ensures
        alloc_run(chain, reqs) matches Some((c, spans)) && spans.len() == reqs.len() && forall|i: int, k: int|
            0 <= i < k < spans.len() && (#[trigger] spans[i]).0 == (#[trigger] spans[k]).0 ==> spans[i].1
                + spans[i].2 <= spans[k].1,
{
    lemma_alloc_run_inv(chain, reqs);
}

} // verus!
