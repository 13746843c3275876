//! Double-ended region allocator for early boot.
//!
//! One contiguous address range `[start, end)` serves two zones: byte
//! allocations grow forward from `start` through the cursor `b_pos`, and
//! page allocations grow backward from `end` through the cursor `p_pos`.
//! The gap `[b_pos, p_pos)` is the space still free for either side.
//!
//! The byte zone is an arena with a reference count: freeing never reclaims
//! a single allocation, but once the count of live byte allocations returns
//! to zero the whole byte zone is reset to `start`. The page zone never
//! shrinks back.

use vstd::arithmetic::div_mod::{
    lemma_fundamental_div_mod, lemma_mod_bound, lemma_mod_multiples_basic, lemma_small_mod,
};
use vstd::prelude::*;

verus! {

/// Errors the allocator can report.
#[derive(Clone, Copy, Debug, PartialEq, Eq, Structural)]
pub enum AllocError {
    /// Satisfying the request would make the byte zone and the page zone
    /// collide.
    MemoryOverlap,
    /// The capability is deliberately not offered by this allocator.
    Unsupported,
}

/// Mathematical model of the allocator state: the region bounds, the two
/// cursors, and the number of live byte allocations.
pub ghost struct RegionModel {
    pub start: int,
    pub end: int,
    pub b_pos: int,
    pub p_pos: int,
    pub count: int,
}

impl RegionModel {
    /// The invariant that every operation preserves: the cursors stay inside
    /// the region and never cross, and an empty byte zone sits at `start`.
    pub open spec fn inv(self) -> bool {
        &&& 0 <= self.start <= self.b_pos <= self.p_pos <= self.end <= usize::MAX as int
        &&& 0 <= self.count
        &&& (self.count == 0 ==> self.b_pos == self.start)
    }

    /// Size of the whole region in bytes.
    pub open spec fn total_bytes(self) -> int {
        self.end - self.start
    }

    /// Bytes handed out by the byte zone so far.
    pub open spec fn used_bytes(self) -> int {
        self.b_pos - self.start
    }

    /// Bytes of the gap still free for either zone.
    pub open spec fn available_bytes(self) -> int {
        self.p_pos - self.b_pos
    }

    /// Whole pages the region could ever hold.
    pub open spec fn total_pages(self, page_size: int) -> int {
        (self.end - self.start) / page_size
    }

    /// Whole pages handed out by the page zone so far.
    pub open spec fn used_pages(self, page_size: int) -> int {
        (self.end - self.p_pos) / page_size
    }

    /// Whole pages that still fit into the gap.
    pub open spec fn available_pages(self, page_size: int) -> int {
        (self.p_pos - self.b_pos) / page_size
    }
}

/// `a` is a positive power of two.
pub open spec fn is_pow2(a: int) -> bool
    decreases a,
{
    if a <= 0 {
        false
    } else if a == 1 {
        true
    } else {
        a % 2 == 0 && is_pow2(a / 2)
    }
}

/// The least multiple of `a` that is at least `x`.
pub open spec fn align_up(x: int, a: int) -> int {
    if x % a == 0 {
        x
    } else {
        x + a - x % a
    }
}

/// The greatest multiple of `a` that is at most `x`.
pub open spec fn align_down(x: int, a: int) -> int {
    x - x % a
}

pub proof fn lemma_align_up_props(x: int, a: int)
    requires
        0 <= x,
        0 < a,
    ensures
        x <= align_up(x, a) < x + a,
        align_up(x, a) % a == 0,
{
    lemma_mod_bound(x, a);
    lemma_fundamental_div_mod(x, a);
    if x % a != 0 {
        let q = x / a;
        assert((q + 1) * a == a * q + a) by (nonlinear_arith);
        assert(align_up(x, a) == (q + 1) * a);
        lemma_mod_multiples_basic(q + 1, a);
    }
}

pub proof fn lemma_align_down_props(x: int, a: int)
    requires
        0 <= x,
        0 < a,
    ensures
        x - a < align_down(x, a) <= x,
        0 <= align_down(x, a),
        align_down(x, a) % a == 0,
{
    lemma_mod_bound(x, a);
    lemma_fundamental_div_mod(x, a);
    let q = x / a;
    assert(q * a == a * q) by (nonlinear_arith);
    assert(align_down(x, a) == q * a);
    lemma_mod_multiples_basic(q, a);
    if x < a {
        lemma_small_mod(x as nat, a as nat);
    }
}

/// The state `init(start, size)` establishes.
pub open spec fn init_model(start: int, size: int) -> RegionModel {
    RegionModel {
        start: start,
        end: start + size,
        b_pos: start,
        p_pos: start + size,
        count: 0,
    }
}

/// Whether a byte request of `size` bytes at alignment `align` fits into the
/// gap: the rounded-up cursor plus the size must not cross the page cursor.
pub open spec fn bytes_fit(m: RegionModel, size: int, align: int) -> bool {
    align_up(m.b_pos, align) + size <= m.p_pos
}

/// Effect of a byte allocation on the model: on success the byte cursor
/// advances past the aligned block and the live count rises; a refused
/// request changes nothing.
pub open spec fn bytes_alloc_model(m: RegionModel, size: int, align: int) -> RegionModel {
    if bytes_fit(m, size, align) {
        RegionModel {
            start: m.start,
            end: m.end,
            b_pos: align_up(m.b_pos, align) + size,
            p_pos: m.p_pos,
            count: m.count + 1,
        }
    } else {
        m
    }
}

/// Effect of a byte free on the model: the live count drops, and when it
/// reaches zero the whole byte zone is reclaimed at once.
pub open spec fn bytes_free_model(m: RegionModel) -> RegionModel {
    RegionModel {
        start: m.start,
        end: m.end,
        b_pos: if m.count == 1 {
            m.start
        } else {
            m.b_pos
        },
        p_pos: m.p_pos,
        count: m.count - 1,
    }
}

/// Whether a page request of `size` bytes at alignment `align` fits: the
/// page cursor, moved down by `size` and rounded down to `align`, must not
/// cross the byte cursor.
pub open spec fn pages_fit(m: RegionModel, size: int, align: int) -> bool {
    &&& size <= m.p_pos - m.b_pos
    &&& align_down(m.p_pos - size, align) >= m.b_pos
}

/// Effect of a page allocation on the model: on success the page cursor
/// drops to the aligned base of the new block; a refused request changes
/// nothing.
pub open spec fn pages_alloc_model(m: RegionModel, size: int, align: int) -> RegionModel {
    if pages_fit(m, size, align) {
        RegionModel {
            start: m.start,
            end: m.end,
            b_pos: m.b_pos,
            p_pos: align_down(m.p_pos - size, align),
            count: m.count,
        }
    } else {
        m
    }
}

/// Early boot memory allocator over one fixed region, with a forward byte
/// zone and a backward page zone. `PAGE_SIZE` is the fixed page size of the
/// instance.
pub struct EarlyAllocator<const PAGE_SIZE: usize> {
    start: usize,
    end: usize,
    b_pos: usize,
    p_pos: usize,
    count: usize,
}

impl<const PAGE_SIZE: usize> EarlyAllocator<PAGE_SIZE> {
    /// The model this allocator currently realizes.
    pub closed spec fn view(self) -> RegionModel {
        RegionModel {
            start: self.start as int,
            end: self.end as int,
            b_pos: self.b_pos as int,
            p_pos: self.p_pos as int,
            count: self.count as int,
        }
    }

    /// The allocator is well formed: its model satisfies the region
    /// invariant.
    pub open spec fn wf(self) -> bool {
        self@.inv()
    }

    /// An empty, uninitialized allocator. Usable only after `init`.
    pub fn new() -> (r: Self)
        ensures
            r.wf(),
            r@ == (RegionModel { start: 0, end: 0, b_pos: 0, p_pos: 0, count: 0 }),
    {
        Self { start: 0, end: 0, b_pos: 0, p_pos: 0, count: 0 }
    }

    /// Take ownership of the region `[start, start + size)`. May be called
    /// again: all prior accounting is silently discarded.
    pub fn init(&mut self, start: usize, size: usize)
        requires
            start + size <= usize::MAX,
        ensures
            final(self).wf(),
            final(self)@ == init_model(start as int, size as int),
    {
        self.start = start;
        self.end = start + size;
        self.b_pos = start;
        self.p_pos = self.end;
        self.count = 0;
    }

    /// Growing the managed region is deliberately not supported: this
    /// allocator manages exactly one static region for the boot phase.
    pub fn add_memory(&mut self, _start: usize, _size: usize) -> (r: Result<(), AllocError>)
        ensures
            final(self)@ == old(self)@,
            r == Err::<(), AllocError>(AllocError::Unsupported),
    {
        Err(AllocError::Unsupported)
    }

    /// Allocate `size` bytes at alignment `align` from the byte zone.
    ///
    /// The byte cursor is rounded up to the next multiple of `align`; that
    /// rounded address is returned and the cursor advances past the block.
    /// A request that would cross the page cursor is refused and leaves the
    /// allocator unchanged.
    pub fn alloc_bytes(&mut self, size: usize, align: usize) -> (r: Result<usize, AllocError>)
        requires
            old(self).wf(),
            is_pow2(align as int),
            old(self)@.count < usize::MAX,
        ensures
            final(self).wf(),
            final(self)@ == bytes_alloc_model(old(self)@, size as int, align as int),
            bytes_fit(old(self)@, size as int, align as int) ==> r == Ok::<usize, AllocError>(
                align_up(old(self)@.b_pos, align as int) as usize,
            ),
            !bytes_fit(old(self)@, size as int, align as int) ==> r == Err::<usize, AllocError>(
                AllocError::MemoryOverlap,
            ),
            r matches Ok(a) ==> a as int % align as int == 0,
    {
        proof {
            lemma_align_up_props(self.b_pos as int, align as int);
        }
        let rem = self.b_pos % align;
        let pad = if rem == 0 {
            0
        } else {
            align - rem
        };
        let avail = self.p_pos - self.b_pos;
        if pad <= avail && size <= avail - pad {
            let aligned = self.b_pos + pad;
            self.b_pos = aligned + size;
            self.count = self.count + 1;
            Ok(aligned)
        } else {
            Err(AllocError::MemoryOverlap)
        }
    }

    /// Release one byte allocation. The specific address and layout are not
    /// used: only the live count drops, and when it reaches zero the whole
    /// byte zone is reset to `start`.
    pub fn dealloc(&mut self, _pos: usize, _size: usize, _align: usize)
        requires
            old(self).wf(),
            old(self)@.count > 0,
        ensures
            final(self).wf(),
            final(self)@ == bytes_free_model(old(self)@),
    {
        self.count = self.count - 1;
        if self.count == 0 {
            self.b_pos = self.start;
        }
    }

    /// Size of the whole region in bytes.
    pub fn total_bytes(&self) -> (r: usize)
        requires
            self.wf(),
        ensures
            r == self@.total_bytes(),
    {
        self.end - self.start
    }

    /// Bytes handed out by the byte zone so far.
    pub fn used_bytes(&self) -> (r: usize)
        requires
            self.wf(),
        ensures
            r == self@.used_bytes(),
    {
        self.b_pos - self.start
    }

    /// Bytes of the gap still free for either zone.
    pub fn available_bytes(&self) -> (r: usize)
        requires
            self.wf(),
        ensures
            r == self@.available_bytes(),
    {
        self.p_pos - self.b_pos
    }

    /// Allocate `num_pages` contiguous pages, aligned to `1 << align_pow2`
    /// bytes, from the page zone.
    ///
    /// The page cursor tentatively moves down by the requested size and is
    /// rounded down to the alignment; if that would cross the byte cursor
    /// the request is refused with `MemoryOverlap` and the cursor keeps its
    /// pre-call value.
    pub fn alloc_pages(&mut self, num_pages: usize, align_pow2: usize) -> (r: Result<
        usize,
        AllocError,
    >)
        requires
            old(self).wf(),
            PAGE_SIZE > 0,
            align_pow2 < usize::BITS,
            num_pages * PAGE_SIZE <= usize::MAX,
        ensures
            final(self).wf(),
            final(self)@ == pages_alloc_model(
                old(self)@,
                num_pages * PAGE_SIZE,
                (1usize << align_pow2) as int,
            ),
            pages_fit(old(self)@, num_pages * PAGE_SIZE, (1usize << align_pow2) as int) ==> r
                == Ok::<usize, AllocError>(
                align_down(
                    old(self)@.p_pos - num_pages * PAGE_SIZE,
                    (1usize << align_pow2) as int,
                ) as usize,
            ),
            !pages_fit(old(self)@, num_pages * PAGE_SIZE, (1usize << align_pow2) as int) ==> r
                == Err::<usize, AllocError>(AllocError::MemoryOverlap),
            r matches Ok(a) ==> a as int % ((1usize << align_pow2) as int) == 0,
    {
        proof {
            assert(1usize << align_pow2 >= 1) by (bit_vector)
                requires
                    align_pow2 < usize::BITS,
            ;
        }
        let size = num_pages * PAGE_SIZE;
        let align = 1usize << align_pow2;
        let avail = self.p_pos - self.b_pos;
        if size > avail {
            return Err(AllocError::MemoryOverlap);
        }
        let candidate = self.p_pos - size;
        proof {
            lemma_align_down_props(candidate as int, align as int);
        }
        let aligned = candidate - candidate % align;
        if aligned < self.b_pos {
            return Err(AllocError::MemoryOverlap);
        }
        self.p_pos = aligned;
        Ok(aligned)
    }

    /// Releasing page-zone memory is deliberately not supported: once
    /// granted, a page run belongs to its allocatee for the remainder of
    /// this allocator's life.
    pub fn dealloc_pages(&mut self, _pos: usize, _num_pages: usize) -> (r: Result<
        (),
        AllocError,
    >)
        ensures
            final(self)@ == old(self)@,
            r == Err::<(), AllocError>(AllocError::Unsupported),
    {
        Err(AllocError::Unsupported)
    }

    /// Whole pages the region could ever hold.
    pub fn total_pages(&self) -> (r: usize)
        requires
            self.wf(),
            PAGE_SIZE > 0,
        ensures
            r == self@.total_pages(PAGE_SIZE as int),
    {
        (self.end - self.start) / PAGE_SIZE
    }

    /// Whole pages handed out by the page zone so far.
    pub fn used_pages(&self) -> (r: usize)
        requires
            self.wf(),
            PAGE_SIZE > 0,
        ensures
            r == self@.used_pages(PAGE_SIZE as int),
    {
        (self.end - self.p_pos) / PAGE_SIZE
    }

    /// Whole pages that still fit into the gap.
    pub fn available_pages(&self) -> (r: usize)
        requires
            self.wf(),
            PAGE_SIZE > 0,
        ensures
            r == self@.available_pages(PAGE_SIZE as int),
    {
        (self.p_pos - self.b_pos) / PAGE_SIZE
    }

    /// The fixed page size of this allocator instance.
    pub fn page_size(&self) -> (r: usize)
        ensures
            r == PAGE_SIZE,
    {
        PAGE_SIZE
    }
}

} // verus!
