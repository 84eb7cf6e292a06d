use vstd::prelude::*;

verus! {

/// The one error kind of the early allocator's operations.
#[derive(Debug, Clone, Copy, PartialEq, Eq, Structural)]
pub enum AllocError {
    /// The region has no room for the request, or cannot grow.
    NoMemory,
    /// The operation is not offered by this allocator.
    Unsupported,
}

/// Holds when `n` is a power of two. For a literal `2^k`, a caller settles
/// it with `reveal_with_fuel(is_pow2, k + 1)`.
pub open spec fn is_pow2(n: int) -> bool
    decreases n,
{
    if n <= 1 {
        n == 1
    } else {
        n % 2 == 0 && is_pow2(n / 2)
    }
}

/// Early memory allocator, to be used before the formal byte and page
/// allocators can work. It manages one fixed, double-ended range:
/// bytes are handed out forward from `start`, pages backward from `end`.
///
/// ```text
/// [ bytes-used | avail-area | pages-used ]
/// |            | -->    <-- |            |
/// start       b_pos        p_pos       end
/// ```
///
/// On the byte side `byte_count` records the number of live allocations;
/// when it goes back to zero the whole byte area is freed at once.
/// The page side is never freed.
pub struct EarlyAllocator<const SIZE: usize> {
    start: usize,
    end: usize,
    b_pos: usize,
    p_pos: usize,
    byte_count: usize,
}

/// `x` rounded up to the next multiple of `align`.
pub open spec fn align_up(x: int, align: int) -> int {
    if x % align == 0 {
        x
    } else {
        x + (align - x % align)
    }
}

/// `x` rounded down to a multiple of `align`.
pub open spec fn align_down(x: int, align: int) -> int {
    x - x % align
}

/// A power of two is positive.
pub proof fn lemma_pow2_pos(n: int)
    requires
        is_pow2(n),
    ensures
        n > 0,
{
}

/// Rounding up gives the least multiple of `align` that is at least `x`.
pub proof fn lemma_align_up(x: int, align: int)
    requires
        x >= 0,
        align > 0,
    ensures
        x <= align_up(x, align) < x + align,
        align_up(x, align) % align == 0,
{
    vstd::arithmetic::div_mod::lemma_fundamental_div_mod(x, align);
    vstd::arithmetic::div_mod::lemma_mod_pos_bound(x, align);
    if x % align != 0 {
        assert(align_up(x, align) == (x / align + 1) * align) by (nonlinear_arith)
            requires
                x == align * (x / align) + x % align,
                align_up(x, align) == x + (align - x % align),
        ;
        vstd::arithmetic::div_mod::lemma_mod_multiples_basic(x / align + 1, align);
    }
}

/// Rounding down gives the greatest multiple of `align` that is at most `x`.
pub proof fn lemma_align_down(x: int, align: int)
    requires
        x >= 0,
        align > 0,
    ensures
        0 <= align_down(x, align) <= x,
        x - align_down(x, align) < align,
        align_down(x, align) % align == 0,
{
    vstd::arithmetic::div_mod::lemma_fundamental_div_mod(x, align);
    vstd::arithmetic::div_mod::lemma_mod_pos_bound(x, align);
    assert(align_down(x, align) == (x / align) * align) by (nonlinear_arith)
        requires
            x == align * (x / align) + x % align,
            align_down(x, align) == x - x % align,
    ;
    vstd::arithmetic::div_mod::lemma_mod_multiples_basic(x / align, align);
}

impl<const SIZE: usize> EarlyAllocator<SIZE> {
    /// Granularity of the page side.
    pub open spec fn page_size_spec() -> int {
        SIZE as int
    }

    /// First address of the region.
    pub closed spec fn start(&self) -> int {
        self.start as int
    }

    /// One past the last address of the region.
    pub closed spec fn end(&self) -> int {
        self.end as int
    }

    /// Next free address of the byte side; moves forward.
    pub closed spec fn byte_cursor(&self) -> int {
        self.b_pos as int
    }

    /// Lowest address handed out to the page side; moves backward.
    pub closed spec fn page_cursor(&self) -> int {
        self.p_pos as int
    }

    /// Number of byte allocations not yet ended.
    pub closed spec fn count(&self) -> int {
        self.byte_count as int
    }

    /// The region invariant.
    pub closed spec fn wf(&self) -> bool {
        &&& is_pow2(SIZE as int)
        &&& self.start <= self.b_pos <= self.p_pos <= self.end
        &&& self.byte_count == 0 ==> self.b_pos == self.start
    }

    pub fn new() -> (r: Self)
        requires
            is_pow2(SIZE as int),
        ensures
            r.wf(),
            r.start() == 0,
            r.end() == 0,
            r.byte_cursor() == 0,
            r.page_cursor() == 0,
            r.count() == 0,
    {
        EarlyAllocator { start: 0, end: 0, b_pos: 0, p_pos: 0, byte_count: 0 }
    }
    /// Where a byte allocation aligned to `align` would start.
    pub open spec fn byte_slot(&self, align: int) -> int {
        align_up(self.byte_cursor(), align)
    }

    /// Whether a byte allocation of `size` aligned to `align` fits.
    pub open spec fn byte_fits(&self, size: int, align: int) -> bool {
        self.byte_slot(align) + size <= self.page_cursor()
    }

    /// Where an allocation of `num_pages` pages aligned to `align` would
    /// start, if it fits.
    pub open spec fn page_slot(&self, num_pages: int, align: int) -> int {
        align_down(self.page_cursor() - num_pages * Self::page_size_spec(), align)
    }

    /// Whether an allocation of `num_pages` pages aligned to `align` fits.
    pub open spec fn pages_fit(&self, num_pages: int, align: int) -> bool {
        &&& num_pages * Self::page_size_spec() <= self.page_cursor()
        &&& self.page_slot(num_pages, align) >= self.byte_cursor()
    }

    pub open spec fn total_bytes_spec(&self) -> int {
        self.end() - self.start()
    }

    pub open spec fn used_bytes_spec(&self) -> int {
        self.byte_cursor() - self.start()
    }

    pub open spec fn available_bytes_spec(&self) -> int {
        if self.page_cursor() > self.byte_cursor() {
            self.page_cursor() - self.byte_cursor()
        } else {
            0
        }
    }

    pub open spec fn total_pages_spec(&self) -> int {
        (self.end() - self.start()) / Self::page_size_spec()
    }

    pub open spec fn used_pages_spec(&self) -> int {
        (self.end() - self.page_cursor()) / Self::page_size_spec()
    }

    pub open spec fn available_pages_spec(&self) -> int {
        self.available_bytes_spec() / Self::page_size_spec()
    }

    /// The granularity of the page side.
    pub fn page_size() -> (r: usize)
        ensures
            r == Self::page_size_spec(),
    {
        SIZE
    }

    /// Sets the managed region to `[start, start + size)`, with both areas
    /// empty.
    pub fn init(&mut self, start: usize, size: usize)
        requires
            is_pow2(SIZE as int),
            start + size <= usize::MAX,
        ensures
            final(self).wf(),
            final(self).start() == start,
            final(self).end() == start + size,
            final(self).byte_cursor() == start,
            final(self).page_cursor() == start + size,
            final(self).count() == 0,
    {
        self.start = start;
        self.b_pos = start;
        self.p_pos = start + size;
        self.end = start + size;
        self.byte_count = 0;
    }

    /// The region is fixed once set: growing it always fails.
    pub fn extend(&mut self, start: usize, size: usize) -> (r: Result<(), AllocError>)
        ensures
            r == Err::<(), AllocError>(AllocError::NoMemory),
            *final(self) == *old(self),
    {
        Err(AllocError::NoMemory)
    }

    /// Bump-allocates `size` bytes aligned to `align` from the front of the
    /// free area.
    pub fn allocate(&mut self, size: usize, align: usize) -> (r: Result<usize, AllocError>)
        requires
            old(self).wf(),
            is_pow2(align as int),
            old(self).count() < usize::MAX,
        ensures
            final(self).wf(),
            final(self).start() == old(self).start(),
            final(self).end() == old(self).end(),
            final(self).page_cursor() == old(self).page_cursor(),
            final(self).total_pages_spec() == old(self).total_pages_spec(),
            old(self).byte_fits(size as int, align as int) ==> {
                &&& r == Ok::<usize, AllocError>(old(self).byte_slot(align as int) as usize)
                &&& final(self).byte_cursor() == old(self).byte_slot(align as int) + size
                &&& final(self).count() == old(self).count() + 1
            },
            !old(self).byte_fits(size as int, align as int) ==> {
                &&& r == Err::<usize, AllocError>(AllocError::NoMemory)
                &&& *final(self) == *old(self)
            },
            r matches Ok(a) ==> {
                &&& a % align == 0
                &&& a >= old(self).byte_cursor()
                &&& a + size <= old(self).page_cursor()
            },
    {
        proof {
            lemma_pow2_pos(align as int);
            lemma_align_up(self.b_pos as int, align as int);
        }
        let misalign = self.b_pos % align;
        let addr = if misalign != 0 {
            match self.b_pos.checked_add(align - misalign) {
                Some(a) => a,
                None => return Err(AllocError::NoMemory),
            }
        } else {
            self.b_pos
        };
        let new_pos = match addr.checked_add(size) {
            Some(e) => e,
            None => return Err(AllocError::NoMemory),
        };
        if new_pos > self.p_pos {
            return Err(AllocError::NoMemory);
        }
        self.b_pos = new_pos;
        self.byte_count = self.byte_count + 1;
        Ok(addr)
    }

    /// Ends one byte allocation. Allocations are matched by count alone: the
    /// whole byte area is freed once no allocation is left.
    pub fn deallocate(&mut self, pos: usize, size: usize, align: usize)
        requires
            old(self).wf(),
            old(self).count() > 0,
        ensures
            final(self).wf(),
            final(self).start() == old(self).start(),
            final(self).end() == old(self).end(),
            final(self).page_cursor() == old(self).page_cursor(),
            final(self).total_pages_spec() == old(self).total_pages_spec(),
            final(self).count() == old(self).count() - 1,
            final(self).count() == 0 ==> final(self).byte_cursor() == old(self).start(),
            final(self).count() != 0 ==> final(self).byte_cursor() == old(self).byte_cursor(),
    {
        self.byte_count = self.byte_count - 1;
        if self.byte_count == 0 {
            self.b_pos = self.start;
        }
    }

    pub fn total_bytes(&self) -> (r: usize)
        requires
            self.wf(),
        ensures
            r == self.total_bytes_spec(),
    {
        self.end - self.start
    }

    pub fn used_bytes(&self) -> (r: usize)
        requires
            self.wf(),
        ensures
            r == self.used_bytes_spec(),
    {
        self.b_pos - self.start
    }

    pub fn available_bytes(&self) -> (r: usize)
        requires
            self.wf(),
        ensures
            r == self.available_bytes_spec(),
    {
        if self.p_pos > self.b_pos {
            self.p_pos - self.b_pos
        } else {
            0
        }
    }

    /// Bump-allocates `num_pages` pages backward from the end of the free
    /// area, at an address aligned to `align_pow2`. Pages are never freed.
    pub fn allocate_pages(&mut self, num_pages: usize, align_pow2: usize) -> (r: Result<
        usize,
        AllocError,
    >)
        requires
            old(self).wf(),
            is_pow2(align_pow2 as int),
        ensures
            final(self).wf(),
            final(self).start() == old(self).start(),
            final(self).end() == old(self).end(),
            final(self).byte_cursor() == old(self).byte_cursor(),
            final(self).count() == old(self).count(),
            final(self).total_pages_spec() == old(self).total_pages_spec(),
            old(self).pages_fit(num_pages as int, align_pow2 as int) ==> {
                &&& r == Ok::<usize, AllocError>(
                    old(self).page_slot(num_pages as int, align_pow2 as int) as usize,
                )
                &&& final(self).page_cursor() == old(self).page_slot(
                    num_pages as int,
                    align_pow2 as int,
                )
            },
            !old(self).pages_fit(num_pages as int, align_pow2 as int) ==> {
                &&& r == Err::<usize, AllocError>(AllocError::NoMemory)
                &&& *final(self) == *old(self)
            },
            r matches Ok(p) ==> {
                &&& p % align_pow2 == 0
                &&& p >= old(self).byte_cursor()
                &&& p + num_pages * SIZE <= old(self).page_cursor()
                &&& final(self).page_cursor() == p
            },
    {
        proof {
            lemma_pow2_pos(align_pow2 as int);
            lemma_pow2_pos(SIZE as int);
            assert(num_pages * SIZE >= 0) by (nonlinear_arith)
                requires
                    num_pages >= 0,
                    SIZE > 0,
            ;
        }
        let size = match num_pages.checked_mul(SIZE) {
            Some(s) => s,
            None => return Err(AllocError::NoMemory),
        };
        let candidate = match self.p_pos.checked_sub(size) {
            Some(c) => c,
            None => return Err(AllocError::NoMemory),
        };
        proof {
            lemma_align_down(candidate as int, align_pow2 as int);
        }
        let addr = candidate - candidate % align_pow2;
        if addr < self.b_pos {
            return Err(AllocError::NoMemory);
        }
        self.p_pos = addr;
        Ok(addr)
    }

    /// Pages are never given back: this always fails and changes nothing.
    pub fn deallocate_pages(&mut self, pos: usize, num_pages: usize) -> (r: Result<(), AllocError>)
        ensures
            r == Err::<(), AllocError>(AllocError::Unsupported),
            *final(self) == *old(self),
    {
        Err(AllocError::Unsupported)
    }

    pub fn total_pages(&self) -> (r: usize)
        requires
            self.wf(),
        ensures
            r == self.total_pages_spec(),
    {
        proof {
            lemma_pow2_pos(SIZE as int);
        }
        (self.end - self.start) / SIZE
    }

    pub fn used_pages(&self) -> (r: usize)
        requires
            self.wf(),
        ensures
            r == self.used_pages_spec(),
    {
        proof {
            lemma_pow2_pos(SIZE as int);
        }
        (self.end - self.p_pos) / SIZE
    }

    pub fn available_pages(&self) -> (r: usize)
        requires
            self.wf(),
        ensures
            r == self.available_pages_spec(),
    {
        proof {
            lemma_pow2_pos(SIZE as int);
        }
        if self.p_pos > self.b_pos {
            (self.p_pos - self.b_pos) / SIZE
        } else {
            0
        }
    }
    /// Successive byte allocations never overlap: after one allocation of
    /// `size1` bytes, the next one, whatever its alignment, starts at or
    /// after the end of the first, and the byte cursor has not moved back.
    pub proof fn lemma_byte_allocations_disjoint(
        before: Self,
        after: Self,
        size1: int,
        align1: int,
        align2: int,
    )
        requires
            before.wf(),
            is_pow2(align1),
            is_pow2(align2),
            size1 >= 0,
            before.byte_fits(size1, align1),
            after.byte_cursor() == before.byte_slot(align1) + size1,
        ensures
            before.byte_cursor() <= before.byte_slot(align1),
            before.byte_slot(align1) + size1 <= after.byte_slot(align2),
            before.byte_cursor() <= after.byte_cursor(),
    {
        lemma_pow2_pos(align1);
        lemma_pow2_pos(align2);
        lemma_align_up(before.byte_cursor(), align1);
        lemma_align_up(after.byte_cursor(), align2);
    }

    /// The used and the available bytes never add up to more than the
    /// region, and add up to all of it while no page has been allocated.
    pub proof fn lemma_byte_accounting(s: Self)
        requires
            s.wf(),
        ensures
            s.used_bytes_spec() + s.available_bytes_spec() <= s.total_bytes_spec(),
            s.page_cursor() == s.end() ==> s.used_bytes_spec() + s.available_bytes_spec()
                == s.total_bytes_spec(),
    {
    }

    /// Once every byte allocation has been ended, the byte cursor is back at
    /// the start and everything below the page cursor is available again.
    pub proof fn lemma_balanced_count_reclaims(s: Self)
        requires
            s.wf(),
            s.count() == 0,
        ensures
            s.byte_cursor() == s.start(),
            s.available_bytes_spec() == s.page_cursor() - s.start(),
    {
    }
}

} // verus!
