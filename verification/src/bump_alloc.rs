//! A bump allocator: it hands out memory from the start of its heap upward and never
//! takes any back.
use vstd::prelude::*;

verus! {

use vstd::arithmetic::power2::{pow2, is_pow2, is_pow2_exists};

/// `x` rounded up to a multiple of `align`.
pub open spec fn round_up(x: int, align: int) -> int {
    x + (align - x % align) % align
}

/// Where a request of `size` bytes aligned to `align` lands when the next free byte
/// is `current` and the heap ends at `heap_end`: the block's start and the new next
/// free byte, or `None` when the rounding or the block would pass the end of the
/// address space or the block would pass the end of the heap.
pub open spec fn bump_target(current: int, heap_end: int, size: int, align: int) -> Option<(int, int)> {
    if current + align - 1 > usize::MAX {
        None
    } else {
        let aligned = round_up(current, align);
        if aligned + size > usize::MAX || aligned + size > heap_end {
            None
        } else {
            Some((aligned, aligned + size))
        }
    }
}

proof fn lemma_align_mask(x: usize, align: usize)
    requires
        is_pow2(align as int),
        x + align - 1 <= usize::MAX,
    ensures
        ((x + align - 1) as usize & !((align - 1) as usize)) == round_up(x as int, align as int),
        round_up(x as int, align as int) % (align as int) == 0,
        x <= round_up(x as int, align as int) < x + align,
{
    vstd::arithmetic::power2::is_pow2_equiv(align as int);
    let k = choose|i: nat| vstd::arithmetic::power::pow(2, i) == align as int;
    vstd::arithmetic::power2::lemma_pow2(k);
    vstd::layout::unsigned_int_max_values();
    if k >= usize::BITS {
        if k > usize::BITS {
            vstd::arithmetic::power2::lemma_pow2_strictly_increases(usize::BITS as nat, k);
        }
        assert(false);
    }
    let y = (x + align - 1) as usize;
    vstd::bits::lemma_usize_low_bits_mask_is_mod(y, k);
    vstd::arithmetic::power2::lemma_pow2_pos(k);
    assert(vstd::bits::low_bits_mask(k) == pow2(k) - 1);
    let m = (align - 1) as usize;
    assert(y & !m == y - (y & m)) by (bit_vector);
    vstd::arithmetic::div_mod::lemma_fundamental_div_mod(x as int, align as int);
    vstd::arithmetic::div_mod::lemma_fundamental_div_mod(y as int, align as int);
    let q = x as int / align as int;
    let r = x as int % align as int;
    if r == 0 {
        assert(y as int == align * q + (align - 1));
        vstd::arithmetic::div_mod::lemma_mod_self_0(align as int);
        assert(q * align == align * q) by (nonlinear_arith);
        vstd::arithmetic::div_mod::lemma_fundamental_div_mod_converse(y as int, align as int, q, align - 1);
        vstd::arithmetic::div_mod::lemma_mod_multiples_basic(q, align as int);
    } else {
        assert(align * (q + 1) == align * q + align) by (nonlinear_arith);
        assert(y as int == align * (q + 1) + (r - 1));
        assert((q + 1) * align == align * (q + 1)) by (nonlinear_arith);
        vstd::arithmetic::div_mod::lemma_fundamental_div_mod_converse(y as int, align as int, q + 1, r - 1);
        vstd::arithmetic::div_mod::lemma_mod_multiples_basic(q + 1, align as int);
        assert((align - r) % (align as int) == align - r) by {
            vstd::arithmetic::div_mod::lemma_small_mod((align - r) as nat, align as nat);
        }
    }
}

/// A request lands at the first multiple of its alignment at or after the next free
/// byte, and the next free byte moves to just past it, still inside the heap.
pub proof fn lemma_bump_target(current: usize, heap_end: usize, size: usize, align: usize)
    requires
        is_pow2(align as int),
    ensures
        bump_target(current as int, heap_end as int, size as int, align as int) matches Some((a, e)) ==> {
            &&& a % (align as int) == 0
            &&& current <= a < current + align
            &&& e == a + size
            &&& e <= heap_end
        },
{
    if current + align - 1 <= usize::MAX {
        lemma_align_mask(current, align);
    }
}

/// A request succeeds exactly when it fits: if the first multiple `a` of `align` at
/// or after the next free byte can be computed without passing the end of the
/// address space and `a + size` does not pass the end of the heap, the request lands
/// at `a` and the next free byte moves to `a + size`; otherwise it fails.
pub proof fn lemma_bump_fits(current: usize, heap_end: usize, size: usize, align: usize, a: int)
    requires
        is_pow2(align as int),
        a % (align as int) == 0,
        current <= a < current + align,
    ensures
        current + align - 1 <= usize::MAX && a + size <= heap_end ==> bump_target(
            current as int,
            heap_end as int,
            size as int,
            align as int,
        ) == Some((a, a + size)),
        !(current + align - 1 <= usize::MAX && a + size <= heap_end) ==> bump_target(
            current as int,
            heap_end as int,
            size as int,
            align as int,
        ) is None,
{
    vstd::arithmetic::power2::is_pow2_equiv(align as int);
    let k = choose|i: nat| vstd::arithmetic::power::pow(2, i) == align as int;
    vstd::arithmetic::power::lemma_pow_positive(2, k);
    if current + align - 1 <= usize::MAX {
        lemma_align_mask(current, align);
        let r = round_up(current as int, align as int);
        let al = align as int;
        vstd::arithmetic::div_mod::lemma_fundamental_div_mod(a, al);
        vstd::arithmetic::div_mod::lemma_fundamental_div_mod(r, al);
        let qa = a / al;
        let qr = r / al;
        assert(qa == qr) by (nonlinear_arith)
            requires
                a == al * qa,
                r == al * qr,
                a - r < al,
                r - a < al,
                al > 0,
        ;
        assert(r == a);
    }
}

/// Computes where a request lands; see [`bump_target`].
pub fn bump_reserve(current: usize, heap_end: usize, size: usize, align: usize) -> (target: Option<(usize, usize)>)
    requires
        is_pow2(align as int),
    ensures
        match target {
            Some((a, e)) => bump_target(current as int, heap_end as int, size as int, align as int) == Some((a as int, e as int)),
            None => bump_target(current as int, heap_end as int, size as int, align as int) is None,
        },
{
    proof {
        vstd::arithmetic::power2::is_pow2_equiv(align as int);
        let k = choose|i: nat| vstd::arithmetic::power::pow(2, i) == align as int;
        vstd::arithmetic::power::lemma_pow_positive(2, k);
    }
    let aligned = match current.checked_add(align - 1) {
        Some(value) => {
            proof {
                lemma_align_mask(current, align);
            }
            value & !(align - 1)
        },
        None => return None,
    };
    let alloc_end = match aligned.checked_add(size) {
        Some(end) => end,
        None => return None,
    };
    if alloc_end > heap_end {
        return None;
    }
    Some((aligned, alloc_end))
}

/// A bump allocator over the heap `[heap_start, heap_end)`; `next` is the first byte
/// not handed out yet.
pub struct BumpAllocator {
    heap_start: usize,
    heap_end: usize,
    next: usize,
}

impl BumpAllocator {
    pub closed spec fn start(self) -> int {
        self.heap_start as int
    }

    pub closed spec fn end(self) -> int {
        self.heap_end as int
    }

    /// The first byte not handed out yet.
    pub closed spec fn next_free(self) -> int {
        self.next as int
    }

    /// The allocator's invariant: the next free byte lies in the heap, whose bounds
    /// are addresses.
    pub open spec fn wf(self) -> bool {
        &&& 0 <= self.start() <= self.next_free() <= self.end()
        &&& self.end() <= usize::MAX
    }

    /// An allocator with no heap.
    pub fn new() -> (allocator: Self)
        ensures
            allocator.wf(),
            allocator.start() == 0,
            allocator.end() == 0,
            allocator.next_free() == 0,
    {
        BumpAllocator { heap_start: 0, heap_end: 0, next: 0 }
    }

    /// Hands the heap `[heap_start, heap_end)` to the allocator; nothing of it is
    /// handed out yet.
    pub fn init_bump_alloc(&mut self, heap_start: usize, heap_end: usize)
        requires
            heap_start <= heap_end,
        ensures
            final(self).wf(),
            final(self).start() == heap_start,
            final(self).end() == heap_end,
            final(self).next_free() == heap_start,
    {
        self.heap_start = heap_start;
        self.heap_end = heap_end;
        self.next = heap_start;
    }

    /// Whether a heap has been handed to the allocator: its start is not zero and
    /// its end is not below its start.
    pub fn is_initialized(&self) -> (initialized: bool)
        ensures
            initialized == (self.start() != 0 && self.end() >= self.start()),
    {
        let start = self.heap_start;
        let end = self.heap_end;
        start != 0 && end >= start
    }

    /// Bytes handed out so far (zero if the next free byte were below the start).
    pub fn used_bytes(&self) -> (used: usize)
        ensures
            used == if self.next_free() >= self.start() {
                self.next_free() - self.start()
            } else {
                0
            },
    {
        let current = self.next;
        let start = self.heap_start;
        current.saturating_sub(start)
    }

    /// Bytes left between the next free byte and the end of the heap (zero if the
    /// next free byte were past the end).
    pub fn remaining_bytes(&self) -> (remaining: usize)
        ensures
            remaining == if self.end() >= self.next_free() {
                self.end() - self.next_free()
            } else {
                0
            },
    {
        let current = self.next;
        let end = self.heap_end;
        end.saturating_sub(current)
    }

    /// Hands out `size` bytes aligned to `align`, a power of two, from the next free
    /// byte up; returns their start, or zero when the request is empty, no heap is
    /// set, or the request does not fit.
    pub fn allocate_raw(&mut self, size: usize, align: usize) -> (block: usize)
        requires
            old(self).wf(),
            is_pow2(align as int),
        ensures
            final(self).wf(),
            final(self).start() == old(self).start(),
            final(self).end() == old(self).end(),
            if size == 0 || old(self).start() == 0 {
                block == 0 && final(self).next_free() == old(self).next_free()
            } else {
                match bump_target(old(self).next_free(), old(self).end(), size as int, align as int) {
                    Some((a, e)) => {
                        &&& block == a
                        &&& final(self).next_free() == e
                        &&& block as int % (align as int) == 0
                        &&& old(self).next_free() <= block
                        &&& final(self).next_free() == block + size
                    },
                    None => block == 0 && final(self).next_free() == old(self).next_free(),
                }
            },
    {
        if size == 0 {
            return 0;
        }
        let heap_start = self.heap_start;
        if heap_start == 0 {
            return 0;
        }
        let current = self.next;
        let heap_end = self.heap_end;
        match bump_reserve(current, heap_end, size, align) {
            Some((aligned, alloc_end)) => {
                proof {
                    lemma_bump_target(current, heap_end, size, align);
                }
                self.next = alloc_end;
                aligned
            },
            None => 0,
        }
    }
}

} // verus!
