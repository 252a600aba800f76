//! Request layouts and the address arithmetic shared by every strategy.

use vstd::arithmetic::power2::is_pow2;
use vstd::prelude::*;

verus! {

/// Largest size a layout may describe: the signed address range of the machine.
pub open spec fn max_layout_size() -> int {
    isize::MAX as int
}

/// The least multiple of `align` that is not below `offset`.
pub open spec fn round_up(offset: int, align: int) -> int
    recommends
        align > 0,
{
    if offset % align == 0 {
        offset
    } else {
        offset + (align - offset % align)
    }
}

/// `round_up` yields a multiple of `align`, at or after `offset` and less than
/// `align` beyond it.
pub proof fn lemma_round_up(offset: int, align: int)
    requires
        offset >= 0,
        align > 0,
    ensures
        round_up(offset, align) % align == 0,
        offset <= round_up(offset, align) < offset + align,
{
    let r: int = offset % align;
    let q: int = offset / align;
    assert(offset == q * align + r && 0 <= r < align) by (nonlinear_arith)
        requires
            r == offset % align,
            q == offset / align,
            align > 0,
    ;
    if r != 0 {
        assert((q * align + align) % align == 0) by (nonlinear_arith)
            requires
                align > 0,
        ;
    }
}

/// A sum of two multiples of `d` is a multiple of `d`.
pub proof fn lemma_sum_of_multiples(a: int, b: int, d: int)
    requires
        d > 0,
        a % d == 0,
        b % d == 0,
    ensures
        (a + b) % d == 0,
{
    vstd::arithmetic::div_mod::lemma_add_mod_noop(a, b, d);
    vstd::arithmetic::div_mod::lemma_small_mod(0, d as nat);
}

/// Two different multiples of `d` lie at least `d` apart.
pub proof fn lemma_multiples_apart(x: int, y: int, d: int)
    requires
        d > 0,
        x % d == 0,
        y % d == 0,
        x < y,
    ensures
        x + d <= y,
{
    vstd::arithmetic::div_mod::lemma_fundamental_div_mod(x, d);
    vstd::arithmetic::div_mod::lemma_fundamental_div_mod(y, d);
    let qx: int = x / d;
    let qy: int = y / d;
    assert(qx < qy) by (nonlinear_arith)
        requires
            d > 0,
            d * qx < d * qy,
    ;
    assert(d * qx + d <= d * qy) by (nonlinear_arith)
        requires
            d > 0,
            qx + 1 <= qy,
    ;
}

/// A multiple of `m` is a multiple of every divisor of `m`.
pub proof fn lemma_multiple_of_divisor(a: int, m: int, d: int)
    requires
        d > 0,
        m > 0,
        m % d == 0,
        a % m == 0,
    ensures
        a % d == 0,
{
    let k: int = a / m;
    let j: int = m / d;
    assert(a == k * m) by (nonlinear_arith)
        requires
            k == a / m,
            a % m == 0,
            m > 0,
    ;
    assert(m == j * d) by (nonlinear_arith)
        requires
            j == m / d,
            m % d == 0,
            d > 0,
    ;
    assert((k * j * d) % d == 0) by (nonlinear_arith)
        requires
            d > 0,
    ;
    assert(k * (j * d) == k * j * d) by (nonlinear_arith);
}

/// Whether the byte ranges `[a, a + a_len)` and `[b, b + b_len)` share no byte.
pub open spec fn ranges_disjoint(a: int, a_len: int, b: int, b_len: int) -> bool {
    a_len <= 0 || b_len <= 0 || a + a_len <= b || b + b_len <= a
}

/// Whether `addr` lies in the byte range `[base, base + len)`.
pub open spec fn in_range(addr: int, base: int, len: int) -> bool {
    base <= addr < base + len
}

/// Tests two byte ranges for a common byte.
pub fn ranges_overlap(a: usize, a_len: usize, b: usize, b_len: usize) -> (r: bool)
    requires
        a + a_len <= usize::MAX,
        b + b_len <= usize::MAX,
    ensures
        r == !ranges_disjoint(a as int, a_len as int, b as int, b_len as int),
{
    a_len > 0 && b_len > 0 && a < b + b_len && b < a + a_len
}

/// Size and alignment of one request.
#[derive(Clone, Copy, Debug)]
pub struct Layout {
    size: usize,
    align: usize,
}

impl Layout {
    /// The requested size in bytes.
    pub closed spec fn spec_size(&self) -> usize {
        self.size
    }

    /// The requested alignment in bytes.
    pub closed spec fn spec_align(&self) -> usize {
        self.align
    }

    /// What makes a pair of size and alignment a layout: the alignment is a power
    /// of two, and the size rounded up to it stays within the signed address range.
    pub open spec fn valid(size: usize, align: usize) -> bool {
        &&& is_pow2(align as int)
        &&& round_up(size as int, align as int) <= max_layout_size()
    }

    /// Every layout built by this library is valid.
    pub open spec fn wf(self) -> bool {
        Self::valid(self.spec_size(), self.spec_align())
    }

    /// The alignment of a layout is at least 1, and its size is within the
    /// signed address range.
    pub proof fn lemma_align_positive(self)
        requires
            self.wf(),
        ensures
            self.spec_align() >= 1,
            self.spec_size() <= max_layout_size(),
    {
        reveal(is_pow2);
        lemma_round_up(self.spec_size() as int, self.spec_align() as int);
    }

    /// Builds the layout of `size` bytes aligned to `align`, where that is one.
    pub fn from_size_align(size: usize, align: usize) -> (r: Option<Layout>)
        ensures
            r.is_some() <==> Self::valid(size, align),
            r matches Some(l) ==> l.wf() && l.spec_size() == size && l.spec_align() == align,
    {
        if !is_power_of_two(align) {
            return None;
        }
        proof {
            reveal(is_pow2);
        }
        let limit: usize = isize::MAX as usize;
        if size > limit {
            return None;
        }
        let rest: usize = size % align;
        if rest != 0 && align - rest > limit - size {
            return None;
        }
        Some(Layout { size, align })
    }

    /// The requested size in bytes.
    #[verifier::when_used_as_spec(spec_size)]
    pub fn size(&self) -> (r: usize)
        ensures
            r == self.spec_size(),
    {
        self.size
    }

    /// The requested alignment in bytes.
    #[verifier::when_used_as_spec(spec_align)]
    pub fn align(&self) -> (r: usize)
        ensures
            r == self.spec_align(),
    {
        self.align
    }
}

/// Whether `n` is a power of two.
pub fn is_power_of_two(n: usize) -> (r: bool)
    ensures
        r == is_pow2(n as int),
{
    if n == 0 {
        proof {
            reveal(is_pow2);
        }
        return false;
    }
    let mut m: usize = n;
    while m % 2 == 0
        invariant
            m > 0,
            is_pow2(m as int) == is_pow2(n as int),
        decreases m,
    {
        proof {
            reveal(is_pow2);
        }
        m = m / 2;
    }
    proof {
        reveal(is_pow2);
    }
    m == 1
}

/// A power of two that is at most 16 divides 16.
pub proof fn lemma_small_pow2_divides_16(align: int)
    requires
        is_pow2(align),
        align <= 16,
    ensures
        16int % align == 0,
        align == 1 || align == 2 || align == 4 || align == 8 || align == 16,
{
    reveal_with_fuel(is_pow2, 6);
    assert(align == 1 || align == 2 || align == 4 || align == 8 || align == 16);
    if align == 1 {
    } else if align == 2 {
    } else if align == 4 {
    } else if align == 8 {
    } else {
    }
}

} // verus!
