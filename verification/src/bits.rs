//! Rounding of offsets to the block size of a device.

use vstd::prelude::*;

verus! {

/// The greatest multiple of `align` that is not above `v`.
pub open spec fn aligned_down(align: int, v: int) -> int {
    v - v % align
}

/// The least multiple of `align` that is not below `v`.
pub open spec fn aligned_up(align: int, v: int) -> int {
    if v % align == 0 {
        v
    } else {
        v - v % align + align
    }
}

/// Rounds `v` down to a multiple of `align`.
pub fn align_down(align: usize, v: usize) -> (r: usize)
    requires
        align > 0,
    ensures
        r == aligned_down(align as int, v as int),
        r as int % align as int == 0,
        r <= v < r + align,
{
    proof {
        lemma_aligned_down(align as int, v as int);
    }
    v - v % align
}

/// Rounds `v` up to a multiple of `align`.
pub fn align_up(align: usize, v: usize) -> (r: usize)
    requires
        align > 0,
        aligned_up(align as int, v as int) <= usize::MAX,
    ensures
        r == aligned_up(align as int, v as int),
        r as int % align as int == 0,
        v <= r < v + align,
{
    proof {
        lemma_aligned_up(align as int, v as int);
    }
    let rem: usize = v % align;
    if rem == 0 {
        v
    } else {
        v + (align - rem)
    }
}

/// Rounding down gives a multiple of `align` in `(v - align, v]`, and there is
/// only one such multiple.
pub proof fn lemma_aligned_down(align: int, v: int)
    requires
        align > 0,
    ensures
        aligned_down(align, v) % align == 0,
        aligned_down(align, v) <= v,
        v - align < aligned_down(align, v),
        v >= 0 ==> aligned_down(align, v) >= 0,
        forall|m: int| #![trigger m % align] m % align == 0 && m <= v ==> m <= aligned_down(align, v),
{
    vstd::arithmetic::div_mod::lemma_fundamental_div_mod(v, align);
    vstd::arithmetic::div_mod::lemma_mod_bound(v, align);
    let q = v / align;
    assert(aligned_down(align, v) == align * q);
    assert((align * q) % align == 0) by {
        vstd::arithmetic::div_mod::lemma_mod_multiples_basic(q, align);
        vstd::arithmetic::mul::lemma_mul_is_commutative(align, q);
    }
    assert forall|m: int| #![trigger m % align] m % align == 0 && m <= v implies m <= aligned_down(
        align,
        v,
    ) by {
        vstd::arithmetic::div_mod::lemma_fundamental_div_mod(m, align);
        let p = m / align;
        assert(m == align * p);
        if p > q {
            assert(align * p >= align * q + align) by (nonlinear_arith)
                requires
                    p >= q + 1,
                    align > 0,
            ;
        } else {
            assert(align * p <= align * q) by (nonlinear_arith)
                requires
                    p <= q,
                    align > 0,
            ;
        }
    }
    if v >= 0 {
        assert(align * q >= 0) by {
            vstd::arithmetic::div_mod::lemma_div_pos_is_pos(v, align);
            vstd::arithmetic::mul::lemma_mul_nonnegative(align, q);
        }
    }
}

/// Rounding up gives a multiple of `align` in `[v, v + align)`, and there is
/// only one such multiple.
pub proof fn lemma_aligned_up(align: int, v: int)
    requires
        align > 0,
    ensures
        aligned_up(align, v) % align == 0,
        v <= aligned_up(align, v) < v + align,
        forall|m: int| #![trigger m % align] m % align == 0 && v <= m ==> aligned_up(align, v) <= m,
{
    lemma_aligned_down(align, v);
    vstd::arithmetic::div_mod::lemma_mod_bound(v, align);
    let d = aligned_down(align, v);
    assert((d + align) % align == 0) by {
        vstd::arithmetic::div_mod::lemma_mod_add_multiples_vanish(d, align);
    }
    assert forall|m: int| #![trigger m % align] m % align == 0 && v <= m implies aligned_up(align, v)
        <= m by {
        if v % align != 0 && m < d + align {
            lemma_multiples_apart(align, d, m);
        }
    }
}

/// Two multiples of `align` that are less than `align` apart are equal.
pub proof fn lemma_multiples_apart(align: int, a: int, b: int)
    requires
        align > 0,
        a % align == 0,
        b % align == 0,
        a <= b < a + align,
    ensures
        a == b,
{
    vstd::arithmetic::div_mod::lemma_fundamental_div_mod(a, align);
    vstd::arithmetic::div_mod::lemma_fundamental_div_mod(b, align);
    let p = a / align;
    let q = b / align;
    if q > p {
        assert(align * q >= align * p + align) by (nonlinear_arith)
            requires
                q >= p + 1,
                align > 0,
        ;
    } else if q < p {
        assert(align * p >= align * q + align) by (nonlinear_arith)
            requires
                p >= q + 1,
                align > 0,
        ;
    }
}

/// Rounding down gives `m` if `m` is the multiple of `align` in
/// `(v - align, v]`.
pub proof fn law_rounds_down_to(align: int, v: int, m: int)
    requires
        align > 0,
        m % align == 0,
        m <= v < m + align,
    ensures
        aligned_down(align, v) == m,
{
    lemma_aligned_down(align, v);
    lemma_multiples_apart(align, m, aligned_down(align, v));
}

/// Rounding up gives `m` if `m` is the multiple of `align` in
/// `[v, v + align)`.
pub proof fn law_rounds_up_to(align: int, v: int, m: int)
    requires
        align > 0,
        m % align == 0,
        v <= m < v + align,
    ensures
        aligned_up(align, v) == m,
{
    lemma_aligned_up(align, v);
    lemma_multiples_apart(align, aligned_up(align, v), m);
}

} // verus!
