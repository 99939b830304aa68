use vstd::prelude::*;
use vstd::arithmetic::div_mod::*;
use vstd::arithmetic::mul::*;

verus! {

/// The largest page boundary at or below `a`, for pages of `pz` bytes.
pub open spec fn page_floor(a: int, pz: int) -> int {
    a - a % pz
}

/// The smallest page boundary at or above `a`, for pages of `pz` bytes.
pub open spec fn page_ceil(a: int, pz: int) -> int {
    if a % pz == 0 {
        a
    } else {
        page_floor(a, pz) + pz
    }
}

/// `page_ceil`, capped at the top of the address space: rounding up an
/// address that has no page boundary above it yields the maximal address
/// instead of wrapping around.
pub open spec fn page_ceil_saturated(a: int, pz: int) -> int {
    if page_ceil(a, pz) <= usize::MAX as int {
        page_ceil(a, pz)
    } else {
        usize::MAX as int
    }
}

/// Rounding lands on page boundaries and brackets its argument:
/// `floor(a) <= a <= ceil(a)`, both results are page-aligned and within a
/// page of `a`, and rounding an already aligned value leaves it unchanged.
pub proof fn lemma_page_bounds(a: int, pz: int)
    requires
        0 <= a,
        0 < pz,
    ensures
        page_floor(a, pz) % pz == 0,
        page_ceil(a, pz) % pz == 0,
        0 <= page_floor(a, pz) <= a <= page_ceil(a, pz),
        a < page_floor(a, pz) + pz,
        page_ceil(a, pz) < a + pz,
        page_floor(page_floor(a, pz), pz) == page_floor(a, pz),
        page_ceil(page_floor(a, pz), pz) == page_floor(a, pz),
        page_floor(page_ceil(a, pz), pz) == page_ceil(a, pz),
        page_ceil(page_ceil(a, pz), pz) == page_ceil(a, pz),
{
    lemma_mod_division_less_than_divisor(a, pz);
    lemma_fundamental_div_mod(a, pz);
    lemma_div_pos_is_pos(a, pz);
    lemma_mul_nonnegative(pz, a / pz);
    assert(page_floor(a, pz) == pz * (a / pz));
    lemma_mod_multiples_basic(a / pz, pz);
    lemma_mul_is_commutative(pz, a / pz);
    assert((pz * (a / pz)) % pz == 0);
    if a % pz != 0 {
        lemma_mod_add_multiples_vanish(page_floor(a, pz), pz);
        assert((pz + page_floor(a, pz)) % pz == page_floor(a, pz) % pz);
    }
}

/// Saturating rounding still brackets its argument — `floor(a) <= a <=
/// saturated ceil(a)` for every representable address — and wherever no
/// saturation happens the rounded-up value lies on a page boundary, so
/// flooring it changes nothing.
pub proof fn lemma_page_bounds_saturated(a: int, pz: int)
    requires
        0 <= a <= usize::MAX as int,
        0 < pz,
    ensures
        page_floor(a, pz) <= a <= page_ceil_saturated(a, pz),
        page_ceil_saturated(a, pz) <= usize::MAX as int,
        page_ceil(a, pz) <= usize::MAX as int ==> page_floor(
            page_ceil_saturated(a, pz),
            pz,
        ) == page_ceil_saturated(a, pz),
{
    lemma_page_bounds(a, pz);
}

/// Among page-aligned values, `page_floor(a)` is the greatest at or below
/// `a`, and `page_ceil(a)` is the least at or above `a`.
pub proof fn lemma_page_extremal(a: int, b: int, pz: int)
    requires
        0 <= a,
        0 < pz,
        0 <= b,
        b % pz == 0,
    ensures
        b <= a ==> b <= page_floor(a, pz),
        a <= b ==> page_ceil(a, pz) <= b,
{
    lemma_page_bounds(a, pz);
    lemma_small_mod(0, pz as nat);
    if b <= a && b > page_floor(a, pz) {
        let d = b - page_floor(a, pz);
        lemma_sub_mod_noop(b, page_floor(a, pz), pz);
        assert(d % pz == 0);
        lemma_small_mod(d as nat, pz as nat);
        assert(false);
    }
    if a <= b && b < page_ceil(a, pz) {
        let d = page_ceil(a, pz) - b;
        lemma_sub_mod_noop(page_ceil(a, pz), b, pz);
        assert(d % pz == 0);
        lemma_small_mod(d as nat, pz as nat);
        assert(false);
    }
}

/// Adding a page-aligned offset commutes with rounding up.
pub proof fn lemma_ceil_add_aligned(x: int, f: int, pz: int)
    requires
        0 < pz,
        0 <= x,
        0 <= f,
        f % pz == 0,
    ensures
        page_ceil(x + f, pz) == page_ceil(x, pz) + f,
{
    lemma_fundamental_div_mod(f, pz);
    assert(f == pz * (f / pz));
    lemma_mod_multiples_vanish(f / pz, x, pz);
    assert((x + f) % pz == x % pz);
}

/// Minimality of the rounded span: any page-aligned span `[b, b + t)` that
/// covers `[a, a + s)` also covers `[page_floor(a), page_ceil(a + s))`, so
/// the latter is the smallest page-aligned cover of `[a, a + s)`.
pub proof fn lemma_rounded_span_minimal(a: int, s: int, b: int, t: int, pz: int)
    requires
        0 < pz,
        0 <= a,
        0 < s,
        0 <= b,
        b % pz == 0,
        t % pz == 0,
        b <= a,
        a + s <= b + t,
    ensures
        b <= page_floor(a, pz),
        page_ceil(a + s, pz) <= b + t,
        page_ceil(a + s, pz) - page_floor(a, pz) <= t,
{
    lemma_page_extremal(a, b, pz);
    lemma_add_mod_noop(b, t, pz);
    lemma_small_mod(0, pz as nat);
    assert((b + t) % pz == 0);
    lemma_page_extremal(a + s, b + t, pz);
}

/// Rounds `address` down to the nearest page boundary.
pub fn floor(address: usize, page_size: usize) -> (r: usize)
    requires
        page_size > 0,
    ensures
        r == page_floor(address as int, page_size as int),
{
    proof {
        lemma_page_bounds(address as int, page_size as int);
    }
    address - address % page_size
}

/// Rounds `address` up to the nearest page boundary, saturating at the top
/// of the address space instead of wrapping around.
pub fn ceil(address: usize, page_size: usize) -> (r: usize)
    requires
        page_size > 0,
    ensures
        r == page_ceil_saturated(address as int, page_size as int),
{
    proof {
        lemma_page_bounds(address as int, page_size as int);
    }
    let remainder = address % page_size;
    if remainder == 0 {
        address
    } else {
        let gap = page_size - remainder;
        if address <= usize::MAX - gap {
            address + gap
        } else {
            usize::MAX
        }
    }
}

} // verus!
