use vstd::prelude::*;
use vstd::arithmetic::div_mod::{lemma_fundamental_div_mod, lemma_div_multiples_vanish,
    lemma_mod_multiples_basic};
use vstd::arithmetic::mul::{lemma_mul_basics, lemma_mul_inequality,
    lemma_mul_is_commutative, lemma_mul_is_distributive_add_other_way,
    lemma_mul_is_distributive_sub_other_way, lemma_mul_strict_inequality,
    lemma_mul_strict_inequality_converse, lemma_mul_nonnegative, lemma_mul_strictly_positive};

verus! {

use crate::error::Error;
use crate::page::{page_floor, page_ceil, lemma_page_bounds};
use crate::platform::{span_wf, PageAttrs, PageTable};
use crate::{Region, round_to_page_boundaries};

/// Whether `rs` describes the pages of `m` with indices `lo <= i < hi` (for
/// pages of `pz` bytes) as coalesced regions: the regions are contiguous
/// and in ascending address order starting at `lo * pz` and ending at
/// `hi * pz`, each one spans a positive whole number of pages all of which
/// are mapped with exactly the region's attributes, and no two neighbouring
/// regions carry the same attributes, so none could be merged further.
pub open spec fn is_coalesced(
    m: Map<nat, PageAttrs>,
    rs: Seq<Region>,
    lo: int,
    hi: int,
    pz: int,
) -> bool
    decreases rs.len(),
{
    if rs.len() == 0 {
        lo == hi
    } else {
        let r0 = rs[0];
        let pages = r0.spec_size() as int / pz;
        &&& r0.spec_base() as int == lo * pz
        &&& r0.spec_size() as int == pages * pz
        &&& pages > 0
        &&& lo + pages <= hi
        &&& (forall|i: nat|
            lo <= i < lo + pages ==> #[trigger] m.contains_key(i) && m[i] == r0.spec_attrs())
        &&& (rs.len() > 1 ==> rs[1].spec_attrs() != r0.spec_attrs())
        &&& is_coalesced(m, rs.subrange(1, rs.len() as int), lo + pages, hi, pz)
    }
}

/// A coalesced description spans a well-formed interval, and its last
/// region ends exactly at the interval's upper boundary.
#[verifier::spinoff_prover]
proof fn lemma_coalesced_frame(m: Map<nat, PageAttrs>, rs: Seq<Region>, lo: int, hi: int, pz: int)
    requires
        pz > 0,
        is_coalesced(m, rs, lo, hi, pz),
    ensures
        lo <= hi,
        rs.len() == 0 ==> lo == hi,
        rs.len() > 0 ==> rs[rs.len() - 1].spec_base() as int + rs[rs.len() - 1].spec_size() as int
            == hi * pz,
        rs.len() > 0 ==> lo * pz <= rs[rs.len() - 1].spec_base() as int,
    decreases rs.len(),
{
    if rs.len() > 0 {
        let pages = rs[0].spec_size() as int / pz;
        let tail = rs.subrange(1, rs.len() as int);
        lemma_coalesced_frame(m, tail, lo + pages, hi, pz);
        lemma_mul_is_distributive_add_other_way(pz, lo, pages);
        assert((lo + pages) * pz == lo * pz + pages * pz);
        lemma_mul_nonnegative(pages, pz);
        if rs.len() == 1 {
            assert(lo + pages == hi);
            assert(rs[0].spec_base() as int + rs[0].spec_size() as int == lo * pz + pages * pz);
        } else {
            assert(tail[tail.len() - 1] == rs[rs.len() - 1]);
        }
    }
}

/// Growing the last region of a coalesced description by one page whose
/// attributes match that region keeps the description coalesced over an
/// interval one page longer.
#[verifier::spinoff_prover]
proof fn lemma_coalesced_extend(
    m: Map<nat, PageAttrs>,
    rs: Seq<Region>,
    lo: int,
    hi: int,
    pz: int,
    r2: Region,
)
    requires
        pz > 0,
        0 <= lo,
        is_coalesced(m, rs, lo, hi, pz),
        rs.len() > 0,
        m.contains_key(hi as nat),
        m[hi as nat] == rs[rs.len() - 1].spec_attrs(),
        r2.spec_base() == rs[rs.len() - 1].spec_base(),
        r2.spec_attrs() == rs[rs.len() - 1].spec_attrs(),
        r2.spec_size() == rs[rs.len() - 1].spec_size() + pz,
    ensures
        is_coalesced(m, rs.update(rs.len() - 1, r2), lo, hi + 1, pz),
    decreases rs.len(),
{
    let rs2 = rs.update(rs.len() - 1, r2);
    let pages = rs[0].spec_size() as int / pz;
    let tail = rs.subrange(1, rs.len() as int);
    if rs.len() == 1 {
        lemma_coalesced_frame(m, tail, lo + pages, hi, pz);
        assert(lo + pages == hi);
        lemma_mul_is_distributive_add_other_way(pz, pages, 1);
        lemma_mul_basics(pz);
        assert(r2.spec_size() as int == (pages + 1) * pz);
        lemma_div_multiples_vanish(pages + 1, pz);
        lemma_mul_is_commutative(pages + 1, pz);
        assert((pz * (pages + 1)) / pz == pages + 1);
        assert(r2.spec_size() as int / pz == pages + 1);
        assert(rs2[0] == r2);
        assert(forall|i: nat|
            lo <= i < lo + pages + 1 ==> #[trigger] m.contains_key(i) && m[i]
                == r2.spec_attrs());
        assert(rs2.subrange(1, rs2.len() as int) =~= Seq::<Region>::empty());
        assert(is_coalesced(m, Seq::<Region>::empty(), lo + pages + 1, hi + 1, pz));
        assert(is_coalesced(m, rs2.subrange(1, rs2.len() as int), lo + pages + 1, hi + 1, pz));
        assert(is_coalesced(m, rs2, lo, hi + 1, pz));
    } else {
        assert(tail[tail.len() - 1] == rs[rs.len() - 1]);
        lemma_coalesced_extend(m, tail, lo + pages, hi, pz, r2);
        assert(rs2.subrange(1, rs2.len() as int) =~= tail.update(tail.len() - 1, r2));
        assert(is_coalesced(m, rs2.subrange(1, rs2.len() as int), lo + pages, hi + 1, pz));
        assert(rs2[0] == rs[0]);
        if rs.len() == 2 {
            assert(rs2[1] == r2);
            assert(rs2[1].spec_attrs() != rs2[0].spec_attrs());
        } else {
            assert(rs2[1] == rs[1]);
        }
        assert(is_coalesced(m, rs2, lo, hi + 1, pz));
    }
}

/// Appending a fresh one-page region whose attributes differ from the last
/// region's keeps a coalesced description coalesced over an interval one
/// page longer.
#[verifier::spinoff_prover]
proof fn lemma_coalesced_push(
    m: Map<nat, PageAttrs>,
    rs: Seq<Region>,
    lo: int,
    hi: int,
    pz: int,
    r2: Region,
)
    requires
        pz > 0,
        0 <= lo,
        is_coalesced(m, rs, lo, hi, pz),
        m.contains_key(hi as nat),
        m[hi as nat] == r2.spec_attrs(),
        rs.len() > 0 ==> r2.spec_attrs() != rs[rs.len() - 1].spec_attrs(),
        r2.spec_base() as int == hi * pz,
        r2.spec_size() as int == pz,
    ensures
        is_coalesced(m, rs.push(r2), lo, hi + 1, pz),
    decreases rs.len(),
{
    let rs2 = rs.push(r2);
    if rs.len() == 0 {
        assert(lo == hi);
        assert(rs2[0] == r2);
        lemma_mul_basics(pz);
        lemma_div_multiples_vanish(1, pz);
        assert((pz * 1) / pz == 1);
        assert(r2.spec_size() as int / pz == 1);
        assert(forall|i: nat|
            lo <= i < lo + 1 ==> #[trigger] m.contains_key(i) && m[i] == r2.spec_attrs());
        assert(rs2.subrange(1, rs2.len() as int) =~= Seq::<Region>::empty());
        assert(is_coalesced(m, Seq::<Region>::empty(), lo + 1, hi + 1, pz));
        assert(is_coalesced(m, rs2, lo, hi + 1, pz));
    } else {
        let pages = rs[0].spec_size() as int / pz;
        let tail = rs.subrange(1, rs.len() as int);
        assert(tail.len() == rs.len() - 1);
        if rs.len() > 1 {
            assert(tail[tail.len() - 1] == rs[rs.len() - 1]);
        }
        lemma_coalesced_push(m, tail, lo + pages, hi, pz, r2);
        assert(rs2.subrange(1, rs2.len() as int) =~= tail.push(r2));
        assert(is_coalesced(m, rs2.subrange(1, rs2.len() as int), lo + pages, hi + 1, pz));
        assert(rs2[0] == rs[0]);
        if rs.len() == 1 {
            assert(rs2[1] == r2);
        } else {
            assert(rs2[1] == rs[1]);
        }
        assert(is_coalesced(m, rs2, lo, hi + 1, pz));
    }
}

/// Coalescing is deterministic: over one page map, one interval and one
/// page size there is at most one coalesced description, so any two are
/// the same sequence of regions.
#[verifier::spinoff_prover]
pub proof fn lemma_coalesced_unique(
    m: Map<nat, PageAttrs>,
    rs1: Seq<Region>,
    rs2: Seq<Region>,
    lo: int,
    hi: int,
    pz: int,
)
    requires
        pz > 0,
        0 <= lo,
        is_coalesced(m, rs1, lo, hi, pz),
        is_coalesced(m, rs2, lo, hi, pz),
    ensures
        rs1 == rs2,
    decreases rs1.len(),
{
    if rs1.len() == 0 || rs2.len() == 0 {
        assert(rs1.len() == 0 && rs2.len() == 0);
        assert(rs1 =~= rs2);
    } else {
        let a = rs1[0];
        let b = rs2[0];
        let pa = a.spec_size() as int / pz;
        let pb = b.spec_size() as int / pz;
        assert(a.spec_base() as int == lo * pz);
        assert(pa > 0);
        assert(m.contains_key(lo as nat));
        assert(m[lo as nat] == a.spec_attrs());
        assert(m[lo as nat] == b.spec_attrs());
        let t1 = rs1.subrange(1, rs1.len() as int);
        let t2 = rs2.subrange(1, rs2.len() as int);
        if pa < pb {
            let i = lo + pa;
            assert(m.contains_key(i as nat));
            assert(m[i as nat] == b.spec_attrs());
            assert(is_coalesced(m, t1, lo + pa, hi, pz));
            assert(t1.len() > 0);
            assert(t1[0] == rs1[1]);
            assert(t1[0].spec_size() as int / pz > 0);
            assert(m[i as nat] == t1[0].spec_attrs());
            assert(rs1[1].spec_attrs() != a.spec_attrs());
            assert(false);
        }
        if pb < pa {
            let i = lo + pb;
            assert(m.contains_key(i as nat));
            assert(m[i as nat] == a.spec_attrs());
            assert(is_coalesced(m, t2, lo + pb, hi, pz));
            assert(t2.len() > 0);
            assert(t2[0] == rs2[1]);
            assert(t2[0].spec_size() as int / pz > 0);
            assert(m[i as nat] == t2[0].spec_attrs());
            assert(rs2[1].spec_attrs() != b.spec_attrs());
            assert(false);
        }
        assert(pa == pb);
        crate::lemma_region_ext(a, b);
        lemma_coalesced_unique(m, t1, t2, lo + pa, hi, pz);
        assert(t1 == t2);
        assert(rs1.len() == rs2.len());
        assert forall|j: int| 0 <= j < rs1.len() implies rs1[j] == rs2[j] by {
            if j > 0 {
                assert(rs1[j] == t1[j - 1]);
                assert(rs2[j] == t2[j - 1]);
            }
        }
        assert(rs1 =~= rs2);
    }
}

/// Every region of a coalesced description is a span the platform's
/// mutating calls accept, provided the covered interval lies within the
/// address space: this lets the holder of a snapshot discharge the
/// well-formedness hypothesis of the guard's release contract.
#[verifier::spinoff_prover]
pub proof fn lemma_coalesced_spans_well_formed(
    m: Map<nat, PageAttrs>,
    rs: Seq<Region>,
    lo: int,
    hi: int,
    pz: int,
)
    requires
        pz > 0,
        0 <= lo,
        is_coalesced(m, rs, lo, hi, pz),
        hi * pz <= usize::MAX as int,
    ensures
        forall|j: int|
            0 <= j < rs.len() ==> span_wf(
                (#[trigger] rs[j]).spec_base(),
                rs[j].spec_size(),
                pz as nat,
            ),
    decreases rs.len(),
{
    if rs.len() > 0 {
        let r0 = rs[0];
        let pages = r0.spec_size() as int / pz;
        let tail = rs.subrange(1, rs.len() as int);
        lemma_mod_multiples_basic(lo, pz);
        assert((lo * pz) % pz == 0);
        lemma_mod_multiples_basic(pages, pz);
        assert((pages * pz) % pz == 0);
        lemma_mul_strictly_positive(pages, pz);
        lemma_mul_is_distributive_add_other_way(pz, lo, pages);
        lemma_mul_inequality(lo + pages, hi, pz);
        assert((lo + pages) * pz <= hi * pz);
        assert(span_wf(r0.spec_base(), r0.spec_size(), pz as nat));
        lemma_coalesced_spans_well_formed(m, tail, lo + pages, hi, pz);
        assert forall|j: int|
            0 <= j < rs.len() implies span_wf(
            (#[trigger] rs[j]).spec_base(),
            rs[j].spec_size(),
            pz as nat,
        ) by {
            if j > 0 {
                assert(rs[j] == tail[j - 1]);
            }
        }
    }
}

/// Queries the page containing `address` and returns it as a one-page
/// region, failing exactly when that page is not mapped.
pub fn query<P: PageTable>(pt: &P, address: usize) -> (r: Result<Region, Error>)
    ensures
        ({
            let pz = pt.spec_page_size();
            let idx = (address as nat) / pz;
            match r {
                Ok(region) => pt.pages().contains_key(idx) && region.spec_base() as nat == idx * pz
                    && region.spec_size() as nat == pz && region.spec_attrs() == pt.pages()[idx],
                Err(e) => !pt.pages().contains_key(idx) && (e matches Error::UnmappedRegion
                    || e matches Error::SystemCall(_)),
            }
        }),
{
    let pz = pt.page_size();
    match pt.query_at(address) {
        Ok(info) => Ok(Region::from_parts(info.base, pz, info.attrs)),
        Err(e) => Err(e),
    }
}

/// Queries every page of the page-aligned span covering `[address,
/// address + size)` and returns the coalesced region descriptors in
/// ascending address order. Fails with `InvalidParameter` exactly when
/// `size` is zero, and with the platform's error when a page of the span is
/// not mapped; it never partially succeeds.
#[verifier::spinoff_prover]
pub fn query_range<P: PageTable>(pt: &P, address: usize, size: usize) -> (r: Result<
    Vec<Region>,
    Error,
>)
    requires
        size != 0 ==> page_ceil(address as int + size as int, pt.spec_page_size() as int)
            <= usize::MAX as int,
    ensures
        ({
            let pz = pt.spec_page_size() as int;
            let lo = page_floor(address as int, pz) / pz;
            let hi = page_ceil(address as int + size as int, pz) / pz;
            match r {
                Ok(rs) => size != 0 && is_coalesced(pt.pages(), rs@, lo, hi, pz) && (forall|i: int|
                    lo <= i < hi ==> pt.pages().contains_key(#[trigger] (i as nat))),
                Err(e) => {
                    &&& (size == 0 <==> e matches Error::InvalidParameter(_))
                    &&& (size == 0 ==> e.is_invalid_size())
                    &&& size != 0 ==> (exists|i: int|
                        lo <= i < hi && !pt.pages().contains_key(#[trigger] (i as nat))) && (e
                        matches Error::UnmappedRegion || e matches Error::SystemCall(_))
                },
            }
        }),
{
    if size == 0 {
        return Err(Error::InvalidParameter("size"));
    }
    let pz = pt.page_size();
    let ghost pzi = pz as int;
    let ghost lo = page_floor(address as int, pzi) / pzi;
    let ghost hi = page_ceil(address as int + size as int, pzi) / pzi;
    let (base, span) = match round_to_page_boundaries(address, size, pz) {
        Ok(p) => p,
        Err(e) => {
            proof {
                assert(false);
            }
            return Err(e);
        },
    };
    proof {
        lemma_page_bounds(address as int + size as int, pzi);
        lemma_fundamental_div_mod(base as int, pzi);
        lemma_mul_is_commutative(pzi, lo);
        assert(base as int == lo * pzi);
        lemma_fundamental_div_mod(base as int + span as int, pzi);
        lemma_mul_is_commutative(pzi, hi);
        assert(base as int + span as int == hi * pzi);
        lemma_mul_strict_inequality_converse(lo, hi, pzi);
        assert(lo < hi);
    }
    let mut regions: Vec<Region> = Vec::new();
    let mut offset: usize = 0;
    let ghost mut cur: int = lo;
    while offset < span
        invariant
            size != 0,
            pt.spec_page_size() == pz as nat,
            pz > 0,
            pzi == pz as int,
            lo == page_floor(address as int, pzi) / pzi,
            hi == page_ceil(address as int + size as int, pzi) / pzi,
            base as int == lo * pzi,
            base as int + span as int == hi * pzi,
            base + span <= usize::MAX,
            offset <= span,
            offset as int == (cur - lo) * pzi,
            lo <= cur <= hi,
            0 <= lo,
            is_coalesced(pt.pages(), regions@, lo, cur, pzi),
            forall|i: int| lo <= i < cur ==> pt.pages().contains_key(#[trigger] (i as nat)),
        decreases span - offset,
    {
        proof {
            lemma_mul_is_distributive_sub_other_way(pzi, hi, lo);
            assert(span as int == (hi - lo) * pzi);
            lemma_mul_strict_inequality_converse(cur - lo, hi - lo, pzi);
            assert(cur < hi);
            lemma_mul_is_distributive_sub_other_way(pzi, hi - lo, cur - lo);
            assert(span as int - offset as int == (hi - cur) * pzi);
            lemma_mul_inequality(1, hi - cur, pzi);
            lemma_mul_basics(pzi);
            assert(offset as int + pzi <= span as int);
        }
        let probe = base + offset;
        proof {
            lemma_mul_is_distributive_add_other_way(pzi, lo, cur - lo);
            assert(probe as int == cur * pzi);
            lemma_mul_is_commutative(cur, pzi);
            lemma_div_multiples_vanish(cur, pzi);
            assert((pzi * cur) / pzi == cur);
            assert((probe as nat) / (pz as nat) == cur);
        }
        let info = match pt.query_at(probe) {
            Ok(info) => info,
            Err(e) => {
                proof {
                    let spz = pt.spec_page_size() as int;
                    assert(spz == pzi);
                    assert(lo == page_floor(address as int, spz) / spz);
                    assert(hi == page_ceil(address as int + size as int, spz) / spz);
                    assert(lo <= cur < hi && !pt.pages().contains_key(cur as nat));
                    assert(exists|i: int|
                        page_floor(address as int, spz) / spz <= i < page_ceil(
                            address as int + size as int,
                            spz,
                        ) / spz && !pt.pages().contains_key(#[trigger] (i as nat)));
                }
                return Err(e);
            },
        };
        let merged = if regions.len() > 0 {
            let last = regions[regions.len() - 1];
            if last.attrs() == info.attrs {
                proof {
                    lemma_coalesced_frame(pt.pages(), regions@, lo, cur, pzi);
                    assert(last.spec_base() as int + last.spec_size() as int == cur * pzi);
                    assert(lo * pzi <= last.spec_base() as int);
                    lemma_mul_is_distributive_add_other_way(pzi, lo, cur - lo);
                    assert(last.spec_size() as int <= (cur - lo) * pzi);
                    assert(last.spec_size() + pz <= span);
                }
                let extended = Region::from_parts(last.as_ptr(), last.len() + pz, info.attrs);
                proof {
                    lemma_coalesced_extend(pt.pages(), regions@, lo, cur, pzi, extended);
                }
                let ghost rs0 = regions@;
                let _popped = regions.pop();
                regions.push(extended);
                proof {
                    assert(regions@ =~= rs0.update(rs0.len() - 1, extended));
                }
                true
            } else {
                false
            }
        } else {
            false
        };
        if !merged {
            let fresh = Region::from_parts(probe, pz, info.attrs);
            proof {
                lemma_coalesced_push(pt.pages(), regions@, lo, cur, pzi, fresh);
            }
            regions.push(fresh);
        }
        offset = offset + pz;
        proof {
            cur = cur + 1;
            lemma_mul_is_distributive_add_other_way(pzi, cur - 1 - lo, 1);
            lemma_mul_basics(pzi);
            assert(offset as int == (cur - lo) * pzi);
        }
    }
    proof {
        lemma_mul_is_distributive_sub_other_way(pzi, hi, lo);
        assert((cur - lo) * pzi == (hi - lo) * pzi);
        if cur < hi {
            lemma_mul_strict_inequality(cur - lo, hi - lo, pzi);
        }
        assert(cur == hi);
    }
    Ok(regions)
}

} // verus!
