use vstd::prelude::*;
use vstd::arithmetic::div_mod::lemma_fundamental_div_mod;

verus! {

use crate::error::Error;
use crate::page::{page_floor, page_ceil, lemma_page_bounds};
use crate::platform::{index_range, span_wf, PageTable};
use crate::round_to_page_boundaries;

/// A scoped handle for pages pinned in physical memory: it owns exactly one
/// page-aligned span and releases the pin exactly once.
///
/// The handle is move-only and unpins at most once: releasing an already
/// released handle is a no-op.
pub struct LockGuard {
    base: usize,
    size: usize,
    active: bool,
}

/// Pins the page-aligned span covering `[address, address + size)` in
/// physical memory and returns a guard owning that span. Fails with
/// `InvalidParameter` exactly when `size` is zero, and with the platform's
/// error when the platform refuses the pin (for instance a resource limit
/// on pinned pages); a failure pins nothing.
pub fn lock<P: PageTable>(pt: &mut P, address: usize, size: usize) -> (r: Result<LockGuard, Error>)
    requires
        size != 0 ==> page_ceil(address as int + size as int, old(pt).spec_page_size() as int)
            <= usize::MAX as int,
    ensures
        final(pt).spec_page_size() == old(pt).spec_page_size(),
        final(pt).pages() == old(pt).pages(),
        ({
            let pz = old(pt).spec_page_size() as int;
            let lo = page_floor(address as int, pz) / pz;
            let hi = page_ceil(address as int + size as int, pz) / pz;
            match r {
                Ok(g) => size != 0 && final(pt).locked() == old(pt).locked().union(
                    index_range(lo as nat, hi as nat),
                ) && g.spec_active() && g.spec_base() as int == lo * pz && g.spec_base() as int
                    + g.spec_size() as int == hi * pz && g.spec_size() > 0,
                Err(e) => final(pt).locked() == old(pt).locked() && (size == 0 <==> e
                    matches Error::InvalidParameter(_)) && (size == 0 ==> e.is_invalid_size()),
            }
        }),
{
    if size == 0 {
        return Err(Error::InvalidParameter("size"));
    }
    let pz = pt.page_size();
    let ghost pzi = pz as int;
    let ghost lo = page_floor(address as int, pzi) / pzi;
    let ghost hi = page_ceil(address as int + size as int, pzi) / pzi;
    let (base, span) = match round_to_page_boundaries(address, size, pz) {
        Ok(p) => p,
        Err(e) => {
            proof {
                assert(false);
            }
            return Err(e);
        },
    };
    proof {
        lemma_page_bounds(address as int + size as int, pzi);
        lemma_fundamental_div_mod(base as int, pzi);
        lemma_fundamental_div_mod(base as int + span as int, pzi);
        assert((base as nat) / (pz as nat) == lo);
        assert((base as nat + span as nat) / (pz as nat) == hi);
    }
    match pt.lock(base, span) {
        Ok(_) => Ok(LockGuard { base, size: span, active: true }),
        Err(e) => Err(e),
    }
}

/// Releases the pin on the page-aligned span covering `[address, address +
/// size)`. Fails with `InvalidParameter` exactly when `size` is zero; a
/// failure unpins nothing.
pub fn unlock<P: PageTable>(pt: &mut P, address: usize, size: usize) -> (r: Result<(), Error>)
    requires
        size != 0 ==> page_ceil(address as int + size as int, old(pt).spec_page_size() as int)
            <= usize::MAX as int,
    ensures
        final(pt).spec_page_size() == old(pt).spec_page_size(),
        final(pt).pages() == old(pt).pages(),
        ({
            let pz = old(pt).spec_page_size() as int;
            let lo = page_floor(address as int, pz) / pz;
            let hi = page_ceil(address as int + size as int, pz) / pz;
            match r {
                Ok(u) => size != 0 && final(pt).locked() == old(pt).locked().difference(
                    index_range(lo as nat, hi as nat),
                ),
                Err(e) => final(pt).locked() == old(pt).locked() && (size == 0 <==> e
                    matches Error::InvalidParameter(_)) && (size == 0 ==> e.is_invalid_size()),
            }
        }),
{
    if size == 0 {
        return Err(Error::InvalidParameter("size"));
    }
    let pz = pt.page_size();
    let ghost pzi = pz as int;
    let ghost lo = page_floor(address as int, pzi) / pzi;
    let ghost hi = page_ceil(address as int + size as int, pzi) / pzi;
    let (base, span) = match round_to_page_boundaries(address, size, pz) {
        Ok(p) => p,
        Err(e) => {
            proof {
                assert(false);
            }
            return Err(e);
        },
    };
    proof {
        lemma_page_bounds(address as int + size as int, pzi);
        lemma_fundamental_div_mod(base as int, pzi);
        lemma_fundamental_div_mod(base as int + span as int, pzi);
        assert((base as nat) / (pz as nat) == lo);
        assert((base as nat + span as nat) / (pz as nat) == hi);
    }
    pt.unlock(base, span)
}

impl LockGuard {
    /// Whether the guard still holds its pin.
    pub closed spec fn spec_active(&self) -> bool {
        self.active
    }

    /// The base address of the owned span.
    pub closed spec fn spec_base(&self) -> usize {
        self.base
    }

    /// The byte length of the owned span.
    pub closed spec fn spec_size(&self) -> usize {
        self.size
    }

    /// Returns whether the guard still holds its pin.
    pub fn is_active(&self) -> (r: bool)
        ensures
            r == self.spec_active(),
    {
        self.active
    }

    /// Releases the pin on the owned span exactly once: releasing an
    /// already released guard is a no-op that reports success and unpins
    /// nothing.
    pub fn release<P: PageTable>(&mut self, pt: &mut P) -> (r: Result<(), Error>)
        ensures
            !final(self).spec_active(),
            final(self).spec_base() == old(self).spec_base(),
            final(self).spec_size() == old(self).spec_size(),
            final(pt).spec_page_size() == old(pt).spec_page_size(),
            final(pt).pages() == old(pt).pages(),
            !old(self).spec_active() ==> final(pt).locked() == old(pt).locked() && r matches Ok(_),
            old(self).spec_active() && span_wf(
                old(self).spec_base(),
                old(self).spec_size(),
                old(pt).spec_page_size(),
            ) ==> !(r matches Err(Error::InvalidParameter(_))),
            old(self).spec_active() ==> ({
                let pz = old(pt).spec_page_size();
                let lo = (old(self).spec_base() as nat) / pz;
                let hi = (old(self).spec_base() as nat + old(self).spec_size() as nat) / pz;
                match r {
                    Ok(u) => final(pt).locked() == old(pt).locked().difference(index_range(lo, hi)),
                    Err(e) => final(pt).locked() == old(pt).locked(),
                }
            }),
    {
        if !self.active {
            return Ok(());
        }
        self.active = false;
        let pz = pt.page_size();
        if self.size > 0 && self.base % pz == 0 && self.size % pz == 0 && self.base <= usize::MAX
            - self.size {
            pt.unlock(self.base, self.size)
        } else {
            Err(Error::InvalidParameter("size"))
        }
    }
}

} // verus!
