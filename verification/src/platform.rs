use vstd::prelude::*;
use vstd::pervasive::VecAdditionalExecFns;
use vstd::arithmetic::div_mod::{lemma_fundamental_div_mod, lemma_mod_division_less_than_divisor,
    lemma_div_is_ordered};
use vstd::arithmetic::mul::lemma_mul_is_commutative;

verus! {

use crate::error::Error;
use crate::protect::Protection;

/// The properties of a single page that decide whether two adjacent pages
/// belong to the same region: two neighbouring pages are merged exactly when
/// all four fields are equal.
#[derive(Clone, Copy, Debug, PartialEq, Eq, Structural)]
pub struct PageAttrs {
    /// The page's current protection.
    pub protection: Protection,
    /// Whether backing storage for the page is committed.
    pub committed: bool,
    /// Whether the page is a guard page.
    pub guarded: bool,
    /// Whether the page's mapping is shared between processes.
    pub shared: bool,
}

/// Single-page facts reported by a platform query: the page-aligned base
/// address of the page together with its attributes.
#[derive(Clone, Copy, Debug, PartialEq, Eq, Structural)]
pub struct PageInfo {
    /// The page-aligned base address of the page.
    pub base: usize,
    /// The page's attributes.
    pub attrs: PageAttrs,
}

/// The mapped pages of `m`, with the protection of every page whose index
/// lies in `[lo, hi)` replaced by `p` and every other field kept.
pub open spec fn with_protection(
    m: Map<nat, PageAttrs>,
    lo: nat,
    hi: nat,
    p: Protection,
) -> Map<nat, PageAttrs> {
    Map::new(
        |i: nat| m.contains_key(i),
        |i: nat|
            if lo <= i < hi {
                PageAttrs {
                    protection: p,
                    committed: m[i].committed,
                    guarded: m[i].guarded,
                    shared: m[i].shared,
                }
            } else {
                m[i]
            },
    )
}

/// The set of page indices in `[lo, hi)`.
pub open spec fn index_range(lo: nat, hi: nat) -> Set<nat> {
    Set::new(|i: nat| lo <= i < hi)
}

/// Whether `[base, base + size)` is a span the platform's mutating calls
/// accept for pages of `pz` bytes: non-empty, page-aligned at both ends,
/// and within the address space.
pub open spec fn span_wf(base: usize, size: usize, pz: nat) -> bool {
    &&& size > 0
    &&& base as nat % pz == 0
    &&& size as nat % pz == 0
    &&& base + size <= usize::MAX
}

/// The capability through which the library reaches a platform's page
/// tables. One implementation per target platform enumerates and mutates
/// the real page tables; [`MockPageTable`] is an in-memory implementation
/// for exercising the query engine and the guards without platform calls.
///
/// An implementation is described by three ghost projections: its fixed
/// page size, the attributes of its mapped pages keyed by page index (the
/// page's base address divided by the page size), and the set of page
/// indices currently pinned in physical memory.
pub trait PageTable: Sized {
    /// The page size the table is built over.
    spec fn spec_page_size(&self) -> nat;

    /// The mapped pages, keyed by page index.
    spec fn pages(&self) -> Map<nat, PageAttrs>;

    /// The indices of the pages currently pinned in physical memory.
    spec fn locked(&self) -> Set<nat>;

    /// The process-wide page size, fixed for the process lifetime.
    fn page_size(&self) -> (r: usize)
        ensures
            r as nat == self.spec_page_size(),
            r > 0,
    ;

    /// Reports the attributes of the page containing `address`, failing
    /// exactly on addresses whose page is not mapped.
    fn query_at(&self, address: usize) -> (r: Result<PageInfo, Error>)
        ensures
            ({
                let pz = self.spec_page_size();
                let idx = (address as nat) / pz;
                match r {
                    Ok(info) => self.pages().contains_key(idx) && info.attrs == self.pages()[idx]
                        && info.base as nat == idx * pz,
                    Err(e) => !self.pages().contains_key(idx) && (e matches Error::UnmappedRegion
                        || e matches Error::SystemCall(_)),
                }
            }),
    ;

    /// Changes the protection of every page of the page-aligned span
    /// `[address, address + size)`. The platform may refuse the request
    /// (some cannot combine writable with executable, or protect guard
    /// pages); a refusal changes nothing.
    fn set_protection(&mut self, address: usize, size: usize, protection: Protection) -> (r: Result<
        (),
        Error,
    >)
        requires
            span_wf(address, size, old(self).spec_page_size()),
        ensures
            final(self).spec_page_size() == old(self).spec_page_size(),
            final(self).locked() == old(self).locked(),
            ({
                let pz = old(self).spec_page_size();
                let lo = (address as nat) / pz;
                let hi = (address as nat + size as nat) / pz;
                match r {
                    Ok(u) => final(self).pages() == with_protection(
                        old(self).pages(),
                        lo,
                        hi,
                        protection,
                    ),
                    Err(e) => final(self).pages() == old(self).pages() && !(e
                        matches Error::InvalidParameter(_)),
                }
            }),
    ;

    /// Pins every page of the page-aligned span `[address, address + size)`
    /// in physical memory. The platform may refuse (for instance on a
    /// resource limit); a refusal leaves no page of the span pinned that
    /// was not pinned before.
    fn lock(&mut self, address: usize, size: usize) -> (r: Result<(), Error>)
        requires
            span_wf(address, size, old(self).spec_page_size()),
        ensures
            final(self).spec_page_size() == old(self).spec_page_size(),
            final(self).pages() == old(self).pages(),
            ({
                let pz = old(self).spec_page_size();
                let lo = (address as nat) / pz;
                let hi = (address as nat + size as nat) / pz;
                match r {
                    Ok(u) => final(self).locked() == old(self).locked().union(index_range(lo, hi)),
                    Err(e) => final(self).locked() == old(self).locked() && !(e
                        matches Error::InvalidParameter(_)),
                }
            }),
    ;

    /// Releases the pin on every page of the page-aligned span `[address,
    /// address + size)`. A refusal changes nothing.
    fn unlock(&mut self, address: usize, size: usize) -> (r: Result<(), Error>)
        requires
            span_wf(address, size, old(self).spec_page_size()),
        ensures
            final(self).spec_page_size() == old(self).spec_page_size(),
            final(self).pages() == old(self).pages(),
            ({
                let pz = old(self).spec_page_size();
                let lo = (address as nat) / pz;
                let hi = (address as nat + size as nat) / pz;
                match r {
                    Ok(u) => final(self).locked() == old(self).locked().difference(
                        index_range(lo, hi),
                    ),
                    Err(e) => final(self).locked() == old(self).locked() && !(e
                        matches Error::InvalidParameter(_)),
                }
            }),
    ;
}

/// One page slot of a [`MockPageTable`]: the page's attributes when the
/// slot is mapped, and whether the page is pinned in physical memory.
#[derive(Clone, Copy, Debug)]
pub struct MockPage {
    /// The page's attributes, or `None` for an unmapped slot.
    pub attrs: Option<PageAttrs>,
    /// Whether the page is pinned in physical memory.
    pub locked: bool,
}

/// An in-memory page table: the pages with indices `0 .. n` are described
/// by a vector of slots, every address beyond them is unmapped. It lets the
/// query engine and the guards be exercised deterministically, with no
/// platform call behind them.
pub struct MockPageTable {
    page_size: usize,
    slots: Vec<MockPage>,
}

impl MockPageTable {
    /// Builds a table whose pages `0 .. slots.len()` are described by
    /// `slots`.
    pub fn new(page_size: usize, slots: Vec<MockPage>) -> (r: MockPageTable)
        requires
            page_size > 0,
        ensures
            r.spec_page_size() == page_size as nat,
            forall|i: nat|
                #[trigger] r.pages().contains_key(i) <==> (i < slots@.len() && slots@[i as int].attrs
                    is Some),
            forall|i: nat|
                r.pages().contains_key(i) ==> #[trigger] r.pages()[i] == slots@[i as int].attrs.unwrap(),
            forall|i: nat|
                #[trigger] r.locked().contains(i) <==> (i < slots@.len()
                    && slots@[i as int].locked),
    {
        MockPageTable { page_size, slots }
    }

    /// The table's page size as the positive number every operation divides
    /// by; a degenerate table answers with one.
    fn effective_page_size(&self) -> (r: usize)
        ensures
            r as nat == self.spec_page_size(),
            r > 0,
    {
        if self.page_size > 0 {
            self.page_size
        } else {
            1
        }
    }

    /// Reports whether the page containing `address` is currently pinned
    /// in physical memory.
    pub fn pinned(&self, address: usize) -> (r: bool)
        ensures
            r == self.locked().contains((address as nat) / self.spec_page_size()),
    {
        let pz = self.effective_page_size();
        let idx = address / pz;
        idx < self.slots.len() && self.slots[idx].locked
    }
}

impl PageTable for MockPageTable {
    closed spec fn spec_page_size(&self) -> nat {
        if self.page_size > 0 {
            self.page_size as nat
        } else {
            1
        }
    }

    closed spec fn pages(&self) -> Map<nat, PageAttrs> {
        Map::new(
            |i: nat| i < self.slots@.len() && self.slots@[i as int].attrs is Some,
            |i: nat| self.slots@[i as int].attrs.unwrap(),
        )
    }

    closed spec fn locked(&self) -> Set<nat> {
        Set::new(|i: nat| i < self.slots@.len() && self.slots@[i as int].locked)
    }

    fn page_size(&self) -> (r: usize) {
        self.effective_page_size()
    }

    fn query_at(&self, address: usize) -> (r: Result<PageInfo, Error>) {
        let pz = self.effective_page_size();
        let idx = address / pz;
        proof {
            lemma_fundamental_div_mod(address as int, pz as int);
            lemma_mod_division_less_than_divisor(address as int, pz as int);
            lemma_mul_is_commutative(pz as int, address as int / pz as int);
            assert(idx * pz <= address);
        }
        if idx < self.slots.len() {
            let slot = self.slots[idx];
            match slot.attrs {
                Some(attrs) => Ok(PageInfo { base: idx * pz, attrs }),
                None => Err(Error::UnmappedRegion),
            }
        } else {
            Err(Error::UnmappedRegion)
        }
    }

    fn set_protection(&mut self, address: usize, size: usize, protection: Protection) -> (r: Result<
        (),
        Error,
    >) {
        let ghost m0 = self.pages();
        let ghost l0 = self.locked();
        let pz = self.effective_page_size();
        let lo = address / pz;
        let hi = (address + size) / pz;
        proof {
            lemma_div_is_ordered(address as int, address as int + size as int, pz as int);
        }
        let end = if hi < self.slots.len() {
            hi
        } else {
            self.slots.len()
        };
        let mut i = lo;
        while i < end
            invariant
                lo <= i,
                lo <= hi,
                end <= self.slots@.len(),
                i <= end || i == lo,
                end <= hi,
                hi <= self.slots@.len() ==> end == hi,
                self.page_size == old(self).page_size,
                self.slots@.len() == old(self).slots@.len(),
                forall|j: int|
                    0 <= j < self.slots@.len() && !(lo <= j < i) ==> self.slots@[j]
                        == old(self).slots@[j],
                forall|j: int|
                    lo <= j < i ==> #[trigger] self.slots@[j].locked == old(self).slots@[j].locked,
                forall|j: int|
                    lo <= j < i ==> (#[trigger] self.slots@[j].attrs is Some <==> old(
                        self,
                    ).slots@[j].attrs is Some),
                forall|j: int|
                    lo <= j < i && old(self).slots@[j].attrs is Some
                        ==> #[trigger] self.slots@[j].attrs == Some(
                        PageAttrs {
                            protection,
                            committed: old(self).slots@[j].attrs.unwrap().committed,
                            guarded: old(self).slots@[j].attrs.unwrap().guarded,
                            shared: old(self).slots@[j].attrs.unwrap().shared,
                        },
                    ),
            decreases end - i,
        {
            let slot = self.slots[i];
            if let Some(a) = slot.attrs {
                self.slots.set(
                    i,
                    MockPage {
                        attrs: Some(
                            PageAttrs {
                                protection,
                                committed: a.committed,
                                guarded: a.guarded,
                                shared: a.shared,
                            },
                        ),
                        locked: slot.locked,
                    },
                );
            }
            i = i + 1;
        }
        proof {
            assert(self.pages() =~= with_protection(m0, lo as nat, hi as nat, protection));
            assert(self.locked() =~= l0);
        }
        Ok(())
    }

    fn lock(&mut self, address: usize, size: usize) -> (r: Result<(), Error>) {
        let ghost m0 = self.pages();
        let ghost l0 = self.locked();
        let pz = self.effective_page_size();
        let lo = address / pz;
        let hi = (address + size) / pz;
        proof {
            lemma_div_is_ordered(address as int, address as int + size as int, pz as int);
        }
        if hi > self.slots.len() {
            return Err(Error::SystemCall(12));
        }
        let mut i = lo;
        while i < hi
            invariant
                lo <= i,
                i <= hi <= self.slots@.len(),
                self.page_size == old(self).page_size,
                self.slots@.len() == old(self).slots@.len(),
                forall|j: int|
                    0 <= j < self.slots@.len() && !(lo <= j < i) ==> self.slots@[j]
                        == old(self).slots@[j],
                forall|j: int|
                    lo <= j < i ==> #[trigger] self.slots@[j].attrs == old(self).slots@[j].attrs,
                forall|j: int| lo <= j < i ==> #[trigger] self.slots@[j].locked,
            decreases hi - i,
        {
            let slot = self.slots[i];
            self.slots.set(i, MockPage { attrs: slot.attrs, locked: true });
            i = i + 1;
        }
        proof {
            assert(self.pages() =~= m0);
            assert(self.locked() =~= l0.union(index_range(lo as nat, hi as nat)));
        }
        Ok(())
    }

    fn unlock(&mut self, address: usize, size: usize) -> (r: Result<(), Error>) {
        let ghost m0 = self.pages();
        let ghost l0 = self.locked();
        let pz = self.effective_page_size();
        let lo = address / pz;
        let hi = (address + size) / pz;
        proof {
            lemma_div_is_ordered(address as int, address as int + size as int, pz as int);
        }
        let end = if hi < self.slots.len() {
            hi
        } else {
            self.slots.len()
        };
        let mut i = lo;
        while i < end
            invariant
                lo <= i,
                lo <= hi,
                end <= self.slots@.len(),
                i <= end || i == lo,
                end <= hi,
                hi <= self.slots@.len() ==> end == hi,
                self.page_size == old(self).page_size,
                self.slots@.len() == old(self).slots@.len(),
                forall|j: int|
                    0 <= j < self.slots@.len() && !(lo <= j < i) ==> self.slots@[j]
                        == old(self).slots@[j],
                forall|j: int|
                    lo <= j < i ==> #[trigger] self.slots@[j].attrs == old(self).slots@[j].attrs,
                forall|j: int| lo <= j < i ==> !(#[trigger] self.slots@[j].locked),
            decreases end - i,
        {
            let slot = self.slots[i];
            self.slots.set(i, MockPage { attrs: slot.attrs, locked: false });
            i = i + 1;
        }
        proof {
            assert(self.pages() =~= m0);
            assert(self.locked() =~= l0.difference(index_range(lo as nat, hi as nat)));
        }
        Ok(())
    }
}

} // verus!
