//! A platform-agnostic core for virtual-memory page introspection and
//! mutation: discovering the protection and mapping state of memory regions,
//! changing page protection transiently or permanently, and pinning pages in
//! physical memory.
//!
//! A region is a collection of one or more pages lying consecutively in
//! memory, with the same properties. Addresses are carried as plain `usize`
//! values and are never dereferenced here; the platform's own page-table
//! calls stay behind the [`platform::PageTable`] capability.
//!
//! The properties of virtual-memory pages can change at any time unless every
//! other thread of the process is halted: each query result is a snapshot,
//! and callers that need a consistent picture must suspend other threads
//! themselves.

use vstd::prelude::*;

mod error;
mod lock;
pub mod page;
mod platform;
mod protect;
mod query;

pub use error::Error;
pub use lock::{lock, unlock, LockGuard};
pub use platform::{index_range, span_wf, with_protection, MockPage, MockPageTable, PageAttrs,
    PageInfo, PageTable};
pub use protect::{lemma_bits_ext, lemma_composite_constants, lemma_constant_bits,
    lemma_contains_reflexive, lemma_contains_transitive, lemma_ops_bits, lemma_protect_round_trip,
    lemma_single_rights_disjoint, lemma_union_contains, protect, protect_with_handle, restored,
    same_shape, ProtectGuard, Protection};
pub use query::{is_coalesced, lemma_coalesced_spans_well_formed, lemma_coalesced_unique, query,
    query_range};

verus! {

use crate::page::{page_floor, page_ceil, lemma_page_bounds, lemma_ceil_add_aligned};

/// A descriptor for a mapped memory region: one maximal run of consecutive
/// pages sharing the same properties.
///
/// A `Region` is a snapshot, not a handle: it owns no platform resource, is
/// never mutated after construction, and a later query may describe the
/// same address differently. Its base address is opaque — compared and
/// added to, never dereferenced.
#[derive(Debug, Clone, Copy, PartialEq, Eq, Structural)]
pub struct Region {
    /// Base address of the region.
    base: usize,
    /// Whether the region is committed or not.
    committed: bool,
    /// Whether the region is guarded or not.
    guarded: bool,
    /// Protection of the region.
    protection: Protection,
    /// Whether the region is shared or not.
    shared: bool,
    /// Size of the region (multiple of page size).
    size: usize,
}

impl Region {
    /// The region's base address.
    pub closed spec fn spec_base(&self) -> usize {
        self.base
    }

    /// The region's size in bytes.
    pub closed spec fn spec_size(&self) -> usize {
        self.size
    }

    /// The per-page attributes shared by every page of the region.
    pub closed spec fn spec_attrs(&self) -> PageAttrs {
        PageAttrs {
            protection: self.protection,
            committed: self.committed,
            guarded: self.guarded,
            shared: self.shared,
        }
    }

    /// The region's protection.
    pub open spec fn spec_protection(&self) -> Protection {
        self.spec_attrs().protection
    }

    /// The address one past the region's last byte, capped at the top of
    /// the address space.
    pub open spec fn spec_end(&self) -> int {
        if self.spec_base() + self.spec_size() <= usize::MAX as int {
            self.spec_base() + self.spec_size()
        } else {
            usize::MAX as int
        }
    }

    /// Builds the descriptor for the run of `size` bytes at `base` whose
    /// pages all carry `attrs`.
    pub(crate) fn from_parts(base: usize, size: usize, attrs: PageAttrs) -> (r: Region)
        ensures
            r.spec_base() == base,
            r.spec_size() == size,
            r.spec_attrs() == attrs,
    {
        Region {
            base,
            committed: attrs.committed,
            guarded: attrs.guarded,
            protection: attrs.protection,
            shared: attrs.shared,
            size,
        }
    }

    /// The per-page attributes of the region, as one record.
    pub(crate) fn attrs(&self) -> (r: PageAttrs)
        ensures
            r == self.spec_attrs(),
    {
        PageAttrs {
            protection: self.protection,
            committed: self.committed,
            guarded: self.guarded,
            shared: self.shared,
        }
    }

    /// Returns the region's base address. The address is an opaque value:
    /// this crate never dereferences it.
    pub fn as_ptr(&self) -> (r: usize)
        ensures
            r == self.spec_base(),
    {
        self.base
    }

    /// Returns a range representing the region's address space, saturating
    /// at the top of the address space.
    pub fn as_range(&self) -> (r: std::ops::Range<usize>)
        ensures
            r.start == self.spec_base(),
            r.end == self.spec_end(),
    {
        let end = if self.base <= usize::MAX - self.size {
            self.base + self.size
        } else {
            usize::MAX
        };
        self.base..end
    }

    /// Returns whether the region is committed or not: whether backing
    /// storage is actually allocated, rather than merely reserved.
    pub fn is_committed(&self) -> (r: bool)
        ensures
            r == self.spec_attrs().committed,
    {
        self.committed
    }

    /// Returns whether the region is readable or not.
    pub fn is_readable(&self) -> (r: bool)
        ensures
            r == self.spec_protection().spec_contains(Protection::read()),
    {
        self.protection.contains(Protection::read())
    }

    /// Returns whether the region is writable or not.
    pub fn is_writable(&self) -> (r: bool)
        ensures
            r == self.spec_protection().spec_contains(Protection::write()),
    {
        self.protection.contains(Protection::write())
    }

    /// Returns whether the region is executable or not.
    pub fn is_executable(&self) -> (r: bool)
        ensures
            r == self.spec_protection().spec_contains(Protection::execute()),
    {
        self.protection.contains(Protection::execute())
    }

    /// Returns whether the region is guarded or not: whether access to it
    /// triggers a fault.
    pub fn is_guarded(&self) -> (r: bool)
        ensures
            r == self.spec_attrs().guarded,
    {
        self.guarded
    }

    /// Returns whether the region's mapping is shared between processes.
    pub fn is_shared(&self) -> (r: bool)
        ensures
            r == self.spec_attrs().shared,
    {
        self.shared
    }

    /// Returns the size of the region in bytes.
    pub fn len(&self) -> (r: usize)
        ensures
            r == self.spec_size(),
    {
        self.size
    }

    /// Returns whether the region is empty or not. Queries never return an
    /// empty region; only the placeholder value built by `default` is.
    pub fn is_empty(&self) -> (r: bool)
        ensures
            r == (self.spec_size() == 0),
    {
        self.size == 0
    }

    /// Returns the protection flags of the region.
    pub fn protection(&self) -> (r: Protection)
        ensures
            r == self.spec_protection(),
    {
        self.protection
    }
}

/// Two regions that agree on base, size and per-page attributes are the
/// same value: a region holds nothing else.
pub proof fn lemma_region_ext(a: Region, b: Region)
    requires
        a.spec_base() == b.spec_base(),
        a.spec_size() == b.spec_size(),
        a.spec_attrs() == b.spec_attrs(),
    ensures
        a == b,
{
    assert(a.spec_attrs().protection == b.spec_attrs().protection);
    assert(a.spec_attrs().committed == b.spec_attrs().committed);
    assert(a.spec_attrs().guarded == b.spec_attrs().guarded);
    assert(a.spec_attrs().shared == b.spec_attrs().shared);
}

impl Default for Region {
    /// The all-zero placeholder region: a null base, no bytes, no rights.
    fn default() -> (r: Region)
        ensures
            r.spec_base() == 0,
            r.spec_size() == 0,
            r.spec_attrs() == (PageAttrs {
                protection: Protection::spec_none(),
                committed: true,
                guarded: false,
                shared: false,
            }),
    {
        Region {
            base: 0,
            committed: true,
            guarded: false,
            protection: Protection::none(),
            shared: false,
            size: 0,
        }
    }
}

/// Validates and rounds an address-size pair to its containing page-aligned
/// span: the smallest span that covers `[address, address + size)` and is
/// page-aligned at both ends. A zero `size` is rejected.
pub fn round_to_page_boundaries(address: usize, size: usize, page_size: usize) -> (r: Result<
    (usize, usize),
    Error,
>)
    requires
        page_size > 0,
        size != 0 ==> page_ceil(address as int + size as int, page_size as int) <= usize::MAX
            as int,
    ensures
        size == 0 <==> r matches Err(_),
        r matches Err(e) ==> e.is_invalid_size(),
        r matches Ok(p) ==> ({
            let a = address as int;
            let s = size as int;
            let pz = page_size as int;
            let base = p.0 as int;
            let span = p.1 as int;
            &&& base == page_floor(a, pz)
            &&& span == page_ceil(a % pz + s, pz)
            &&& base + span == page_ceil(a + s, pz)
            &&& base % pz == 0
            &&& span % pz == 0
            &&& span > 0
            &&& base <= a
            &&& a + s <= base + span
            &&& base + span < a + s + pz
        }),
{
    if size == 0 {
        return Err(Error::InvalidParameter("size"));
    }
    proof {
        let a = address as int;
        let s = size as int;
        let pz = page_size as int;
        lemma_page_bounds(a, pz);
        lemma_page_bounds(a + s, pz);
        lemma_page_bounds(a % pz + s, pz);
        lemma_ceil_add_aligned(a % pz + s, page_floor(a, pz), pz);
        assert(a % pz + s + page_floor(a, pz) == a + s);
    }
    let offset = address % page_size;
    let rounded = page::ceil(offset + size, page_size);
    Ok((page::floor(address, page_size), rounded))
}

} // verus!
