use vstd::prelude::*;
use vstd::arithmetic::div_mod::{lemma_fundamental_div_mod, lemma_div_multiples_vanish};
use vstd::arithmetic::mul::{lemma_mul_is_commutative, lemma_mul_is_distributive_add_other_way};

verus! {

use crate::error::Error;
use crate::page::{page_floor, page_ceil, lemma_page_bounds};
use crate::platform::{span_wf, with_protection, PageAttrs, PageTable};
use crate::query::{is_coalesced, query_range};
use crate::{Region, round_to_page_boundaries};

/// The read/write/execute access rights of one or more pages, kept as a bit
/// set over {READ, WRITE, EXECUTE}. `NONE` is the empty set, and the named
/// composite constants are exactly the unions of their components; no
/// independent "composite" bit exists.
#[derive(Clone, Copy, Debug, PartialEq, Eq, Hash, Structural)]
pub struct Protection {
    bits: u8,
}

impl Protection {
    /// No access rights at all: the empty set.
    pub closed spec fn spec_none() -> Protection {
        Protection { bits: 0 }
    }

    /// No access rights at all: the empty set.
    #[verifier::when_used_as_spec(spec_none)]
    pub fn none() -> (r: Protection)
        ensures
            r == Protection::spec_none(),
    {
        Protection { bits: 0 }
    }

    /// The right to read.
    pub closed spec fn spec_read() -> Protection {
        Protection { bits: 1 }
    }

    /// The right to read.
    #[verifier::when_used_as_spec(spec_read)]
    pub fn read() -> (r: Protection)
        ensures
            r == Protection::spec_read(),
    {
        Protection { bits: 1 }
    }

    /// The right to write.
    pub closed spec fn spec_write() -> Protection {
        Protection { bits: 2 }
    }

    /// The right to write.
    #[verifier::when_used_as_spec(spec_write)]
    pub fn write() -> (r: Protection)
        ensures
            r == Protection::spec_write(),
    {
        Protection { bits: 2 }
    }

    /// The right to execute.
    pub closed spec fn spec_execute() -> Protection {
        Protection { bits: 4 }
    }

    /// The right to execute.
    #[verifier::when_used_as_spec(spec_execute)]
    pub fn execute() -> (r: Protection)
        ensures
            r == Protection::spec_execute(),
    {
        Protection { bits: 4 }
    }

    /// The rights to read and write.
    pub closed spec fn spec_read_write() -> Protection {
        Protection { bits: 3 }
    }

    /// The rights to read and write.
    #[verifier::when_used_as_spec(spec_read_write)]
    pub fn read_write() -> (r: Protection)
        ensures
            r == Protection::spec_read_write(),
    {
        Protection { bits: 3 }
    }

    /// The rights to read and execute.
    pub closed spec fn spec_read_execute() -> Protection {
        Protection { bits: 5 }
    }

    /// The rights to read and execute.
    #[verifier::when_used_as_spec(spec_read_execute)]
    pub fn read_execute() -> (r: Protection)
        ensures
            r == Protection::spec_read_execute(),
    {
        Protection { bits: 5 }
    }

    /// The rights to read, write and execute.
    pub closed spec fn spec_read_write_execute() -> Protection {
        Protection { bits: 7 }
    }

    /// The rights to read, write and execute.
    #[verifier::when_used_as_spec(spec_read_write_execute)]
    pub fn read_write_execute() -> (r: Protection)
        ensures
            r == Protection::spec_read_write_execute(),
    {
        Protection { bits: 7 }
    }

    /// The underlying bits of the set.
    pub closed spec fn spec_bits(self) -> u8 {
        self.bits
    }

    /// Whether every right in `other` is also in `self`.
    pub closed spec fn spec_contains(self, other: Protection) -> bool {
        self.bits & other.bits == other.bits
    }

    /// The union of two sets of rights.
    pub closed spec fn spec_or(self, other: Protection) -> Protection {
        Protection { bits: self.bits | other.bits }
    }

    /// The intersection of two sets of rights.
    pub closed spec fn spec_and(self, other: Protection) -> Protection {
        Protection { bits: self.bits & other.bits }
    }

    /// The symmetric difference of two sets of rights.
    pub closed spec fn spec_xor(self, other: Protection) -> Protection {
        Protection { bits: self.bits ^ other.bits }
    }

    /// Returns whether `self` has at least the rights of `other`; callers
    /// test "does this region have at least READ" with it.
    pub fn contains(self, other: Protection) -> (r: bool)
        ensures
            r == self.spec_contains(other),
    {
        self.bits & other.bits == other.bits
    }

    /// The bitwise OR (union) of the two sets.
    pub fn or(self, other: Protection) -> (r: Protection)
        ensures
            r == self.spec_or(other),
    {
        Protection { bits: self.bits | other.bits }
    }

    /// The bitwise AND (intersection) of the two sets.
    pub fn and(self, other: Protection) -> (r: Protection)
        ensures
            r == self.spec_and(other),
    {
        Protection { bits: self.bits & other.bits }
    }

    /// The bitwise XOR (symmetric difference) of the two sets.
    pub fn xor(self, other: Protection) -> (r: Protection)
        ensures
            r == self.spec_xor(other),
    {
        Protection { bits: self.bits ^ other.bits }
    }
}

/// Containment is reflexive: every protection contains itself.
pub proof fn lemma_contains_reflexive(p: Protection)
    ensures
        p.spec_contains(p),
{
    let b = p.spec_bits();
    assert(b & b == b) by (bit_vector);
}

/// Containment is monotonic under union: a union contains both of its
/// operands.
pub proof fn lemma_union_contains(p: Protection, q: Protection)
    ensures
        p.spec_or(q).spec_contains(p),
        p.spec_or(q).spec_contains(q),
{
    let a = p.spec_bits();
    let b = q.spec_bits();
    assert((a | b) & a == a) by (bit_vector);
    assert((a | b) & b == b) by (bit_vector);
}

/// Containment is transitive: rights contained in a contained set are
/// contained in the whole.
pub proof fn lemma_contains_transitive(p: Protection, q: Protection, r: Protection)
    requires
        p.spec_contains(q),
        q.spec_contains(r),
    ensures
        p.spec_contains(r),
{
    let a = p.spec_bits();
    let b = q.spec_bits();
    let c = r.spec_bits();
    assert(a & b == b && b & c == c ==> a & c == c) by (bit_vector);
}

/// The composite constants carry no bit of their own: each equals the union
/// of its components.
pub proof fn lemma_composite_constants()
    ensures
        Protection::read_write() == Protection::read().spec_or(Protection::write()),
        Protection::read_execute() == Protection::read().spec_or(Protection::execute()),
        Protection::read_write_execute() == Protection::read().spec_or(Protection::write()).spec_or(
            Protection::execute(),
        ),
{
    assert(1u8 | 2u8 == 3u8) by (bit_vector);
    assert(1u8 | 4u8 == 5u8) by (bit_vector);
    assert(3u8 | 4u8 == 7u8) by (bit_vector);
}

/// What containment and the operators mean over the underlying bits, so
/// that any containment question can be decided from the bits alone.
pub proof fn lemma_ops_bits(p: Protection, q: Protection)
    ensures
        p.spec_contains(q) <==> (p.spec_bits() & q.spec_bits()) == q.spec_bits(),
        p.spec_or(q).spec_bits() == (p.spec_bits() | q.spec_bits()),
        p.spec_and(q).spec_bits() == (p.spec_bits() & q.spec_bits()),
        p.spec_xor(q).spec_bits() == (p.spec_bits() ^ q.spec_bits()),
{
}

/// The underlying bits of each named constant: READ, WRITE and EXECUTE are
/// the three single bits in ascending order, and the composites are their
/// unions.
pub proof fn lemma_constant_bits()
    ensures
        Protection::none().spec_bits() == 0,
        Protection::read().spec_bits() == 1,
        Protection::write().spec_bits() == 2,
        Protection::execute().spec_bits() == 4,
        Protection::read_write().spec_bits() == 3,
        Protection::read_execute().spec_bits() == 5,
        Protection::read_write_execute().spec_bits() == 7,
{
}

/// A protection holds nothing besides its bits: equal bits, equal value.
pub proof fn lemma_bits_ext(p: Protection, q: Protection)
    requires
        p.spec_bits() == q.spec_bits(),
    ensures
        p == q,
{
}

/// The three single rights are pairwise disjoint: none contains another,
/// so for instance a protection equal to READ is not writable.
pub proof fn lemma_single_rights_disjoint()
    ensures
        !Protection::read().spec_contains(Protection::write()),
        !Protection::read().spec_contains(Protection::execute()),
        !Protection::write().spec_contains(Protection::read()),
        !Protection::write().spec_contains(Protection::execute()),
        !Protection::execute().spec_contains(Protection::read()),
        !Protection::execute().spec_contains(Protection::write()),
        !Protection::none().spec_contains(Protection::read()),
        !Protection::none().spec_contains(Protection::write()),
        !Protection::none().spec_contains(Protection::execute()),
        !Protection::read_write().spec_contains(Protection::execute()),
        !Protection::read_execute().spec_contains(Protection::write()),
{
    assert(1u8 & 2u8 != 2u8) by (bit_vector);
    assert(1u8 & 4u8 != 4u8) by (bit_vector);
    assert(2u8 & 1u8 != 1u8) by (bit_vector);
    assert(2u8 & 4u8 != 4u8) by (bit_vector);
    assert(4u8 & 1u8 != 1u8) by (bit_vector);
    assert(4u8 & 2u8 != 2u8) by (bit_vector);
    assert(0u8 & 1u8 != 1u8) by (bit_vector);
    assert(0u8 & 2u8 != 2u8) by (bit_vector);
    assert(0u8 & 4u8 != 4u8) by (bit_vector);
    assert(3u8 & 4u8 != 4u8) by (bit_vector);
    assert(5u8 & 2u8 != 2u8) by (bit_vector);
}

/// Changes the protection of the page-aligned span covering `[address,
/// address + size)`. Fails with `InvalidParameter` exactly when `size` is
/// zero, and with the platform's error when the platform rejects the
/// request (which is surfaced, never silently weakened); a failure changes
/// nothing.
pub fn protect<P: PageTable>(
    pt: &mut P,
    address: usize,
    size: usize,
    protection: Protection,
) -> (r: Result<(), Error>)
    requires
        size != 0 ==> page_ceil(address as int + size as int, old(pt).spec_page_size() as int)
            <= usize::MAX as int,
    ensures
        final(pt).spec_page_size() == old(pt).spec_page_size(),
        final(pt).locked() == old(pt).locked(),
        ({
            let pz = old(pt).spec_page_size() as int;
            let lo = page_floor(address as int, pz) / pz;
            let hi = page_ceil(address as int + size as int, pz) / pz;
            match r {
                Ok(u) => size != 0 && final(pt).pages() == with_protection(
                    old(pt).pages(),
                    lo as nat,
                    hi as nat,
                    protection,
                ),
                Err(e) => final(pt).pages() == old(pt).pages() && (size == 0 <==> e
                    matches Error::InvalidParameter(_)) && (size == 0 ==> e.is_invalid_size()),
            }
        }),
{
    if size == 0 {
        return Err(Error::InvalidParameter("size"));
    }
    let pz = pt.page_size();
    let ghost pzi = pz as int;
    let ghost lo = page_floor(address as int, pzi) / pzi;
    let ghost hi = page_ceil(address as int + size as int, pzi) / pzi;
    let (base, span) = match round_to_page_boundaries(address, size, pz) {
        Ok(p) => p,
        Err(e) => {
            proof {
                assert(false);
            }
            return Err(e);
        },
    };
    proof {
        lemma_page_bounds(address as int + size as int, pzi);
        lemma_fundamental_div_mod(base as int, pzi);
        lemma_fundamental_div_mod(base as int + span as int, pzi);
        assert(base as nat % (pz as nat) == 0);
        assert(span as nat % (pz as nat) == 0);
        assert((base as nat) / (pz as nat) == lo);
        assert((base as nat + span as nat) / (pz as nat) == hi);
    }
    pt.set_protection(base, span, protection)
}

/// A scoped handle for a temporary protection change: for each
/// pre-existing sub-region of the changed span it records the protection
/// to restore, since a single change request may straddle several regions
/// whose original protections differ.
///
/// The handle is move-only and restores at most once: releasing an already
/// released handle is a no-op, and releasing clears the recorded data.
pub struct ProtectGuard {
    regions: Vec<Region>,
    active: bool,
}

/// The pages of `m` after reapplying, in order, the protection recorded in
/// each entry of `entries` to that entry's span, for pages of `pz` bytes.
pub open spec fn restored(m: Map<nat, PageAttrs>, entries: Seq<Region>, pz: int) -> Map<
    nat,
    PageAttrs,
>
    decreases entries.len(),
{
    if entries.len() == 0 {
        m
    } else {
        let e = entries[0];
        let lo = e.spec_base() as int / pz;
        let hi = (e.spec_base() as int + e.spec_size() as int) / pz;
        restored(
            with_protection(m, lo as nat, hi as nat, e.spec_protection()),
            entries.subrange(1, entries.len() as int),
            pz,
        )
    }
}

/// Whether `m` maps the same pages as `m0`, each with the same commit,
/// guard and share state: the two differ at most in protections.
pub open spec fn same_shape(m0: Map<nat, PageAttrs>, m: Map<nat, PageAttrs>) -> bool {
    &&& m.dom() == m0.dom()
    &&& (forall|k: nat|
        #[trigger] m.contains_key(k) ==> m[k].committed == m0[k].committed && m[k].guarded
            == m0[k].guarded && m[k].shared == m0[k].shared)
}

/// Restoring a coalesced snapshot undoes any pure protection change: if
/// `mp` maps the same pages as `m` with the same non-protection state and
/// agrees with `m` outside `[lo, hi)`, then reapplying a snapshot of `m`
/// over `[lo, hi)` turns `mp` back into `m` exactly.
proof fn lemma_restored_undoes(
    m: Map<nat, PageAttrs>,
    mp: Map<nat, PageAttrs>,
    entries: Seq<Region>,
    lo: int,
    hi: int,
    pz: int,
)
    requires
        pz > 0,
        0 <= lo,
        is_coalesced(m, entries, lo, hi, pz),
        same_shape(m, mp),
        forall|k: nat| #[trigger] mp.contains_key(k) && !(lo <= k < hi) ==> mp[k] == m[k],
    ensures
        restored(mp, entries, pz) == m,
    decreases entries.len(),
{
    if entries.len() == 0 {
        assert(mp =~= m);
    } else {
        let e = entries[0];
        let pages = e.spec_size() as int / pz;
        lemma_mul_is_commutative(lo, pz);
        lemma_div_multiples_vanish(lo, pz);
        assert(e.spec_base() as int / pz == lo);
        lemma_mul_is_distributive_add_other_way(pz, lo, pages);
        lemma_mul_is_commutative(lo + pages, pz);
        lemma_div_multiples_vanish(lo + pages, pz);
        assert((e.spec_base() as int + e.spec_size() as int) / pz == lo + pages);
        let mp2 = with_protection(mp, lo as nat, (lo + pages) as nat, e.spec_protection());
        assert(mp2.dom() =~= m.dom());
        assert forall|k: nat| #[trigger] mp2.contains_key(k) implies mp2[k].committed
            == m[k].committed && mp2[k].guarded == m[k].guarded && mp2[k].shared
            == m[k].shared by {
            assert(mp.contains_key(k));
        }
        assert forall|k: nat|
            #[trigger] mp2.contains_key(k) && !(lo + pages <= k < hi) implies mp2[k] == m[k] by {
            assert(mp.contains_key(k));
            if lo <= k < lo + pages {
                let ki = k as int;
                assert(m.contains_key(ki as nat) && m[ki as nat] == e.spec_attrs());
                assert(mp2[k] == m[k]);
            }
        }
        lemma_restored_undoes(m, mp2, entries.subrange(1, entries.len() as int), lo + pages, hi, pz);
    }
}

/// The round trip behind a protect-with-handle guard: setting one
/// protection over `[lo, hi)` and then restoring the coalesced snapshot
/// taken beforehand yields exactly the original pages.
pub proof fn lemma_protect_round_trip(
    m: Map<nat, PageAttrs>,
    entries: Seq<Region>,
    p: Protection,
    lo: int,
    hi: int,
    pz: int,
)
    requires
        pz > 0,
        0 <= lo,
        is_coalesced(m, entries, lo, hi, pz),
    ensures
        restored(with_protection(m, lo as nat, hi as nat, p), entries, pz) == m,
{
    let mp = with_protection(m, lo as nat, hi as nat, p);
    assert(mp.dom() =~= m.dom());
    assert forall|k: nat| #[trigger] mp.contains_key(k) implies mp[k].committed == m[k].committed
        && mp[k].guarded == m[k].guarded && mp[k].shared == m[k].shared by {
        assert(m.contains_key(k));
    }
    assert forall|k: nat| #[trigger] mp.contains_key(k) && !(lo <= k < hi) implies mp[k]
        == m[k] by {
        assert(m.contains_key(k));
    }
    lemma_restored_undoes(m, mp, entries, lo, hi, pz);
}

/// Applying one protection to a span keeps the pages' shape: the mapping
/// and every non-protection field are untouched.
proof fn lemma_with_protection_same_shape(m: Map<nat, PageAttrs>, lo: nat, hi: nat, p: Protection)
    ensures
        same_shape(m, with_protection(m, lo, hi, p)),
{
    let mp = with_protection(m, lo, hi, p);
    assert(mp.dom() =~= m.dom());
    assert forall|k: nat| #[trigger] mp.contains_key(k) implies mp[k].committed == m[k].committed
        && mp[k].guarded == m[k].guarded && mp[k].shared == m[k].shared by {
        assert(m.contains_key(k));
    }
}

/// Sharing a shape is transitive.
proof fn lemma_same_shape_trans(a: Map<nat, PageAttrs>, b: Map<nat, PageAttrs>, c: Map<
    nat,
    PageAttrs,
>)
    requires
        same_shape(a, b),
        same_shape(b, c),
    ensures
        same_shape(a, c),
{
    assert forall|k: nat| #[trigger] c.contains_key(k) implies c[k].committed == a[k].committed
        && c[k].guarded == a[k].guarded && c[k].shared == a[k].shared by {
        assert(b.contains_key(k));
    }
}

/// Restoring one more entry is applying that entry's protection after
/// restoring the entries before it.
proof fn lemma_restored_snoc(m: Map<nat, PageAttrs>, entries: Seq<Region>, i: int, pz: int)
    requires
        0 <= i < entries.len(),
    ensures
        restored(m, entries.subrange(0, i + 1), pz) == ({
            let e = entries[i];
            let lo = e.spec_base() as int / pz;
            let hi = (e.spec_base() as int + e.spec_size() as int) / pz;
            with_protection(
                restored(m, entries.subrange(0, i), pz),
                lo as nat,
                hi as nat,
                e.spec_protection(),
            )
        }),
    decreases i,
{
    let e0 = entries[0];
    let lo0 = e0.spec_base() as int / pz;
    let hi0 = (e0.spec_base() as int + e0.spec_size() as int) / pz;
    let m1 = with_protection(m, lo0 as nat, hi0 as nat, e0.spec_protection());
    if i == 0 {
        let one = entries.subrange(0, 1);
        assert(one[0] == e0);
        assert(one.subrange(1, one.len() as int) =~= Seq::<Region>::empty());
        assert(restored(m, one, pz) == restored(m1, Seq::<Region>::empty(), pz));
        assert(entries.subrange(0, 0) =~= Seq::<Region>::empty());
    } else {
        let tail = entries.subrange(1, entries.len() as int);
        lemma_restored_snoc(m1, tail, i - 1, pz);
        let upto = entries.subrange(0, i + 1);
        assert(upto[0] == e0);
        assert(upto.subrange(1, upto.len() as int) =~= tail.subrange(0, i));
        assert(restored(m, upto, pz) == restored(m1, tail.subrange(0, i), pz));
        let before = entries.subrange(0, i);
        assert(before[0] == e0);
        assert(before.subrange(1, before.len() as int) =~= tail.subrange(0, i - 1));
        assert(restored(m, before, pz) == restored(m1, tail.subrange(0, i - 1), pz));
        assert(tail[i - 1] == entries[i]);
    }
}

/// Like [`protect`], but first snapshots the protections of every
/// pre-existing sub-region of the affected span and, on success, returns a
/// guard that restores them.
pub fn protect_with_handle<P: PageTable>(
    pt: &mut P,
    address: usize,
    size: usize,
    protection: Protection,
) -> (r: Result<ProtectGuard, Error>)
    requires
        size != 0 ==> page_ceil(address as int + size as int, old(pt).spec_page_size() as int)
            <= usize::MAX as int,
    ensures
        final(pt).spec_page_size() == old(pt).spec_page_size(),
        final(pt).locked() == old(pt).locked(),
        ({
            let pz = old(pt).spec_page_size() as int;
            let lo = page_floor(address as int, pz) / pz;
            let hi = page_ceil(address as int + size as int, pz) / pz;
            match r {
                Ok(g) => size != 0 && g.spec_active() && is_coalesced(
                    old(pt).pages(),
                    g.spec_regions(),
                    lo,
                    hi,
                    pz,
                ) && final(pt).pages() == with_protection(
                    old(pt).pages(),
                    lo as nat,
                    hi as nat,
                    protection,
                ),
                Err(e) => final(pt).pages() == old(pt).pages() && (size == 0 <==> e
                    matches Error::InvalidParameter(_)) && (size == 0 ==> e.is_invalid_size()),
            }
        }),
{
    let snapshot = match query_range(pt, address, size) {
        Ok(v) => v,
        Err(e) => {
            return Err(e);
        },
    };
    match protect(pt, address, size, protection) {
        Ok(_) => Ok(ProtectGuard { regions: snapshot, active: true }),
        Err(e) => Err(e),
    }
}

impl ProtectGuard {
    /// Whether the guard still holds restoration data.
    pub closed spec fn spec_active(&self) -> bool {
        self.active
    }

    /// The recorded sub-regions, in ascending address order.
    pub closed spec fn spec_regions(&self) -> Seq<Region> {
        self.regions@
    }

    /// Returns whether the guard still holds restoration data.
    pub fn is_active(&self) -> (r: bool)
        ensures
            r == self.spec_active(),
    {
        self.active
    }

    /// Restores the recorded protection of every sub-region, in order.
    /// Restoration is best-effort: every sub-span is attempted even after
    /// an earlier failure, and the first failure alone is reported.
    /// Releasing an already released guard is a no-op that reports
    /// success, and releasing clears the recorded data.
    pub fn release<P: PageTable>(&mut self, pt: &mut P) -> (r: Result<(), Error>)
        ensures
            !final(self).spec_active(),
            final(self).spec_regions().len() == 0,
            final(pt).spec_page_size() == old(pt).spec_page_size(),
            final(pt).locked() == old(pt).locked(),
            same_shape(old(pt).pages(), final(pt).pages()),
            !old(self).spec_active() ==> final(pt).pages() == old(pt).pages() && r matches Ok(_),
            (old(self).spec_active() && (forall|j: int|
                0 <= j < old(self).spec_regions().len() ==> span_wf(
                    (#[trigger] old(self).spec_regions()[j]).spec_base(),
                    old(self).spec_regions()[j].spec_size(),
                    old(pt).spec_page_size(),
                ))) ==> !(r matches Err(Error::InvalidParameter(_))),
            old(self).spec_active() && (r matches Ok(_)) ==> final(pt).pages() == restored(
                old(pt).pages(),
                old(self).spec_regions(),
                old(pt).spec_page_size() as int,
            ),
    {
        if !self.active {
            self.regions = Vec::new();
            proof {
                assert(same_shape(pt.pages(), pt.pages()));
            }
            return Ok(());
        }
        self.active = false;
        let pz = pt.page_size();
        let ghost m0 = pt.pages();
        let ghost entries = self.regions@;
        proof {
            assert(entries == old(self).spec_regions());
        }
        let mut first_err: Option<Error> = None;
        let mut i: usize = 0;
        proof {
            assert(entries.subrange(0, 0) =~= Seq::<Region>::empty());
        }
        while i < self.regions.len()
            invariant
                pz as nat == pt.spec_page_size(),
                pz > 0,
                pt.spec_page_size() == old(pt).spec_page_size(),
                pt.locked() == old(pt).locked(),
                m0 == old(pt).pages(),
                self.regions@ == entries,
                i <= entries.len(),
                same_shape(m0, pt.pages()),
                first_err is None ==> pt.pages() == restored(
                    m0,
                    entries.subrange(0, i as int),
                    pz as int,
                ),
                (forall|j: int|
                    0 <= j < entries.len() ==> span_wf(
                        (#[trigger] entries[j]).spec_base(),
                        entries[j].spec_size(),
                        pz as nat,
                    )) ==> !(first_err matches Some(Error::InvalidParameter(_))),
            decreases entries.len() - i,
        {
            let region = self.regions[i];
            let base = region.as_ptr();
            let size = region.len();
            let prot = region.protection();
            let ghost before = pt.pages();
            if size > 0 && base % pz == 0 && size % pz == 0 && base <= usize::MAX - size {
                let outcome = pt.set_protection(base, size, prot);
                proof {
                    let loi = base as int / pz as int;
                    let hii = (base as int + size as int) / pz as int;
                    lemma_with_protection_same_shape(
                        before,
                        loi as nat,
                        hii as nat,
                        prot,
                    );
                    lemma_same_shape_trans(m0, before, pt.pages());
                    if first_err is None && outcome is Ok {
                        lemma_restored_snoc(m0, entries, i as int, pz as int);
                        assert(pt.pages() == restored(
                            m0,
                            entries.subrange(0, i as int + 1),
                            pz as int,
                        ));
                    }
                }
                match outcome {
                    Ok(_) => {},
                    Err(e) => {
                        if first_err.is_none() {
                            first_err = Some(e);
                        }
                    },
                }
            } else {
                proof {
                    if forall|j: int|
                        0 <= j < entries.len() ==> span_wf(
                            (#[trigger] entries[j]).spec_base(),
                            entries[j].spec_size(),
                            pz as nat,
                        ) {
                        assert(span_wf(
                            entries[i as int].spec_base(),
                            entries[i as int].spec_size(),
                            pz as nat,
                        ));
                        assert(false);
                    }
                }
                if first_err.is_none() {
                    first_err = Some(Error::InvalidParameter("size"));
                }
            }
            i = i + 1;
        }
        self.regions = Vec::new();
        proof {
            assert(entries.subrange(0, entries.len() as int) =~= entries);
        }
        match first_err {
            None => Ok(()),
            Some(e) => Err(e),
        }
    }
}

} // verus!
