//! Access sets condensed against a fixed type vocabulary.
//!
//! Once a schedule knows every distinct item its systems touch, each access
//! set is projected onto that universe, producing two bitsets.  The hot-path
//! compatibility check then reduces to a pair of bitset disjointness tests.

use vstd::prelude::*;

use fixedbitset::FixedBitSet;

use crate::access::access_compatible;
use crate::bitset::bitset_clear;
use crate::bitset::bitset_clone;
use crate::bitset::bitset_contains;
use crate::bitset::bitset_count_ones;
use crate::bitset::bitset_elems;
use crate::bitset::bitset_grow;
use crate::bitset::bitset_is_disjoint;
use crate::bitset::bitset_new;
use crate::bitset::bitset_union_with;

verus! {

/// The positions of the universe `u` whose item lies in `s`.
pub open spec fn condensed_indices<T>(u: Seq<T>, s: Set<T>) -> Set<usize> {
    Set::new(|i: usize| i < u.len() && s.contains(u[i as int]))
}

/// The read-and-write bit positions that condensing produces: empty under
/// unrestricted read, since the flag alone then decides compatibility.
pub open spec fn condensed_rw_indices<T>(reads_all: bool, u: Seq<T>, rw: Set<T>) -> Set<usize> {
    if reads_all {
        Set::<usize>::empty()
    } else {
        condensed_indices(u, rw)
    }
}

/// An access set compressed against a fixed type vocabulary: one bit per
/// universe position, for the hot-path compatibility check.
pub struct CondensedTypeAccess {
    reads_all: bool,
    reads_and_writes: FixedBitSet,
    writes: FixedBitSet,
}

impl CondensedTypeAccess {
    /// The bit positions read or written.
    pub closed spec fn rw_bits(&self) -> Set<usize> {
        bitset_elems(self.reads_and_writes)
    }

    /// The bit positions written.
    pub closed spec fn w_bits(&self) -> Set<usize> {
        bitset_elems(self.writes)
    }

    /// Whether unrestricted read access was recorded.
    pub closed spec fn spec_reads_all(&self) -> bool {
        self.reads_all
    }

    /// Compatibility of `self` with `other`, as a predicate over the views.
    pub open spec fn compatible_with(&self, other: &CondensedTypeAccess) -> bool {
        access_compatible(
            self.spec_reads_all(),
            self.rw_bits(),
            self.w_bits(),
            other.spec_reads_all(),
            other.rw_bits(),
            other.w_bits(),
        )
    }

    /// Builds a condensed access from its parts.
    pub(crate) fn from_parts(reads_all: bool, reads_and_writes: FixedBitSet, writes: FixedBitSet)
        -> (r: Self)
        ensures
            r.spec_reads_all() == reads_all,
            r.rw_bits() == bitset_elems(reads_and_writes),
            r.w_bits() == bitset_elems(writes),
    {
        CondensedTypeAccess { reads_all, reads_and_writes, writes }
    }

    /// An access that reads and writes no position.
    pub fn empty() -> (r: Self)
        ensures
            !r.spec_reads_all(),
            r.rw_bits() =~= Set::<usize>::empty(),
            r.w_bits() =~= Set::<usize>::empty(),
    {
        CondensedTypeAccess {
            reads_all: false,
            reads_and_writes: bitset_new(),
            writes: bitset_new(),
        }
    }

    /// A copy with the same views.
    pub fn duplicate(&self) -> (r: Self)
        ensures
            r.spec_reads_all() == self.spec_reads_all(),
            r.rw_bits() == self.rw_bits(),
            r.w_bits() == self.w_bits(),
    {
        CondensedTypeAccess {
            reads_all: self.reads_all,
            reads_and_writes: bitset_clone(&self.reads_and_writes),
            writes: bitset_clone(&self.writes),
        }
    }

    /// Enlarges both bitsets to hold at least `bits` positions.
    pub fn grow(&mut self, bits: usize)
        ensures
            final(self).spec_reads_all() == old(self).spec_reads_all(),
            final(self).rw_bits() == old(self).rw_bits(),
            final(self).w_bits() == old(self).w_bits(),
    {
        bitset_grow(&mut self.reads_and_writes, bits);
        bitset_grow(&mut self.writes, bits);
    }

    /// Whether unrestricted read access was recorded.
    pub fn reads_all(&self) -> (r: bool)
        ensures
            r == self.spec_reads_all(),
    {
        self.reads_all
    }

    /// Whether the position is read or written (under no unrestricted read).
    pub fn has_read_or_write(&self, bit: usize) -> (r: bool)
        ensures
            r == self.rw_bits().contains(bit),
    {
        bitset_contains(&self.reads_and_writes, bit)
    }

    /// Whether the position is written.
    pub fn has_write(&self, bit: usize) -> (r: bool)
        ensures
            r == self.w_bits().contains(bit),
    {
        bitset_contains(&self.writes, bit)
    }

    /// Forgets everything that was recorded, keeping the allocation.
    pub fn clear(&mut self)
        ensures
            !final(self).spec_reads_all(),
            final(self).rw_bits() =~= Set::<usize>::empty(),
            final(self).w_bits() =~= Set::<usize>::empty(),
    {
        self.reads_all = false;
        bitset_clear(&mut self.reads_and_writes);
        bitset_clear(&mut self.writes);
    }

    /// Unions `other` into `self`, used for accumulating active access.
    pub fn extend(&mut self, other: &CondensedTypeAccess)
        ensures
            final(self).spec_reads_all() == (old(self).spec_reads_all()
                || other.spec_reads_all()),
            final(self).rw_bits() =~= old(self).rw_bits().union(other.rw_bits()),
            final(self).w_bits() =~= old(self).w_bits().union(other.w_bits()),
    {
        self.reads_all = self.reads_all || other.reads_all;
        bitset_union_with(&mut self.reads_and_writes, &other.reads_and_writes);
        bitset_union_with(&mut self.writes, &other.writes);
    }

    /// Decides whether `self` and `other` may run at the same time: two
    /// disjointness tests, or an emptiness test under unrestricted read.
    pub fn is_compatible(&self, other: &CondensedTypeAccess) -> (r: bool)
        ensures
            r == self.compatible_with(other),
    {
        if self.reads_all && other.reads_all {
            0 == bitset_count_ones(&self.writes) && 0 == bitset_count_ones(&other.writes)
        } else if self.reads_all {
            0 == bitset_count_ones(&other.writes)
        } else if other.reads_all {
            0 == bitset_count_ones(&self.writes)
        } else {
            bitset_is_disjoint(&self.writes, &other.reads_and_writes) && bitset_is_disjoint(
                &self.reads_and_writes,
                &other.writes,
            )
        }
    }
}

/// Projecting two covered sets onto a universe preserves disjointness in
/// both directions.
proof fn lemma_condensed_indices_disjoint<T>(u: Seq<T>, s1: Set<T>, s2: Set<T>)
    requires
        u.len() <= usize::MAX,
        s1 <= u.to_set(),
    ensures
        condensed_indices(u, s1).disjoint(condensed_indices(u, s2)) <==> s1.disjoint(s2),
{
    if s1.disjoint(s2) {
        assert forall|i: usize| condensed_indices(u, s1).contains(i) implies !condensed_indices(
            u,
            s2,
        ).contains(i) by {
            assert(s1.contains(u[i as int]));
        }
    }
    if condensed_indices(u, s1).disjoint(condensed_indices(u, s2)) {
        assert forall|x: T| s1.contains(x) implies !s2.contains(x) by {
            assert(u.to_set().contains(x));
            let j = choose|j: int| 0 <= j < u.len() && u[j] == x;
            assert(0 <= j <= usize::MAX);
            assert((j as usize) as int == j);
            assert(condensed_indices(u, s1).contains(j as usize));
            assert(!condensed_indices(u, s2).contains(j as usize));
        }
    }
}

/// Projecting a covered set onto a universe preserves emptiness in both
/// directions.
proof fn lemma_condensed_indices_empty<T>(u: Seq<T>, s: Set<T>)
    requires
        u.len() <= usize::MAX,
        s <= u.to_set(),
    ensures
        condensed_indices(u, s).is_empty() <==> s.is_empty(),
{
    if s.is_empty() {
        assert forall|i: usize| !condensed_indices(u, s).contains(i) by {
            if condensed_indices(u, s).contains(i) {
                assert(s.contains(u[i as int]));
            }
        }
        assert(condensed_indices(u, s) =~= Set::<usize>::empty());
    }
    if condensed_indices(u, s).is_empty() {
        assert forall|x: T| !s.contains(x) by {
            if s.contains(x) {
                assert(u.to_set().contains(x));
                let j = choose|j: int| 0 <= j < u.len() && u[j] == x;
                assert(0 <= j <= usize::MAX);
                assert((j as usize) as int == j);
                assert(condensed_indices(u, s).contains(j as usize));
            }
        }
        assert(s =~= Set::<T>::empty());
    }
}

/// Condensing is a homomorphism for compatibility: as long as the universe
/// covers the items each side records, the compatibility verdict between two
/// condensed accesses agrees with the verdict between the full accesses they
/// were condensed from.
pub proof fn lemma_condense_is_homomorphism<T>(
    ra1: bool,
    rw1: Set<T>,
    w1: Set<T>,
    ra2: bool,
    rw2: Set<T>,
    w2: Set<T>,
    u: Seq<T>,
)
    requires
        u.len() <= usize::MAX,
        w1 <= rw1,
        w2 <= rw2,
        if ra1 {
            w1 <= u.to_set()
        } else {
            rw1 <= u.to_set()
        },
        if ra2 {
            w2 <= u.to_set()
        } else {
            rw2 <= u.to_set()
        },
    ensures
        access_compatible(
            ra1,
            condensed_rw_indices(ra1, u, rw1),
            condensed_indices(u, w1),
            ra2,
            condensed_rw_indices(ra2, u, rw2),
            condensed_indices(u, w2),
        ) <==> access_compatible(ra1, rw1, w1, ra2, rw2, w2),
{
    assert(w1 <= u.to_set());
    assert(w2 <= u.to_set());
    lemma_condensed_indices_empty(u, w1);
    lemma_condensed_indices_empty(u, w2);
    if !ra1 && !ra2 {
        lemma_condensed_indices_disjoint(u, w1, rw2);
        lemma_condensed_indices_disjoint(u, rw1, w2);
    }
}

/// Re-condensing against the same universe yields identical bitsets: the
/// projection is a function of the access views and the universe alone.
pub proof fn lemma_recondense_identical<T>(
    ra: bool,
    rw: Set<T>,
    w: Set<T>,
    u: Seq<T>,
    ra1: bool,
    rw1: Set<usize>,
    w1: Set<usize>,
    ra2: bool,
    rw2: Set<usize>,
    w2: Set<usize>,
)
    requires
        ra1 == ra,
        rw1 == condensed_rw_indices(ra, u, rw),
        w1 == condensed_indices(u, w),
        ra2 == ra,
        rw2 == condensed_rw_indices(ra, u, rw),
        w2 == condensed_indices(u, w),
    ensures
        ra1 == ra2,
        rw1 == rw2,
        w1 == w2,
{
}

} // verus!
