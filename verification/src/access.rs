//! Read/write permission sets over a type universe.
//!
//! A [`TypeAccess`] records which items of some universe a system may read or
//! write, plus an unrestricted-read flag.  Two systems may run at the same
//! time only when their accesses are compatible: neither writes anything the
//! other reads or writes.

use vstd::prelude::*;

use fixedbitset::FixedBitSet;

use crate::bitset::bitset_elems;
use crate::bitset::bitset_insert;
use crate::bitset::bitset_len;
use crate::bitset::bitset_new;
use crate::bitset::bitset_with_capacity;
use crate::condensed::condensed_indices;
use crate::condensed::condensed_rw_indices;
use crate::condensed::CondensedTypeAccess;

verus! {

/// Keys of a type universe: plain values whose executable equality agrees
/// with mathematical equality.
pub trait PlainEq: Sized {
    /// Decides equality of two keys.
    fn plain_eq(&self, other: &Self) -> (r: bool)
        ensures
            r <==> (self == other),
    ;
}

impl PlainEq for u64 {
    fn plain_eq(&self, other: &Self) -> (r: bool)
        ensures
            r <==> (self == other),
    {
        *self == *other
    }
}

impl PlainEq for usize {
    fn plain_eq(&self, other: &Self) -> (r: bool)
        ensures
            r <==> (self == other),
    {
        *self == *other
    }
}

/// A component type within one archetype: the finest grain at which the
/// scheduler tracks world access.
#[derive(Clone, Copy, PartialEq, Eq, Structural)]
pub struct ArchetypeComponent {
    pub archetype_index: u32,
    pub component: u64,
}

impl ArchetypeComponent {
    /// Pairs an archetype with the identifier of a component type.
    pub fn new(archetype_index: u32, component: u64) -> (r: Self)
        ensures
            r == (ArchetypeComponent { archetype_index, component }),
    {
        ArchetypeComponent { archetype_index, component }
    }

    /// Same pairing, from an already-obtained type identifier.
    pub fn new_ty(archetype_index: u32, component: u64) -> (r: Self)
        ensures
            r == (ArchetypeComponent { archetype_index, component }),
    {
        ArchetypeComponent { archetype_index, component }
    }
}

impl PlainEq for ArchetypeComponent {
    fn plain_eq(&self, other: &Self) -> (r: bool)
        ensures
            r <==> (self == other),
    {
        self.archetype_index == other.archetype_index && self.component == other.component
    }
}

/// Whether `x` occurs in `v`.
pub fn slice_contains<T: PlainEq>(v: &Vec<T>, x: &T) -> (r: bool)
    ensures
        r == v@.contains(*x),
{
    let n = v.len();
    let mut i: usize = 0;
    while i < n
        invariant
            0 <= i <= n,
            n == v@.len(),
            forall|j: int| 0 <= j < i ==> v@[j] != *x,
        decreases n - i,
    {
        if v[i].plain_eq(x) {
            assert(v@.contains(*x)) by {
                assert(v@[i as int] == *x);
            }
            return true;
        }
        i += 1;
    }
    false
}

/// Whether `a` and `b` have no element in common.
pub fn slices_disjoint<T: PlainEq>(a: &Vec<T>, b: &Vec<T>) -> (r: bool)
    ensures
        r == a@.to_set().disjoint(b@.to_set()),
{
    let n = a.len();
    let mut i: usize = 0;
    while i < n
        invariant
            0 <= i <= n,
            n == a@.len(),
            forall|j: int| 0 <= j < i ==> !b@.contains(#[trigger] a@[j]),
        decreases n - i,
    {
        if slice_contains(b, &a[i]) {
            assert(!a@.to_set().disjoint(b@.to_set())) by {
                assert(a@.to_set().contains(a@[i as int]));
            }
            return false;
        }
        i += 1;
    }
    assert forall|x: T| a@.to_set().contains(x) implies !b@.to_set().contains(x) by {
        let j = choose|j: int| 0 <= j < a@.len() && a@[j] == x;
        assert(!b@.contains(a@[j]));
    }
    true
}

/// Appends `x` to `v` unless it is already present.
pub(crate) fn push_unique<T: PlainEq + Copy>(v: &mut Vec<T>, x: T)
    ensures
        final(v)@.to_set() =~= old(v)@.to_set().insert(x),
        old(v)@.no_duplicates() ==> final(v)@.no_duplicates(),
{
    let present = slice_contains(v, &x);
    if !present {
        v.push(x);
        assert(v@.drop_last() =~= old(v)@);
        assert forall|y: T| v@.contains(y) implies old(v)@.to_set().insert(x).contains(y) by {
            let j = choose|j: int| 0 <= j < v@.len() && v@[j] == y;
            if j < old(v)@.len() {
                assert(old(v)@[j] == y);
            }
        }
        assert forall|y: T| old(v)@.to_set().insert(x).contains(y) implies v@.contains(y) by {
            if y == x {
                assert(v@[v@.len() - 1] == x);
            } else {
                let j = choose|j: int| 0 <= j < old(v)@.len() && old(v)@[j] == y;
                assert(v@[j] == y);
            }
        }
        assert(old(v)@.no_duplicates() ==> v@.no_duplicates()) by {
            if old(v)@.no_duplicates() {
                assert forall|i: int, j: int|
                    0 <= i < v@.len() && 0 <= j < v@.len() && i != j implies v@[i] != v@[j] by {
                    if i < old(v)@.len() && j < old(v)@.len() {
                        assert(old(v)@[i] == v@[i] && old(v)@[j] == v@[j]);
                    } else if i == old(v)@.len() {
                        assert(!old(v)@.contains(x));
                        assert(old(v)@[j] == v@[j]);
                    } else {
                        assert(!old(v)@.contains(x));
                        assert(old(v)@[i] == v@[i]);
                    }
                }
            }
        }
    } else {
        assert(v@.to_set() =~= old(v)@.to_set().insert(x));
    }
}

/// States when two accesses may hold at the same time: an unrestricted
/// reader tolerates no writer on the other side (when both read all, both
/// write sets must be empty), and otherwise neither side may write what the
/// other reads or writes.
pub open spec fn access_compatible<T>(
    reads_all1: bool,
    rw1: Set<T>,
    w1: Set<T>,
    reads_all2: bool,
    rw2: Set<T>,
    w2: Set<T>,
) -> bool {
    if reads_all1 && reads_all2 {
        w1.is_empty() && w2.is_empty()
    } else if reads_all1 {
        w2.is_empty()
    } else if reads_all2 {
        w1.is_empty()
    } else {
        w1.disjoint(rw2) && rw1.disjoint(w2)
    }
}

/// Provides information about the items of a universe that a system reads
/// and writes.
pub struct TypeAccess<T> {
    reads_all: bool,
    reads_and_writes: Vec<T>,
    writes: Vec<T>,
}

impl<T: PlainEq + Copy> TypeAccess<T> {
    /// The set of items read or written.
    pub closed spec fn rw_set(&self) -> Set<T> {
        self.reads_and_writes@.to_set()
    }

    /// The set of items written.
    pub closed spec fn w_set(&self) -> Set<T> {
        self.writes@.to_set()
    }

    /// Whether unrestricted read access was recorded.
    pub closed spec fn spec_reads_all(&self) -> bool {
        self.reads_all
    }

    /// Internal invariant: the recorded item lists hold no duplicates, and
    /// everything written is also recorded as read-or-written.
    pub closed spec fn wf(&self) -> bool {
        &&& self.reads_and_writes@.no_duplicates()
        &&& self.writes@.no_duplicates()
        &&& self.w_set() <= self.rw_set()
    }

    /// Compatibility of `self` with `other`, as a predicate over the views.
    pub open spec fn compatible_with(&self, other: &TypeAccess<T>) -> bool {
        access_compatible(
            self.spec_reads_all(),
            self.rw_set(),
            self.w_set(),
            other.spec_reads_all(),
            other.rw_set(),
            other.w_set(),
        )
    }

    /// An access that reads and writes nothing.
    pub fn empty() -> (r: Self)
        ensures
            r.wf(),
            !r.spec_reads_all(),
            r.rw_set() =~= Set::<T>::empty(),
            r.w_set() =~= Set::<T>::empty(),
    {
        TypeAccess { reads_all: false, reads_and_writes: Vec::new(), writes: Vec::new() }
    }

    /// An access reading `reads` and `writes`, and writing `writes`.
    pub fn new(reads: Vec<T>, writes: Vec<T>) -> (r: Self)
        ensures
            r.wf(),
            !r.spec_reads_all(),
            r.rw_set() =~= reads@.to_set().union(writes@.to_set()),
            r.w_set() =~= writes@.to_set(),
    {
        let mut access = TypeAccess::empty();
        let n_w = writes.len();
        let mut i: usize = 0;
        while i < n_w
            invariant
                0 <= i <= n_w,
                n_w == writes@.len(),
                access.wf(),
                !access.spec_reads_all(),
                access.rw_set() =~= writes@.take(i as int).to_set(),
                access.w_set() =~= writes@.take(i as int).to_set(),
            decreases n_w - i,
        {
            access.add_write(writes[i]);
            proof {
                lemma_to_set_take_succ(writes@, i as int);
            }
            i += 1;
        }
        assert(writes@.take(n_w as int) =~= writes@);
        let n_r = reads.len();
        let mut i: usize = 0;
        while i < n_r
            invariant
                0 <= i <= n_r,
                n_r == reads@.len(),
                access.wf(),
                !access.spec_reads_all(),
                access.rw_set() =~= reads@.take(i as int).to_set().union(writes@.to_set()),
                access.w_set() =~= writes@.to_set(),
            decreases n_r - i,
        {
            access.add_read(reads[i]);
            proof {
                lemma_to_set_take_succ(reads@, i as int);
            }
            i += 1;
        }
        assert(reads@.take(n_r as int) =~= reads@);
        access
    }

    /// Records that an item may be read.
    pub fn add_read(&mut self, ty: T)
        requires
            old(self).wf(),
        ensures
            final(self).wf(),
            final(self).rw_set() =~= old(self).rw_set().insert(ty),
            final(self).w_set() == old(self).w_set(),
            final(self).spec_reads_all() == old(self).spec_reads_all(),
    {
        push_unique(&mut self.reads_and_writes, ty);
    }

    /// Records that an item may be read and written.
    pub fn add_write(&mut self, ty: T)
        requires
            old(self).wf(),
        ensures
            final(self).wf(),
            final(self).rw_set() =~= old(self).rw_set().insert(ty),
            final(self).w_set() =~= old(self).w_set().insert(ty),
            final(self).spec_reads_all() == old(self).spec_reads_all(),
    {
        push_unique(&mut self.reads_and_writes, ty);
        push_unique(&mut self.writes, ty);
    }

    /// Records unrestricted read access: any other party holding any write
    /// becomes incompatible.
    pub fn read_all(&mut self)
        requires
            old(self).wf(),
        ensures
            final(self).wf(),
            final(self).spec_reads_all(),
            final(self).rw_set() == old(self).rw_set(),
            final(self).w_set() == old(self).w_set(),
    {
        self.reads_all = true;
    }

    /// Forgets everything that was recorded.
    pub fn clear(&mut self)
        ensures
            final(self).wf(),
            !final(self).spec_reads_all(),
            final(self).rw_set() =~= Set::<T>::empty(),
            final(self).w_set() =~= Set::<T>::empty(),
    {
        self.reads_all = false;
        self.reads_and_writes.clear();
        self.writes.clear();
    }

    /// Unions `other` into `self`, used for accumulating active access.
    pub fn extend(&mut self, other: &TypeAccess<T>)
        requires
            old(self).wf(),
            other.wf(),
        ensures
            final(self).wf(),
            final(self).rw_set() =~= old(self).rw_set().union(other.rw_set()),
            final(self).w_set() =~= old(self).w_set().union(other.w_set()),
            final(self).spec_reads_all() == (old(self).spec_reads_all() || other.spec_reads_all()),
    {
        self.reads_all = self.reads_all || other.reads_all;
        let n_w = other.writes.len();
        let mut i: usize = 0;
        while i < n_w
            invariant
                0 <= i <= n_w,
                n_w == other.writes@.len(),
                self.wf(),
                self.spec_reads_all() == (old(self).spec_reads_all() || other.spec_reads_all()),
                self.rw_set() =~= old(self).rw_set().union(
                    other.writes@.take(i as int).to_set(),
                ),
                self.w_set() =~= old(self).w_set().union(other.writes@.take(i as int).to_set()),
            decreases n_w - i,
        {
            self.add_write(other.writes[i]);
            proof {
                lemma_to_set_take_succ(other.writes@, i as int);
            }
            i += 1;
        }
        assert(other.writes@.take(n_w as int) =~= other.writes@);
        let n_rw = other.reads_and_writes.len();
        let mut i: usize = 0;
        while i < n_rw
            invariant
                0 <= i <= n_rw,
                n_rw == other.reads_and_writes@.len(),
                self.wf(),
                self.spec_reads_all() == (old(self).spec_reads_all() || other.spec_reads_all()),
                self.rw_set() =~= old(self).rw_set().union(other.w_set()).union(
                    other.reads_and_writes@.take(i as int).to_set(),
                ),
                self.w_set() =~= old(self).w_set().union(other.w_set()),
            decreases n_rw - i,
        {
            self.add_read(other.reads_and_writes[i]);
            proof {
                lemma_to_set_take_succ(other.reads_and_writes@, i as int);
            }
            i += 1;
        }
        assert(other.reads_and_writes@.take(n_rw as int) =~= other.reads_and_writes@);
        assert(self.rw_set() =~= old(self).rw_set().union(other.rw_set()));
    }

    /// Decides whether `self` and `other` may run at the same time.
    pub fn is_compatible(&self, other: &TypeAccess<T>) -> (r: bool)
        ensures
            r == self.compatible_with(other),
    {
        if self.reads_all && other.reads_all {
            let empty = self.writes.len() == 0 && other.writes.len() == 0;
            proof {
                if self.writes@.len() == 0 {
                    assert(self.writes@ =~= Seq::<T>::empty());
                    assert(self.w_set() =~= Set::<T>::empty());
                } else {
                    assert(self.w_set().contains(self.writes@[0]));
                }
                if other.writes@.len() == 0 {
                    assert(other.writes@ =~= Seq::<T>::empty());
                    assert(other.w_set() =~= Set::<T>::empty());
                } else {
                    assert(other.w_set().contains(other.writes@[0]));
                }
            }
            empty
        } else if self.reads_all {
            let empty = other.writes.len() == 0;
            proof {
                if empty {
                    assert(other.writes@ =~= Seq::<T>::empty());
                    assert(other.w_set() =~= Set::<T>::empty());
                } else {
                    assert(other.w_set().contains(other.writes@[0]));
                }
            }
            empty
        } else if other.reads_all {
            let empty = self.writes.len() == 0;
            proof {
                if empty {
                    assert(self.writes@ =~= Seq::<T>::empty());
                    assert(self.w_set() =~= Set::<T>::empty());
                } else {
                    assert(self.w_set().contains(self.writes@[0]));
                }
            }
            empty
        } else {
            slices_disjoint(&self.writes, &other.reads_and_writes) && slices_disjoint(
                &self.reads_and_writes,
                &other.writes,
            )
        }
    }

    /// Returns an item witnessing incompatibility, if there is one.
    pub fn get_conflict(&self, other: &TypeAccess<T>) -> (r: Option<T>)
        ensures
            r is Some <==> !self.compatible_with(other),
            match r {
                Some(x) => {
                    if self.spec_reads_all() && other.spec_reads_all() {
                        self.w_set().contains(x) || other.w_set().contains(x)
                    } else if self.spec_reads_all() {
                        other.w_set().contains(x)
                    } else if other.spec_reads_all() {
                        self.w_set().contains(x)
                    } else {
                        (self.w_set().contains(x) && other.rw_set().contains(x)) || (
                        other.w_set().contains(x) && self.rw_set().contains(x))
                    }
                },
                None => self.compatible_with(other),
            },
    {
        if self.reads_all && other.reads_all {
            if self.writes.len() > 0 {
                let x = self.writes[0];
                proof {
                    assert(self.w_set().contains(self.writes@[0]));
                    assert(!self.w_set().is_empty());
                }
                Some(x)
            } else if other.writes.len() > 0 {
                let x = other.writes[0];
                proof {
                    assert(self.writes@ =~= Seq::<T>::empty());
                    assert(self.w_set() =~= Set::<T>::empty());
                    assert(other.w_set().contains(other.writes@[0]));
                    assert(!other.w_set().is_empty());
                }
                Some(x)
            } else {
                proof {
                    assert(self.writes@ =~= Seq::<T>::empty());
                    assert(self.w_set() =~= Set::<T>::empty());
                    assert(other.writes@ =~= Seq::<T>::empty());
                    assert(other.w_set() =~= Set::<T>::empty());
                }
                None
            }
        } else if self.reads_all {
            if other.writes.len() > 0 {
                let x = other.writes[0];
                proof {
                    assert(other.w_set().contains(other.writes@[0]));
                    assert(!other.w_set().is_empty());
                }
                Some(x)
            } else {
                proof {
                    assert(other.writes@ =~= Seq::<T>::empty());
                    assert(other.w_set() =~= Set::<T>::empty());
                }
                None
            }
        } else if other.reads_all {
            if self.writes.len() > 0 {
                let x = self.writes[0];
                proof {
                    assert(self.w_set().contains(self.writes@[0]));
                    assert(!self.w_set().is_empty());
                }
                Some(x)
            } else {
                proof {
                    assert(self.writes@ =~= Seq::<T>::empty());
                    assert(self.w_set() =~= Set::<T>::empty());
                }
                None
            }
        } else {
            match first_common(&self.writes, &other.reads_and_writes) {
                Some(x) => Some(x),
                None => first_common(&other.writes, &self.reads_and_writes),
            }
        }
    }

    /// Whether `ty` may be read or written under this access.
    pub fn is_read_or_write(&self, ty: &T) -> (r: bool)
        ensures
            r == (self.spec_reads_all() || self.rw_set().contains(*ty)),
    {
        self.reads_all || slice_contains(&self.reads_and_writes, ty)
    }

    /// Whether `ty` may be written under this access.
    pub fn is_write(&self, ty: &T) -> (r: bool)
        ensures
            r == self.w_set().contains(*ty),
    {
        slice_contains(&self.writes, ty)
    }

    /// Whether unrestricted read access was recorded.
    pub fn reads_all(&self) -> (r: bool)
        ensures
            r == self.spec_reads_all(),
    {
        self.reads_all
    }

    /// The distinct accessed items, if only some items are accessed.
    pub fn all_distinct_types(&self) -> (r: Option<Vec<T>>)
        requires
            self.wf(),
        ensures
            r is Some <==> !self.spec_reads_all(),
            match r {
                Some(v) => v@.to_set() == self.rw_set() && v@.no_duplicates(),
                None => true,
            },
    {
        if !self.reads_all {
            let n = self.reads_and_writes.len();
            let mut out: Vec<T> = Vec::new();
            let mut i: usize = 0;
            while i < n
                invariant
                    0 <= i <= n,
                    n == self.reads_and_writes@.len(),
                    out@ =~= self.reads_and_writes@.take(i as int),
                decreases n - i,
            {
                out.push(self.reads_and_writes[i]);
                assert(out@ =~= self.reads_and_writes@.take(i + 1));
                i += 1;
            }
            assert(self.reads_and_writes@.take(n as int) =~= self.reads_and_writes@);
            Some(out)
        } else {
            None
        }
    }

    /// Projects this access onto a dense universe of items, producing one
    /// bit per universe position.  Under unrestricted read only the write
    /// positions are kept: the flag alone then decides compatibility.
    pub fn condense(&self, all_types: &Vec<T>) -> (r: CondensedTypeAccess)
        requires
            self.wf(),
        ensures
            r.spec_reads_all() == self.spec_reads_all(),
            r.rw_bits() =~= condensed_rw_indices(
                self.spec_reads_all(),
                all_types@,
                self.rw_set(),
            ),
            r.w_bits() =~= condensed_indices(all_types@, self.w_set()),
    {
        let n = all_types.len();
        if self.reads_all {
            let mut writes: FixedBitSet = bitset_with_capacity(n);
            let mut i: usize = 0;
            while i < n
                invariant
                    0 <= i <= n,
                    n == all_types@.len(),
                    self.wf(),
                    bitset_len(writes) == n,
                    bitset_elems(writes) =~= Set::new(
                        |k: usize| k < i && self.w_set().contains(all_types@[k as int]),
                    ),
                decreases n - i,
            {
                if self.is_write(&all_types[i]) {
                    bitset_insert(&mut writes, i);
                }
                i += 1;
                assert(bitset_elems(writes) =~= Set::new(
                    |k: usize| k < i && self.w_set().contains(all_types@[k as int]),
                ));
            }
            assert(bitset_elems(writes) =~= condensed_indices(all_types@, self.w_set()));
            CondensedTypeAccess::from_parts(true, bitset_new(), writes)
        } else {
            let mut reads_and_writes: FixedBitSet = bitset_with_capacity(n);
            let mut writes: FixedBitSet = bitset_with_capacity(n);
            let mut i: usize = 0;
            while i < n
                invariant
                    0 <= i <= n,
                    n == all_types@.len(),
                    self.wf(),
                    !self.spec_reads_all(),
                    bitset_len(reads_and_writes) == n,
                    bitset_len(writes) == n,
                    bitset_elems(reads_and_writes) =~= Set::new(
                        |k: usize| k < i && self.rw_set().contains(all_types@[k as int]),
                    ),
                    bitset_elems(writes) =~= Set::new(
                        |k: usize| k < i && self.w_set().contains(all_types@[k as int]),
                    ),
                decreases n - i,
            {
                if self.is_write(&all_types[i]) {
                    bitset_insert(&mut reads_and_writes, i);
                    bitset_insert(&mut writes, i);
                } else if self.is_read_or_write(&all_types[i]) {
                    bitset_insert(&mut reads_and_writes, i);
                }
                i += 1;
                assert(bitset_elems(reads_and_writes) =~= Set::new(
                    |k: usize| k < i && self.rw_set().contains(all_types@[k as int]),
                ));
                assert(bitset_elems(writes) =~= Set::new(
                    |k: usize| k < i && self.w_set().contains(all_types@[k as int]),
                ));
            }
            assert(bitset_elems(reads_and_writes) =~= condensed_indices(
                all_types@,
                self.rw_set(),
            ));
            assert(bitset_elems(writes) =~= condensed_indices(all_types@, self.w_set()));
            CondensedTypeAccess::from_parts(false, reads_and_writes, writes)
        }
    }
}

/// Returns an element of `a` that also occurs in `b`, if any.
fn first_common<T: PlainEq + Copy>(a: &Vec<T>, b: &Vec<T>) -> (r: Option<T>)
    ensures
        r is Some <==> !a@.to_set().disjoint(b@.to_set()),
        match r {
            Some(x) => a@.to_set().contains(x) && b@.to_set().contains(x),
            None => a@.to_set().disjoint(b@.to_set()),
        },
{
    let n = a.len();
    let mut i: usize = 0;
    while i < n
        invariant
            0 <= i <= n,
            n == a@.len(),
            forall|j: int| 0 <= j < i ==> !b@.contains(#[trigger] a@[j]),
        decreases n - i,
    {
        if slice_contains(b, &a[i]) {
            proof {
                assert(a@.to_set().contains(a@[i as int]));
            }
            return Some(a[i]);
        }
        i += 1;
    }
    assert forall|x: T| a@.to_set().contains(x) implies !b@.to_set().contains(x) by {
        let j = choose|j: int| 0 <= j < a@.len() && a@[j] == x;
        assert(!b@.contains(a@[j]));
    }
    None
}

/// Taking one more element of a sequence inserts it into the element set.
pub proof fn lemma_to_set_take_succ<T>(s: Seq<T>, i: int)
    requires
        0 <= i < s.len(),
    ensures
        s.take(i + 1).to_set() =~= s.take(i).to_set().insert(s[i]),
{
    assert(s.take(i + 1) =~= s.take(i).push(s[i]));
    lemma_to_set_push(s.take(i), s[i]);
}

/// Pushing an element onto a sequence inserts it into the element set.
pub proof fn lemma_to_set_push<T>(s: Seq<T>, x: T)
    ensures
        s.push(x).to_set() =~= s.to_set().insert(x),
{
    assert forall|y: T| s.push(x).to_set().contains(y) implies s.to_set().insert(x).contains(
        y,
    ) by {
        let j = choose|j: int| 0 <= j < s.push(x).len() && s.push(x)[j] == y;
        if j < s.len() {
            assert(s[j] == y);
        }
    }
    assert forall|y: T| s.to_set().insert(x).contains(y) implies s.push(x).to_set().contains(
        y,
    ) by {
        if y == x {
            assert(s.push(x)[s.len() as int] == x);
        } else {
            let j = choose|j: int| 0 <= j < s.len() && s[j] == y;
            assert(s.push(x)[j] == y);
        }
    }
}

} // verus!
