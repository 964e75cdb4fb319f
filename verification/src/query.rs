//! Query shapes and their lowering to access sets.
//!
//! A [`QueryAccess`] tree describes what a query reads or writes.  Against a
//! concrete archetype it either matches (with an overall access strength) or
//! not, and a matching query contributes per-archetype read/write records to
//! a [`TypeAccess`] over archetype components.

use vstd::prelude::*;

use crate::access::ArchetypeComponent;
use crate::access::TypeAccess;

verus! {

/// A set of entities sharing one component signature; the world is a list
/// of these, and its structural generation counts archetype changes.
pub struct Archetype {
    pub types: Vec<u64>,
}

impl Archetype {
    /// Builds an archetype from the identifiers of its component types.
    pub fn new(types: Vec<u64>) -> (r: Self)
        ensures
            r.types@ == types@,
    {
        Archetype { types }
    }

    /// Whether the archetype stores the component type.
    pub fn has_type(&self, ty: u64) -> (r: bool)
        ensures
            r == self.types@.contains(ty),
    {
        crate::access::slice_contains(&self.types, &ty)
    }
}

/// The archetype list of a world, together with the generation counter that
/// is bumped whenever the list changes structure.
pub struct Archetypes {
    pub list: Vec<Archetype>,
    pub generation: u64,
}

/// The component-type views of a list of archetypes.
pub open spec fn archetype_views(s: Seq<Archetype>) -> Seq<Seq<u64>> {
    s.map_values(|a: Archetype| a.types@)
}

/// How strongly a query touches an archetype it matches.
#[derive(Clone, Copy, PartialEq, Eq, Structural)]
pub enum ArchetypeAccess {
    NoAccess,
    Read,
    Write,
}

/// The ordering rank of an access strength.
pub open spec fn access_rank(a: ArchetypeAccess) -> int {
    match a {
        ArchetypeAccess::NoAccess => 0,
        ArchetypeAccess::Read => 1,
        ArchetypeAccess::Write => 2,
    }
}

/// The stronger of two access strengths.
pub open spec fn access_max(a: ArchetypeAccess, b: ArchetypeAccess) -> ArchetypeAccess {
    if access_rank(a) >= access_rank(b) {
        a
    } else {
        b
    }
}

/// Picks the stronger of two access strengths.
pub fn stronger_access(a: ArchetypeAccess, b: ArchetypeAccess) -> (r: ArchetypeAccess)
    ensures
        r == access_max(a, b),
{
    let ra: u8 = match a {
        ArchetypeAccess::NoAccess => 0,
        ArchetypeAccess::Read => 1,
        ArchetypeAccess::Write => 2,
    };
    let rb: u8 = match b {
        ArchetypeAccess::NoAccess => 0,
        ArchetypeAccess::Read => 1,
        ArchetypeAccess::Write => 2,
    };
    if ra >= rb {
        a
    } else {
        b
    }
}

/// A tree describing what a query reads or writes; leaves carry a component
/// type identifier and the component type's name.
pub enum QueryAccess {
    Nothing,
    Read(u64, &'static str),
    Write(u64, &'static str),
    Optional(Box<QueryAccess>),
    With(u64, Box<QueryAccess>),
    Without(u64, Box<QueryAccess>),
    Union(Vec<QueryAccess>),
}

/// The structural height of a query tree, used as a termination measure.
pub open spec fn qheight(q: QueryAccess) -> nat
    decreases q,
{
    match q {
        QueryAccess::Nothing => 1,
        QueryAccess::Read(_, _) => 1,
        QueryAccess::Write(_, _) => 1,
        QueryAccess::Optional(b) => 1 + qheight(*b),
        QueryAccess::With(_, b) => 1 + qheight(*b),
        QueryAccess::Without(_, b) => 1 + qheight(*b),
        QueryAccess::Union(v) => 1 + qheight_seq(v@),
    }
}

/// The summed height of a sequence of query trees.
pub open spec fn qheight_seq(s: Seq<QueryAccess>) -> nat
    decreases s,
{
    if s.len() == 0 {
        0
    } else {
        qheight(s.first()) + qheight_seq(s.drop_first())
    }
}

/// Every member of a sequence is at most as high as the whole sequence.
proof fn lemma_qheight_member(s: Seq<QueryAccess>, i: int)
    requires
        0 <= i < s.len(),
    ensures
        qheight(s[i]) <= qheight_seq(s),
    decreases s.len(),
{
    if i == 0 {
        assert(s.first() == s[0]);
    } else {
        lemma_qheight_member(s.drop_first(), i - 1);
        assert(s.drop_first()[i - 1] == s[i]);
    }
}

/// Whether the query matches an archetype with the given component types,
/// and how strongly it accesses it.
pub open spec fn query_matches(q: QueryAccess, types: Seq<u64>) -> Option<ArchetypeAccess>
    decreases q,
{
    match q {
        QueryAccess::Nothing => Some(ArchetypeAccess::NoAccess),
        QueryAccess::Read(t, _) => if types.contains(t) {
            Some(ArchetypeAccess::Read)
        } else {
            None
        },
        QueryAccess::Write(t, _) => if types.contains(t) {
            Some(ArchetypeAccess::Write)
        } else {
            None
        },
        QueryAccess::Optional(b) => match query_matches(*b, types) {
            Some(a) => Some(a),
            None => Some(ArchetypeAccess::Read),
        },
        QueryAccess::With(t, b) => if types.contains(t) {
            query_matches(*b, types)
        } else {
            None
        },
        QueryAccess::Without(t, b) => if !types.contains(t) {
            query_matches(*b, types)
        } else {
            None
        },
        QueryAccess::Union(v) => union_matches(v@, types),
    }
}

/// A union matches when every member matches; its strength is the strongest
/// member strength, at least read.  An empty union matches nothing.
pub open spec fn union_matches(s: Seq<QueryAccess>, types: Seq<u64>) -> Option<ArchetypeAccess>
    decreases s,
{
    if s.len() == 0 {
        None
    } else if s.len() == 1 {
        match query_matches(s[0], types) {
            Some(a) => Some(access_max(ArchetypeAccess::Read, a)),
            None => None,
        }
    } else {
        match union_matches(s.drop_last(), types) {
            Some(acc) => match query_matches(s.last(), types) {
                Some(a) => Some(access_max(acc, a)),
                None => None,
            },
            None => None,
        }
    }
}

/// The archetype components a matching traversal records as read or
/// written, for the archetype at index `idx`.
pub open spec fn gathered_rw(q: QueryAccess, types: Seq<u64>, idx: u32) -> Set<
    ArchetypeComponent,
>
    decreases q,
{
    match q {
        QueryAccess::Nothing => Set::empty(),
        QueryAccess::Read(t, _) => if types.contains(t) {
            Set::empty().insert(ArchetypeComponent { archetype_index: idx, component: t })
        } else {
            Set::empty()
        },
        QueryAccess::Write(t, _) => if types.contains(t) {
            Set::empty().insert(ArchetypeComponent { archetype_index: idx, component: t })
        } else {
            Set::empty()
        },
        QueryAccess::Optional(b) => if query_matches(*b, types) is Some {
            gathered_rw(*b, types, idx)
        } else {
            Set::empty()
        },
        QueryAccess::With(t, b) => if types.contains(t) {
            gathered_rw(*b, types, idx)
        } else {
            Set::empty()
        },
        QueryAccess::Without(t, b) => if !types.contains(t) {
            gathered_rw(*b, types, idx)
        } else {
            Set::empty()
        },
        QueryAccess::Union(v) => if union_matches(v@, types) is Some {
            gathered_union_rw(v@, types, idx)
        } else {
            Set::empty()
        },
    }
}

/// The union of what each union member records as read or written.
pub open spec fn gathered_union_rw(s: Seq<QueryAccess>, types: Seq<u64>, idx: u32) -> Set<
    ArchetypeComponent,
>
    decreases s,
{
    if s.len() == 0 {
        Set::empty()
    } else {
        gathered_union_rw(s.drop_last(), types, idx).union(gathered_rw(s.last(), types, idx))
    }
}

/// The archetype components a matching traversal records as written.
pub open spec fn gathered_w(q: QueryAccess, types: Seq<u64>, idx: u32) -> Set<ArchetypeComponent>
    decreases q,
{
    match q {
        QueryAccess::Nothing => Set::empty(),
        QueryAccess::Read(_, _) => Set::empty(),
        QueryAccess::Write(t, _) => if types.contains(t) {
            Set::empty().insert(ArchetypeComponent { archetype_index: idx, component: t })
        } else {
            Set::empty()
        },
        QueryAccess::Optional(b) => if query_matches(*b, types) is Some {
            gathered_w(*b, types, idx)
        } else {
            Set::empty()
        },
        QueryAccess::With(t, b) => if types.contains(t) {
            gathered_w(*b, types, idx)
        } else {
            Set::empty()
        },
        QueryAccess::Without(t, b) => if !types.contains(t) {
            gathered_w(*b, types, idx)
        } else {
            Set::empty()
        },
        QueryAccess::Union(v) => if union_matches(v@, types) is Some {
            gathered_union_w(v@, types, idx)
        } else {
            Set::empty()
        },
    }
}

/// The union of what each union member records as written.
pub open spec fn gathered_union_w(s: Seq<QueryAccess>, types: Seq<u64>, idx: u32) -> Set<
    ArchetypeComponent,
>
    decreases s,
{
    if s.len() == 0 {
        Set::empty()
    } else {
        gathered_union_w(s.drop_last(), types, idx).union(gathered_w(s.last(), types, idx))
    }
}

/// The component types the query reads or writes, ignoring archetypes.
pub open spec fn component_rw(q: QueryAccess) -> Set<u64>
    decreases q,
{
    match q {
        QueryAccess::Nothing => Set::empty(),
        QueryAccess::Read(t, _) => Set::empty().insert(t),
        QueryAccess::Write(t, _) => Set::empty().insert(t),
        QueryAccess::Optional(b) => component_rw(*b),
        QueryAccess::With(_, b) => component_rw(*b),
        QueryAccess::Without(_, b) => component_rw(*b),
        QueryAccess::Union(v) => component_union_rw(v@),
    }
}

/// The union of the component types the union members read or write.
pub open spec fn component_union_rw(s: Seq<QueryAccess>) -> Set<u64>
    decreases s,
{
    if s.len() == 0 {
        Set::empty()
    } else {
        component_union_rw(s.drop_last()).union(component_rw(s.last()))
    }
}

/// The component types the query writes, ignoring archetypes.
pub open spec fn component_w(q: QueryAccess) -> Set<u64>
    decreases q,
{
    match q {
        QueryAccess::Nothing => Set::empty(),
        QueryAccess::Read(_, _) => Set::empty(),
        QueryAccess::Write(t, _) => Set::empty().insert(t),
        QueryAccess::Optional(b) => component_w(*b),
        QueryAccess::With(_, b) => component_w(*b),
        QueryAccess::Without(_, b) => component_w(*b),
        QueryAccess::Union(v) => component_union_w(v@),
    }
}

/// The union of the component types the union members write.
pub open spec fn component_union_w(s: Seq<QueryAccess>) -> Set<u64>
    decreases s,
{
    if s.len() == 0 {
        Set::empty()
    } else {
        component_union_w(s.drop_last()).union(component_w(s.last()))
    }
}

/// The name the query carries for a component type identifier, from the
/// first leaf mentioning it.
pub open spec fn spec_type_name(q: QueryAccess, ty: u64) -> Option<&'static str>
    decreases q,
{
    match q {
        QueryAccess::Nothing => None,
        QueryAccess::Read(t, name) => if ty == t {
            Some(name)
        } else {
            None
        },
        QueryAccess::Write(t, name) => if ty == t {
            Some(name)
        } else {
            None
        },
        QueryAccess::Optional(b) => spec_type_name(*b, ty),
        QueryAccess::With(_, b) => spec_type_name(*b, ty),
        QueryAccess::Without(_, b) => spec_type_name(*b, ty),
        QueryAccess::Union(v) => union_type_name(v@, ty),
    }
}

/// The first name any union member carries for the identifier.
pub open spec fn union_type_name(s: Seq<QueryAccess>, ty: u64) -> Option<&'static str>
    decreases s,
{
    if s.len() == 0 {
        None
    } else {
        match spec_type_name(s[0], ty) {
            Some(name) => Some(name),
            None => union_type_name(s.drop_first(), ty),
        }
    }
}

impl QueryAccess {
    /// A query reading one component type.
    pub fn read(ty: u64, name: &'static str) -> (r: QueryAccess)
        ensures
            r == QueryAccess::Read(ty, name),
    {
        QueryAccess::Read(ty, name)
    }

    /// A query writing one component type.
    pub fn write(ty: u64, name: &'static str) -> (r: QueryAccess)
        ensures
            r == QueryAccess::Write(ty, name),
    {
        QueryAccess::Write(ty, name)
    }

    /// Restricts a query to archetypes holding a component type.
    pub fn with(ty: u64, access: QueryAccess) -> (r: QueryAccess)
        ensures
            r == QueryAccess::With(ty, Box::new(access)),
    {
        QueryAccess::With(ty, Box::new(access))
    }

    /// Restricts a query to archetypes not holding a component type.
    pub fn without(ty: u64, access: QueryAccess) -> (r: QueryAccess)
        ensures
            r == QueryAccess::Without(ty, Box::new(access)),
    {
        QueryAccess::Without(ty, Box::new(access))
    }

    /// Makes a query optional: archetypes it misses still match, as reads.
    pub fn optional(access: QueryAccess) -> (r: QueryAccess)
        ensures
            r == QueryAccess::Optional(Box::new(access)),
    {
        QueryAccess::Optional(Box::new(access))
    }

    /// Joins several queries; all must match for the union to match.
    pub fn union(accesses: Vec<QueryAccess>) -> (r: QueryAccess)
        ensures
            r == QueryAccess::Union(accesses),
    {
        QueryAccess::Union(accesses)
    }

    /// The name this query carries for a component type identifier.
    #[verifier::loop_isolation(false)]
    pub fn get_type_name(&self, type_id: u64) -> (r: Option<&'static str>)
        ensures
            r == spec_type_name(*self, type_id),
        decreases qheight(*self),
    {
        match self {
            QueryAccess::Nothing => None,
            QueryAccess::Read(t, name) => if type_id == *t {
                Some(*name)
            } else {
                None
            },
            QueryAccess::Write(t, name) => if type_id == *t {
                Some(*name)
            } else {
                None
            },
            QueryAccess::Optional(b) => b.get_type_name(type_id),
            QueryAccess::With(_, b) => b.get_type_name(type_id),
            QueryAccess::Without(_, b) => b.get_type_name(type_id),
            QueryAccess::Union(v) => {
                let n = v.len();
                let mut i: usize = 0;
                proof {
                    assert(v@.subrange(0, n as int) =~= v@);
                }
                while i < n
                    invariant
                        0 <= i <= n,
                        n == v@.len(),
                        qheight(*self) == 1 + qheight_seq(v@),
                        union_type_name(v@, type_id) == union_type_name(
                            v@.subrange(i as int, n as int),
                            type_id,
                        ),
                    decreases n - i,
                {
                    proof {
                        assert(v@.subrange(i as int, n as int)[0] == v@[i as int]);
                        lemma_qheight_member(v@, i as int);
                    }
                    let r = v[i].get_type_name(type_id);
                    if r.is_some() {
                        return r;
                    }
                    proof {
                        assert(v@.subrange(i as int, n as int).drop_first() =~= v@.subrange(
                            i + 1,
                            n as int,
                        ));
                    }
                    i += 1;
                }
                proof {
                    assert(v@.subrange(n as int, n as int).len() == 0);
                }
                None
            },
        }
    }

    /// Whether the query matches the archetype, and with what strength.
    #[verifier::loop_isolation(false)]
    pub fn matches_archetype(&self, archetype: &Archetype) -> (r: Option<ArchetypeAccess>)
        ensures
            r == query_matches(*self, archetype.types@),
        decreases qheight(*self),
    {
        match self {
            QueryAccess::Nothing => Some(ArchetypeAccess::NoAccess),
            QueryAccess::Read(t, _) => if archetype.has_type(*t) {
                Some(ArchetypeAccess::Read)
            } else {
                None
            },
            QueryAccess::Write(t, _) => if archetype.has_type(*t) {
                Some(ArchetypeAccess::Write)
            } else {
                None
            },
            QueryAccess::Optional(b) => match b.matches_archetype(archetype) {
                Some(a) => Some(a),
                None => Some(ArchetypeAccess::Read),
            },
            QueryAccess::With(t, b) => if archetype.has_type(*t) {
                b.matches_archetype(archetype)
            } else {
                None
            },
            QueryAccess::Without(t, b) => if !archetype.has_type(*t) {
                b.matches_archetype(archetype)
            } else {
                None
            },
            QueryAccess::Union(v) => {
                let n = v.len();
                let mut acc: Option<ArchetypeAccess> = None;
                let mut i: usize = 0;
                proof {
                    assert(v@.take(0).len() == 0);
                }
                while i < n
                    invariant
                        0 <= i <= n,
                        n == v@.len(),
                        qheight(*self) == 1 + qheight_seq(v@),
                        acc == union_matches(v@.take(i as int), archetype.types@),
                        acc is Some <==> i > 0,
                        forall|k: int|
                            0 <= k < i ==> query_matches(v@[k], archetype.types@) is Some,
                    decreases n - i,
                {
                    proof {
                        lemma_qheight_member(v@, i as int);
                    }
                    let m = v[i].matches_archetype(archetype);
                    proof {
                        assert(v@.take(i + 1).drop_last() =~= v@.take(i as int));
                        assert(v@.take(i + 1).last() == v@[i as int]);
                        assert(v@.take(i + 1)[0] == v@[0]);
                    }
                    match m {
                        Some(a) => {
                            match acc {
                                Some(prev) => {
                                    acc = Some(stronger_access(prev, a));
                                },
                                None => {
                                    acc = Some(stronger_access(ArchetypeAccess::Read, a));
                                },
                            }
                        },
                        None => {
                            proof {
                                lemma_union_matches_member_fails(
                                    v@,
                                    archetype.types@,
                                    i as int,
                                );
                            }
                            return None;
                        },
                    }
                    i += 1;
                }
                proof {
                    assert(v@.take(n as int) =~= v@);
                }
                acc
            },
        }
    }
}

/// A union with a failing member fails, whatever the other members do.
proof fn lemma_union_matches_member_fails(s: Seq<QueryAccess>, types: Seq<u64>, i: int)
    requires
        0 <= i < s.len(),
        query_matches(s[i], types) is None,
    ensures
        union_matches(s, types) is None,
    decreases s.len(),
{
    if s.len() == 1 {
    } else {
        if i == s.len() - 1 {
        } else {
            assert(s.drop_last()[i] == s[i]);
            lemma_union_matches_member_fails(s.drop_last(), types, i);
        }
    }
}

/// Everything the query records as read or written over a whole archetype
/// list, archetype by archetype.
pub open spec fn world_gathered_rw(q: QueryAccess, ars: Seq<Archetype>) -> Set<ArchetypeComponent>
    decreases ars.len(),
{
    if ars.len() == 0 {
        Set::empty()
    } else {
        world_gathered_rw(q, ars.drop_last()).union(
            gathered_rw(q, ars.last().types@, (ars.len() - 1) as u32),
        )
    }
}

/// Everything the query records as written over a whole archetype list.
pub open spec fn world_gathered_w(q: QueryAccess, ars: Seq<Archetype>) -> Set<ArchetypeComponent>
    decreases ars.len(),
{
    if ars.len() == 0 {
        Set::empty()
    } else {
        world_gathered_w(q, ars.drop_last()).union(
            gathered_w(q, ars.last().types@, (ars.len() - 1) as u32),
        )
    }
}

impl QueryAccess {
    /// Returns how this query accesses the given archetype, and records the
    /// matching reads and writes into `type_access`.
    #[verifier::loop_isolation(false)]
    pub fn get_access(
        &self,
        archetype: &Archetype,
        archetype_index: u32,
        type_access: &mut TypeAccess<ArchetypeComponent>,
    ) -> (r: Option<ArchetypeAccess>)
        requires
            old(type_access).wf(),
        ensures
            final(type_access).wf(),
            r == query_matches(*self, archetype.types@),
            final(type_access).rw_set() =~= old(type_access).rw_set().union(
                gathered_rw(*self, archetype.types@, archetype_index),
            ),
            final(type_access).w_set() =~= old(type_access).w_set().union(
                gathered_w(*self, archetype.types@, archetype_index),
            ),
            final(type_access).spec_reads_all() == old(type_access).spec_reads_all(),
        decreases qheight(*self),
    {
        match self {
            QueryAccess::Nothing => Some(ArchetypeAccess::NoAccess),
            QueryAccess::Read(t, _) => {
                if archetype.has_type(*t) {
                    type_access.add_read(ArchetypeComponent::new_ty(archetype_index, *t));
                    Some(ArchetypeAccess::Read)
                } else {
                    None
                }
            },
            QueryAccess::Write(t, _) => {
                if archetype.has_type(*t) {
                    type_access.add_write(ArchetypeComponent::new_ty(archetype_index, *t));
                    Some(ArchetypeAccess::Write)
                } else {
                    None
                }
            },
            QueryAccess::Optional(b) => {
                match b.matches_archetype(archetype) {
                    Some(_) => b.get_access(archetype, archetype_index, type_access),
                    None => Some(ArchetypeAccess::Read),
                }
            },
            QueryAccess::With(t, b) => {
                if archetype.has_type(*t) {
                    b.get_access(archetype, archetype_index, type_access)
                } else {
                    None
                }
            },
            QueryAccess::Without(t, b) => {
                if !archetype.has_type(*t) {
                    b.get_access(archetype, archetype_index, type_access)
                } else {
                    None
                }
            },
            QueryAccess::Union(v) => {
                let overall = self.matches_archetype(archetype);
                if overall.is_none() {
                    return None;
                }
                let n = v.len();
                let mut i: usize = 0;
                proof {
                    assert(v@.take(0).len() == 0);
                }
                while i < n
                    invariant
                        0 <= i <= n,
                        n == v@.len(),
                        type_access.wf(),
                        type_access.spec_reads_all() == old(type_access).spec_reads_all(),
                        type_access.rw_set() =~= old(type_access).rw_set().union(
                            gathered_union_rw(v@.take(i as int), archetype.types@, archetype_index),
                        ),
                        type_access.w_set() =~= old(type_access).w_set().union(
                            gathered_union_w(v@.take(i as int), archetype.types@, archetype_index),
                        ),
                    decreases n - i,
                {
                    proof {
                        lemma_qheight_member(v@, i as int);
                    }
                    let _ = v[i].get_access(archetype, archetype_index, type_access);
                    proof {
                        assert(v@.take(i + 1).drop_last() =~= v@.take(i as int));
                        assert(v@.take(i + 1).last() == v@[i as int]);
                    }
                    i += 1;
                }
                proof {
                    assert(v@.take(n as int) =~= v@);
                }
                overall
            },
        }
    }

    /// Records what this query reads and writes of every archetype of the
    /// world, keyed by archetype index.
    #[verifier::loop_isolation(false)]
    pub fn get_world_archetype_access(
        &self,
        archetypes: &Archetypes,
        type_access: &mut TypeAccess<ArchetypeComponent>,
    )
        requires
            old(type_access).wf(),
            archetypes.list@.len() <= u32::MAX,
        ensures
            final(type_access).wf(),
            final(type_access).rw_set() =~= old(type_access).rw_set().union(
                world_gathered_rw(*self, archetypes.list@),
            ),
            final(type_access).w_set() =~= old(type_access).w_set().union(
                world_gathered_w(*self, archetypes.list@),
            ),
            final(type_access).spec_reads_all() == old(type_access).spec_reads_all(),
    {
        let n = archetypes.list.len();
        let mut i: usize = 0;
        proof {
            assert(archetypes.list@.take(0).len() == 0);
        }
        while i < n
            invariant
                0 <= i <= n,
                n == archetypes.list@.len(),
                type_access.wf(),
                type_access.spec_reads_all() == old(type_access).spec_reads_all(),
                type_access.rw_set() =~= old(type_access).rw_set().union(
                    world_gathered_rw(*self, archetypes.list@.take(i as int)),
                ),
                type_access.w_set() =~= old(type_access).w_set().union(
                    world_gathered_w(*self, archetypes.list@.take(i as int)),
                ),
            decreases n - i,
        {
            let _ = self.get_access(&archetypes.list[i], i as u32, type_access);
            proof {
                assert(archetypes.list@.take(i + 1).drop_last() =~= archetypes.list@.take(
                    i as int,
                ));
                assert(archetypes.list@.take(i + 1).last() == archetypes.list@[i as int]);
                assert((archetypes.list@.take(i + 1).len() - 1) as u32 == i as u32);
            }
            i += 1;
        }
        proof {
            assert(archetypes.list@.take(n as int) =~= archetypes.list@);
        }
    }

    /// Records the component types this query reads and writes, without
    /// regard to archetypes.
    #[verifier::loop_isolation(false)]
    pub fn get_component_access(&self, type_access: &mut TypeAccess<u64>)
        requires
            old(type_access).wf(),
        ensures
            final(type_access).wf(),
            final(type_access).rw_set() =~= old(type_access).rw_set().union(component_rw(*self)),
            final(type_access).w_set() =~= old(type_access).w_set().union(component_w(*self)),
            final(type_access).spec_reads_all() == old(type_access).spec_reads_all(),
        decreases qheight(*self),
    {
        match self {
            QueryAccess::Nothing => {},
            QueryAccess::Read(t, _) => {
                type_access.add_read(*t);
            },
            QueryAccess::Write(t, _) => {
                type_access.add_write(*t);
            },
            QueryAccess::Optional(b) => {
                b.get_component_access(type_access);
            },
            QueryAccess::With(_, b) => {
                b.get_component_access(type_access);
            },
            QueryAccess::Without(_, b) => {
                b.get_component_access(type_access);
            },
            QueryAccess::Union(v) => {
                let n = v.len();
                let mut i: usize = 0;
                proof {
                    assert(v@.take(0).len() == 0);
                }
                while i < n
                    invariant
                        0 <= i <= n,
                        n == v@.len(),
                        type_access.wf(),
                        type_access.spec_reads_all() == old(type_access).spec_reads_all(),
                        type_access.rw_set() =~= old(type_access).rw_set().union(
                            component_union_rw(v@.take(i as int)),
                        ),
                        type_access.w_set() =~= old(type_access).w_set().union(
                            component_union_w(v@.take(i as int)),
                        ),
                    decreases n - i,
                {
                    proof {
                        lemma_qheight_member(v@, i as int);
                    }
                    v[i].get_component_access(type_access);
                    proof {
                        assert(v@.take(i + 1).drop_last() =~= v@.take(i as int));
                        assert(v@.take(i + 1).last() == v@[i as int]);
                    }
                    i += 1;
                }
                proof {
                    assert(v@.take(n as int) =~= v@);
                }
            },
        }
    }
}

} // verus!
