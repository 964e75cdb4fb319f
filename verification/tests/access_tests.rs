use ecs_scheduler::ArchetypeComponent;
use ecs_scheduler::SystemMeta;
use ecs_scheduler::SystemParamError;
use ecs_scheduler::CondensedTypeAccess;
use ecs_scheduler::QueryAccess;
use ecs_scheduler::TypeAccess;
use ecs_scheduler::query::Archetype;
use ecs_scheduler::query::Archetypes;

const A: u64 = 1;
const B: u64 = 2;
const C: u64 = 3;

fn world_abc() -> Archetypes {
    // three archetypes: {A}, {A, B}, {A, B, C}
    Archetypes {
        list: vec![
            Archetype::new(vec![A]),
            Archetype::new(vec![A, B]),
            Archetype::new(vec![A, B, C]),
        ],
        generation: 0,
    }
}

fn gather(query: &QueryAccess, world: &Archetypes) -> TypeAccess<ArchetypeComponent> {
    let mut access: TypeAccess<ArchetypeComponent> = TypeAccess::empty();
    query.get_world_archetype_access(world, &mut access);
    access
}

fn assert_access_eq(
    access: &TypeAccess<ArchetypeComponent>,
    reads: Vec<ArchetypeComponent>,
    writes: Vec<ArchetypeComponent>,
) {
    assert!(!access.reads_all());
    let distinct = access.all_distinct_types().unwrap();
    assert_eq!(distinct.len(), reads.len() + writes.len());
    for r in &reads {
        assert!(access.is_read_or_write(r));
        assert!(!access.is_write(r));
    }
    for w in &writes {
        assert!(access.is_read_or_write(w));
        assert!(access.is_write(w));
    }
}

#[test]
fn query_type_access() {
    let world = world_abc();

    let e1_a = ArchetypeComponent::new(0, A);
    let e2_a = ArchetypeComponent::new(1, A);
    let e2_b = ArchetypeComponent::new(1, B);
    let e3_a = ArchetypeComponent::new(2, A);
    let e3_b = ArchetypeComponent::new(2, B);
    let e3_c = ArchetypeComponent::new(2, C);

    let a_query = QueryAccess::union(vec![QueryAccess::read(A, "A")]);
    let a_type_access = gather(&a_query, &world);
    assert_access_eq(&a_type_access, vec![e1_a, e2_a, e3_a], vec![]);

    let a_b_query = QueryAccess::union(vec![QueryAccess::read(A, "A"), QueryAccess::read(B, "B")]);
    let a_b_type_access = gather(&a_b_query, &world);
    assert_access_eq(&a_b_type_access, vec![e2_a, e2_b, e3_a, e3_b], vec![]);

    let a_bmut_query =
        QueryAccess::union(vec![QueryAccess::read(A, "A"), QueryAccess::write(B, "B")]);
    let a_bmut_type_access = gather(&a_bmut_query, &world);
    assert_access_eq(&a_bmut_type_access, vec![e2_a, e3_a], vec![e2_b, e3_b]);

    let a_option_bmut_query = QueryAccess::union(vec![
        QueryAccess::Nothing,
        QueryAccess::read(A, "A"),
        QueryAccess::optional(QueryAccess::write(B, "B")),
    ]);
    let a_option_bmut_type_access = gather(&a_option_bmut_query, &world);
    assert_access_eq(&a_option_bmut_type_access, vec![e1_a, e2_a, e3_a], vec![e2_b, e3_b]);

    let a_with_b_query = QueryAccess::with(B, QueryAccess::read(A, "A"));
    let a_with_b_type_access = gather(&a_with_b_query, &world);
    assert_access_eq(&a_with_b_type_access, vec![e2_a, e3_a], vec![]);

    let a_with_b_option_c_query = QueryAccess::with(
        B,
        QueryAccess::union(vec![
            QueryAccess::read(A, "A"),
            QueryAccess::optional(QueryAccess::write(C, "C")),
        ]),
    );
    let a_with_b_option_c_type_access = gather(&a_with_b_option_c_query, &world);
    assert_access_eq(&a_with_b_option_c_type_access, vec![e2_a, e3_a], vec![e3_c]);
}

#[test]
fn type_access_compatibility() {
    // a reads 1, writes 2; b writes 1: incompatible both ways
    let a: TypeAccess<u64> = TypeAccess::new(vec![1], vec![2]);
    let b: TypeAccess<u64> = TypeAccess::new(vec![], vec![1]);
    assert!(!a.is_compatible(&b));
    assert!(!b.is_compatible(&a));
    assert!(a.get_conflict(&b).is_some());

    // two readers of the same type are compatible
    let r1: TypeAccess<u64> = TypeAccess::new(vec![1], vec![]);
    let r2: TypeAccess<u64> = TypeAccess::new(vec![1], vec![]);
    assert!(r1.is_compatible(&r2));
    assert!(r1.get_conflict(&r2).is_none());

    // a reader of everything tolerates readers but no writer
    let mut all: TypeAccess<u64> = TypeAccess::empty();
    all.read_all();
    assert!(all.is_compatible(&r1));
    assert!(!all.is_compatible(&b));
    assert_eq!(all.get_conflict(&b), Some(1));
}

#[test]
fn condense_agrees_with_type_access() {
    let a: TypeAccess<u64> = TypeAccess::new(vec![1], vec![2]);
    let b: TypeAccess<u64> = TypeAccess::new(vec![], vec![1]);
    let c: TypeAccess<u64> = TypeAccess::new(vec![3], vec![]);
    let universe: Vec<u64> = vec![1, 2, 3];
    let ca = a.condense(&universe);
    let cb = b.condense(&universe);
    let cc = c.condense(&universe);
    assert_eq!(ca.is_compatible(&cb), a.is_compatible(&b));
    assert_eq!(ca.is_compatible(&cc), a.is_compatible(&c));
    assert!(!ca.is_compatible(&cb));
    assert!(ca.is_compatible(&cc));

    // the unrestricted-read flag survives condensing and still rejects
    // writers through the bit-counting path
    let mut all: TypeAccess<u64> = TypeAccess::empty();
    all.read_all();
    let call = all.condense(&universe);
    assert!(call.reads_all());
    assert!(!call.is_compatible(&cb));
    assert!(call.is_compatible(&cc));
}

#[test]
fn recondensing_same_universe_is_identical() {
    let a: TypeAccess<u64> = TypeAccess::new(vec![1, 3], vec![2]);
    let universe: Vec<u64> = vec![1, 2, 3, 4];
    let first = a.condense(&universe);
    let second = a.condense(&universe);
    assert_eq!(first.reads_all(), second.reads_all());
    for bit in 0..universe.len() {
        assert_eq!(first.has_read_or_write(bit), second.has_read_or_write(bit));
        assert_eq!(first.has_write(bit), second.has_write(bit));
    }
    // the projection puts the write of type 2 at position 1
    assert!(first.has_write(1));
    assert!(first.has_read_or_write(0));
    assert!(!first.has_read_or_write(3));
}

#[test]
fn condensed_extend_and_clear() {
    let a: TypeAccess<u64> = TypeAccess::new(vec![1], vec![]);
    let b: TypeAccess<u64> = TypeAccess::new(vec![], vec![2]);
    let universe: Vec<u64> = vec![1, 2];
    let ca = a.condense(&universe);
    let cb = b.condense(&universe);
    let mut active = CondensedTypeAccess::empty();
    assert!(ca.is_compatible(&active));
    active.extend(&ca);
    // a second reader of 1 is fine, but a writer of 1 is not
    let r2: TypeAccess<u64> = TypeAccess::new(vec![1], vec![]);
    let w1: TypeAccess<u64> = TypeAccess::new(vec![], vec![1]);
    assert!(r2.condense(&universe).is_compatible(&active));
    assert!(!w1.condense(&universe).is_compatible(&active));
    active.extend(&cb);
    assert!(!b.condense(&universe).is_compatible(&active));
    active.clear();
    assert!(w1.condense(&universe).is_compatible(&active));
}

#[test]
fn query_type_names() {
    let q = QueryAccess::union(vec![
        QueryAccess::read(A, "A"),
        QueryAccess::with(B, QueryAccess::write(C, "C")),
    ]);
    assert_eq!(q.get_type_name(A), Some("A"));
    assert_eq!(q.get_type_name(C), Some("C"));
    assert_eq!(q.get_type_name(B), None);
}

#[test]
fn system_resource_conflicts_are_fatal() {
    let mut meta = SystemMeta::new(7, false, QueryAccess::Nothing);
    meta.add_resource_read(1).unwrap();
    // a second reader of the same resource is fine
    meta.add_resource_read(1).unwrap();
    // writing a resource that is already read is rejected
    assert_eq!(meta.add_resource_write(1), Err(SystemParamError::ResourceConflict(1)));
    meta.add_resource_write(2).unwrap();
    // reading a resource that is already written is rejected
    assert_eq!(meta.add_resource_read(2), Err(SystemParamError::ResourceConflict(2)));
    // writing the same resource twice is rejected
    assert_eq!(meta.add_resource_write(2), Err(SystemParamError::ResourceConflict(2)));
}

#[test]
fn condensed_copies_and_growth_keep_bits() {
    let a: TypeAccess<u64> = TypeAccess::new(vec![1], vec![2]);
    let universe: Vec<u64> = vec![1, 2];
    let mut ca = a.condense(&universe);
    let copy = ca.duplicate();
    // growing leaves every recorded bit as it was
    ca.grow(16);
    for bit in 0..universe.len() {
        assert_eq!(ca.has_read_or_write(bit), copy.has_read_or_write(bit));
        assert_eq!(ca.has_write(bit), copy.has_write(bit));
    }
    assert!(ca.has_write(1));
    assert!(!ca.has_write(0));
    assert!(ca.has_read_or_write(0));
}
