use ecs_core::archetype::{Archetype, ComponentInfo};
use ecs_core::bundle::DynBundle;
use ecs_core::query::{
    is_valid, merge_access, Access, ModifiedFetchAlt, Query, QueryFetch, QueryIter,
    QueryTrackedIter,
};

const POS: u64 = 1;
const VEL: u64 = 2;
const TAG: u64 = 3;

fn arch_of(ids: &[u64]) -> Archetype {
    let infos: Vec<ComponentInfo> = ids.iter().map(|&id| ComponentInfo::new(id)).collect();
    Archetype::new(&infos)
}

fn col<'a>(a: &'a Archetype, id: u64) -> &'a ecs_core::archetype::ComponentData {
    let ci = a.set.get(id).unwrap();
    a.data(ci)
}

#[test]
fn merge_access_table() {
    assert_eq!(merge_access(Access::NoAccess, Access::Shared), Access::Shared);
    assert_eq!(merge_access(Access::Shared, Access::NoAccess), Access::Shared);
    assert_eq!(merge_access(Access::Shared, Access::Shared), Access::Shared);
    assert_eq!(merge_access(Access::Shared, Access::Mutable), Access::Mutable);
    assert_eq!(merge_access(Access::Mutable, Access::NoAccess), Access::Mutable);
    assert_eq!(merge_access(Access::NoAccess, Access::NoAccess), Access::NoAccess);
}

// The static alias check: (&mut T, &T) on one type is rejected, shared pairs
// and disjoint mutable pairs are accepted.
#[test]
fn alias_check() {
    assert!(!is_valid(&vec![Query::Write(POS), Query::Read(POS)]));
    assert!(!is_valid(&vec![Query::Read(POS), Query::Write(POS)]));
    assert!(is_valid(&vec![Query::Read(POS), Query::Read(POS)]));
    assert!(is_valid(&vec![Query::Write(POS), Query::Write(VEL)]));
    assert!(!is_valid(&vec![Query::Write(POS), Query::Write(POS)]));
    assert!(is_valid(&vec![Query::Write(POS), Query::Read(VEL)]));
    assert!(!is_valid(&vec![Query::ModifiedAlt(POS), Query::Read(POS)]));
    assert!(is_valid(&vec![Query::ModifiedRead(POS), Query::Read(POS)]));
    assert!(is_valid(&vec![]));
}

#[test]
fn query_element_descriptions() {
    assert!(Query::Write(POS).mutates());
    assert!(!Query::Write(POS).tracks());
    assert!(!Query::Read(POS).mutates());
    assert!(Query::ModifiedRead(POS).tracks());
    assert!(!Query::ModifiedRead(POS).mutates());
    assert!(Query::ModifiedWrite(POS).mutates() && Query::ModifiedWrite(POS).tracks());
    assert!(Query::ModifiedAlt(POS).mutates() && Query::ModifiedAlt(POS).tracks());
    assert_eq!(Query::Read(POS).access(POS), Access::Shared);
    assert_eq!(Query::Write(POS).access(POS), Access::Mutable);
    assert_eq!(Query::Write(POS).access(VEL), Access::NoAccess);
}

fn spawn_three(a: &mut Archetype) {
    for e in [101u64, 102, 103] {
        a.spawn(e, DynBundle::new(vec![(POS, e), (VEL, e + 1)]), 10);
    }
}

// Modified<&Vel> with tracks = 10 yields exactly the row written at 11.
#[test]
fn modified_read_yields_changed_row() {
    let mut a = arch_of(&[POS, VEL]);
    spawn_three(&mut a);
    a.set(1, VEL, 9, 11);
    let mut world = vec![a];
    let it = QueryTrackedIter::new(10, 12, vec![Query::ModifiedRead(VEL)], vec![]);
    let out = it.run(&mut world);
    assert_eq!(out.len(), 1);
    assert_eq!(out[0].0, 102);
    assert_eq!(out[0].1, vec![9]);
    // reading changed no version
    assert_eq!(col(&world[0], VEL).version, 11);
    assert_eq!(col(&world[0], VEL).entity_versions[1], 11);
}

// With the cutoff at the current version nothing is yielded; with the cutoff
// below every row version everything is.
#[test]
fn tracking_cutoff_boundaries() {
    let mut a = arch_of(&[POS, VEL]);
    spawn_three(&mut a);
    let mut world = vec![a];
    let none = QueryTrackedIter::new(10, 12, vec![Query::ModifiedRead(VEL)], vec![]).run(
        &mut world,
    );
    assert_eq!(none.len(), 0);
    let all = QueryTrackedIter::new(9, 12, vec![Query::ModifiedRead(VEL)], vec![]).run(&mut world);
    assert_eq!(all.len(), 3);
    assert_eq!(all[0].0, 101);
    assert_eq!(all[1].0, 102);
    assert_eq!(all[2].0, 103);
}

// An archetype whose tracked column version sits below the cutoff is skipped
// outright; one lacking the column as well.
#[test]
fn archetype_level_skips() {
    let mut a = arch_of(&[POS, VEL]);
    spawn_three(&mut a);
    let mut only_pos = arch_of(&[POS]);
    only_pos.spawn(201, DynBundle::new(vec![(POS, 1)]), 10);
    let q = Query::ModifiedRead(VEL);
    assert!(q.skip_archetype(&only_pos, 0));
    assert!(!q.skip_archetype(&a, 10));
    assert!(q.skip_archetype(&a, 11));
    let mut world = vec![a, only_pos];
    let out = QueryTrackedIter::new(0, 12, vec![Query::Read(VEL)], vec![]).run(&mut world);
    assert_eq!(out.len(), 3);
}

// (&mut Pos, &Vel) over one archetype: one pass yields every row, stamps the
// written column everywhere and leaves the read column untouched.
#[test]
fn mutable_pass_stamps_written_column() {
    let mut a = arch_of(&[POS, VEL]);
    a.spawn(7, DynBundle::new(vec![(POS, 70), (VEL, 71)]), 12);
    let mut world = vec![a];
    let it = QueryIter::new(13, vec![Query::Write(POS), Query::Read(VEL)], vec![]);
    assert_eq!(it.len(&world), 1);
    let out = it.run(&mut world);
    assert_eq!(out.len(), 1);
    assert_eq!(out[0].0, 7);
    assert_eq!(out[0].1, vec![70, 71]);
    let p = col(&world[0], POS);
    assert_eq!(p.version, 13);
    assert_eq!(p.chunk_versions[0], 13);
    assert_eq!(p.entity_versions[0], 13);
    let v = col(&world[0], VEL);
    assert_eq!(v.version, 12);
    assert_eq!(v.chunk_versions[0], 12);
    assert_eq!(v.entity_versions[0], 12);
}

// A tracked mutable pass stamps only the rows it yields.
#[test]
fn tracked_write_stamps_only_yielded_rows() {
    let mut a = arch_of(&[POS, VEL]);
    spawn_three(&mut a);
    a.set(1, VEL, 9, 11);
    let mut world = vec![a];
    let out = QueryTrackedIter::new(10, 12, vec![Query::ModifiedWrite(VEL)], vec![]).run(
        &mut world,
    );
    assert_eq!(out.len(), 1);
    assert_eq!(out[0].0, 102);
    let v = col(&world[0], VEL);
    assert_eq!(v.version, 12);
    assert_eq!(v.entity_versions[0], 10);
    assert_eq!(v.entity_versions[1], 12);
    assert_eq!(v.entity_versions[2], 10);
    assert_eq!(v.chunk_versions[0], 12);
}

// The deferred-write element stamps nothing until written through.
#[test]
fn deferred_write_stamps_on_explicit_write() {
    let mut a = arch_of(&[POS]);
    a.spawn(4, DynBundle::new(vec![(POS, 40)]), 5);
    // a pass that only reads through the deferred cursor
    let mut world = vec![a];
    let out = QueryTrackedIter::new(0, 6, vec![Query::ModifiedAlt(POS)], vec![]).run(&mut world);
    assert_eq!(out.len(), 1);
    assert_eq!(out[0].1, vec![40]);
    let p = col(&world[0], POS);
    // fetch raised the column version; no row or chunk was stamped
    assert_eq!(p.version, 6);
    assert_eq!(p.entity_versions[0], 5);
    assert_eq!(p.chunk_versions[0], 5);
    // an explicit write-through stamps row and chunk
    let mut a = world.pop().unwrap();
    let f = match Query::ModifiedAlt(POS).fetch(&mut a, 0, 7).unwrap() {
        QueryFetch::ModifiedAlt(f) => f,
        _ => unreachable!(),
    };
    let _ = ModifiedFetchAlt::stamp_item(&f, &mut a, 0, 41);
    let p = col(&a, POS);
    assert_eq!(p.values[0], 41);
    assert_eq!(p.entity_versions[0], 7);
    assert_eq!(p.chunk_versions[0], 7);
    assert_eq!(p.version, 7);
}

// Chunk skipping over more than one chunk of rows.
#[test]
fn chunk_skip_past_old_rows() {
    let mut a = arch_of(&[POS]);
    for e in 0..300u64 {
        a.spawn(e, DynBundle::new(vec![(POS, e)]), 5);
    }
    // touch one row in the second chunk at epoch 6
    a.set(260, POS, 999, 6);
    let mut world = vec![a];
    let out = QueryTrackedIter::new(5, 7, vec![Query::ModifiedRead(POS)], vec![]).run(&mut world);
    assert_eq!(out.len(), 1);
    assert_eq!(out[0].0, 260);
    assert_eq!(out[0].1, vec![999]);
    let (lo, hi) = QueryTrackedIter::new(5, 7, vec![Query::ModifiedRead(POS)], vec![]).size_hint(
        &world,
    );
    assert_eq!(lo, 0);
    assert_eq!(hi, Some(300));
}

// A filter rejection leaves the archetype untouched.
#[test]
fn filter_skips_archetype() {
    let mut a = arch_of(&[POS]);
    a.spawn(1, DynBundle::new(vec![(POS, 10)]), 2);
    let mut world = vec![a];
    let out = QueryIter::new(3, vec![Query::Write(POS)], vec![Query::Read(TAG)]).run(&mut world);
    assert_eq!(out.len(), 0);
    assert_eq!(col(&world[0], POS).version, 2);
}
