use ecs_core::archetype::{chunk_idx, chunks_count, first_of_chunk, Archetype, ComponentInfo};
use ecs_core::bundle::{DynBundle, DynamicBundle};

const POS: u64 = 1;
const VEL: u64 = 2;
const TAG: u64 = 3;

fn arch_of(ids: &[u64]) -> Archetype {
    let infos: Vec<ComponentInfo> = ids.iter().map(|&id| ComponentInfo::new(id)).collect();
    Archetype::new(&infos)
}

fn col<'a>(a: &'a Archetype, id: u64) -> &'a ecs_core::archetype::ComponentData {
    let ci = a.set.get(id).unwrap();
    a.data(ci)
}

#[test]
fn chunk_helpers() {
    assert_eq!(chunk_idx(0), 0);
    assert_eq!(chunk_idx(255), 0);
    assert_eq!(chunk_idx(256), 1);
    assert_eq!(chunks_count(0), 0);
    assert_eq!(chunks_count(1), 1);
    assert_eq!(chunks_count(256), 1);
    assert_eq!(chunks_count(257), 2);
    assert_eq!(first_of_chunk(0), Some(0));
    assert_eq!(first_of_chunk(256), Some(1));
    assert_eq!(first_of_chunk(5), None);
}

#[test]
fn set_membership_and_matches() {
    let a = arch_of(&[VEL, POS]);
    assert!(a.contains_id(POS));
    assert!(a.contains_id(VEL));
    assert!(!a.contains_id(TAG));
    assert!(a.matches(&vec![POS, VEL]));
    assert!(a.matches(&vec![VEL, POS]));
    assert!(!a.matches(&vec![POS]));
    assert!(!a.matches(&vec![POS, VEL, TAG]));
    assert_eq!(a.ids(), vec![POS, VEL]);
    assert_eq!(a.infos().len(), 2);
}

// Spawn three entities with (Pos, Vel) at epoch 10: every column stamped 10.
#[test]
fn spawn_three_at_epoch_ten() {
    let mut a = arch_of(&[POS, VEL]);
    for (e, p, v) in [(101u64, 1u64, 2u64), (102, 1, 2), (103, 1, 2)] {
        let b = DynBundle::new(vec![(POS, p), (VEL, v)]);
        a.spawn(e, b, 10);
    }
    assert_eq!(a.len(), 3);
    assert_eq!(a.entities(), &vec![101, 102, 103]);
    for id in [POS, VEL] {
        let c = col(&a, id);
        assert_eq!(c.version, 10);
        assert_eq!(c.chunk_versions[0], 10);
        assert_eq!(&c.entity_versions[0..3], &[10, 10, 10]);
    }
}

// Continuing: write Vel only on the middle row at epoch 11.
#[test]
fn set_single_component() {
    let mut a = arch_of(&[POS, VEL]);
    for e in [101u64, 102, 103] {
        a.spawn(e, DynBundle::new(vec![(POS, 1), (VEL, 2)]), 10);
    }
    a.set(1, VEL, 9, 11);
    let p = col(&a, POS);
    assert_eq!(p.version, 10);
    assert_eq!(&p.entity_versions[0..3], &[10, 10, 10]);
    let v = col(&a, VEL);
    assert_eq!(v.version, 11);
    assert_eq!(v.chunk_versions[0], 11);
    assert_eq!(&v.entity_versions[0..3], &[10, 11, 10]);
    assert_eq!(v.values[1], 9);
}

// Despawn row 0 after the write: the last row's values and epochs move in,
// the chunk version takes the max, the moved-row hint names the former slot.
#[test]
fn despawn_swaps_last_row_in() {
    let mut a = arch_of(&[POS, VEL]);
    for (e, p) in [(101u64, 11u64), (102, 22), (103, 33)] {
        a.spawn(e, DynBundle::new(vec![(POS, p), (VEL, p + 1)]), 10);
    }
    a.set(1, VEL, 9, 11);
    let moved = a.despawn(0);
    assert_eq!(moved, Some(2));
    assert_eq!(a.len(), 2);
    assert_eq!(a.entities(), &vec![103, 102]);
    let p = col(&a, POS);
    assert_eq!(p.values[0], 33);
    assert_eq!(p.entity_versions[0], 10);
    assert_eq!(p.entity_versions[2], 0);
    let v = col(&a, VEL);
    assert_eq!(v.entity_versions[0], 10);
    assert_eq!(v.chunk_versions[0], 11);
}

// Despawn of the only row returns no moved-row hint.
#[test]
fn despawn_only_row_moves_none() {
    let mut a = arch_of(&[POS]);
    a.spawn(7, DynBundle::new(vec![(POS, 5)]), 3);
    let moved = a.despawn(0);
    assert_eq!(moved, None);
    assert_eq!(a.len(), 0);
    let p = col(&a, POS);
    assert_eq!(p.entity_versions[0], 0);
    // the column version never decreases
    assert_eq!(p.version, 3);
}

// Spawn then despawn returns the archetype to its former row count with no
// further allocation.
#[test]
fn spawn_despawn_round_trip() {
    let mut a = arch_of(&[POS]);
    a.spawn(1, DynBundle::new(vec![(POS, 10)]), 2);
    let cap_after_first = a.cap;
    a.spawn(2, DynBundle::new(vec![(POS, 20)]), 3);
    let cap = a.cap;
    let moved = a.despawn(1);
    assert_eq!(moved, None);
    assert_eq!(a.len(), 1);
    assert_eq!(a.cap, cap);
    assert_eq!(col(&a, POS).values[0], 10);
    assert_eq!(col(&a, POS).entity_versions[0], 2);
    assert!(cap_after_first >= 1);
}

// Growth across the chunk boundary keeps versions and zero-fills the tail.
#[test]
fn growth_across_chunk_boundary() {
    let mut a = arch_of(&[POS]);
    for e in 0..257u64 {
        a.spawn(e, DynBundle::new(vec![(POS, e * 10)]), e + 1);
    }
    assert_eq!(a.len(), 257);
    let p = col(&a, POS);
    assert!(p.chunk_versions.len() >= 2);
    assert_eq!(p.chunk_versions[0], 256);
    assert_eq!(p.chunk_versions[1], 257);
    for r in 0..257usize {
        assert_eq!(p.values[r], r as u64 * 10);
        assert_eq!(p.entity_versions[r], r as u64 + 1);
    }
    for r in 257..a.cap {
        assert_eq!(p.entity_versions[r], 0);
    }
    assert_eq!(p.version, 257);
}

// set_bundle touches only the bundled columns.
#[test]
fn set_bundle_touches_named_columns() {
    let mut a = arch_of(&[POS, VEL]);
    a.spawn(1, DynBundle::new(vec![(POS, 1), (VEL, 2)]), 5);
    a.set_bundle(0, DynBundle::new(vec![(VEL, 42)]), 6);
    assert_eq!(col(&a, POS).version, 5);
    assert_eq!(col(&a, POS).values[0], 1);
    assert_eq!(col(&a, VEL).version, 6);
    assert_eq!(col(&a, VEL).values[0], 42);
    assert_eq!(col(&a, VEL).entity_versions[0], 6);
}

// Insert Tag on a row: migrated columns keep their original epochs, the new
// column is stamped at the current epoch.
#[test]
fn insert_migrates_and_stamps_new_column() {
    let mut a = arch_of(&[POS, VEL]);
    for e in [101u64, 102, 103] {
        a.spawn(e, DynBundle::new(vec![(POS, e), (VEL, e + 1)]), 10);
    }
    a.set(1, VEL, 9, 11);
    a.despawn(0);
    // rows now: [103, 102]
    let mut b = arch_of(&[POS, VEL, TAG]);
    let (dst_row, moved) = a.insert(&mut b, 0, TAG, 77, 12);
    assert_eq!(dst_row, 0);
    assert_eq!(moved, Some(1));
    assert_eq!(a.len(), 1);
    assert_eq!(b.len(), 1);
    assert_eq!(b.entities(), &vec![103]);
    assert_eq!(col(&b, POS).values[0], 103);
    assert_eq!(col(&b, POS).entity_versions[0], 10);
    assert_eq!(col(&b, VEL).values[0], 104);
    assert_eq!(col(&b, VEL).entity_versions[0], 10);
    let t = col(&b, TAG);
    assert_eq!(t.values[0], 77);
    assert_eq!(t.entity_versions[0], 12);
    assert_eq!(t.chunk_versions[0], 12);
    assert_eq!(t.version, 12);
}

// Insert then remove hands the value back and retained columns agree.
#[test]
fn insert_remove_round_trip() {
    let mut a = arch_of(&[POS]);
    a.spawn(1, DynBundle::new(vec![(POS, 50)]), 4);
    let mut b = arch_of(&[POS, VEL]);
    let (row_b, _) = a.insert(&mut b, 0, VEL, 99, 5);
    let mut c = arch_of(&[POS]);
    let (row_c, moved, value) = b.remove(&mut c, row_b, VEL);
    assert_eq!(value, 99);
    assert_eq!(moved, None);
    assert_eq!(c.len(), 1);
    assert_eq!(col(&c, POS).values[row_c as usize], 50);
    assert_eq!(col(&c, POS).entity_versions[row_c as usize], 4);
    assert_eq!(c.entities(), &vec![1]);
}

// insert_bundle stamps bundled columns at the epoch and migrates the rest.
#[test]
fn insert_bundle_mixed_columns() {
    let mut a = arch_of(&[POS]);
    a.spawn(8, DynBundle::new(vec![(POS, 3)]), 6);
    let mut b = arch_of(&[POS, VEL, TAG]);
    let (row_b, moved) = a.insert_bundle(&mut b, 0, DynBundle::new(vec![(VEL, 4), (TAG, 5)]), 7);
    assert_eq!(row_b, 0);
    assert_eq!(moved, None);
    assert_eq!(col(&b, POS).values[0], 3);
    assert_eq!(col(&b, POS).entity_versions[0], 6);
    assert_eq!(col(&b, VEL).values[0], 4);
    assert_eq!(col(&b, VEL).entity_versions[0], 7);
    assert_eq!(col(&b, TAG).entity_versions[0], 7);
    assert_eq!(col(&b, TAG).version, 7);
}

// drop_bundle narrows the shape, dropping the columns the target lacks.
#[test]
fn drop_bundle_narrows() {
    let mut a = arch_of(&[POS, VEL]);
    a.spawn(9, DynBundle::new(vec![(POS, 1), (VEL, 2)]), 3);
    let mut b = arch_of(&[POS]);
    let (row_b, moved) = a.drop_bundle(&mut b, 0);
    assert_eq!(row_b, 0);
    assert_eq!(moved, None);
    assert_eq!(a.len(), 0);
    assert_eq!(b.len(), 1);
    assert_eq!(col(&b, POS).values[0], 1);
    assert_eq!(col(&b, POS).entity_versions[0], 3);
}

// Migrating there and back is value identity on retained columns.
#[test]
fn migrate_round_trip_identity() {
    let mut a = arch_of(&[POS, VEL]);
    a.spawn(5, DynBundle::new(vec![(POS, 123), (VEL, 456)]), 8);
    let mut b = arch_of(&[POS, VEL, TAG]);
    let (rb, _) = a.insert(&mut b, 0, TAG, 1, 9);
    let mut back = arch_of(&[POS, VEL]);
    let (rc, _, tag_value) = b.remove(&mut back, rb, TAG);
    assert_eq!(tag_value, 1);
    assert_eq!(col(&back, POS).values[rc as usize], 123);
    assert_eq!(col(&back, VEL).values[rc as usize], 456);
    assert_eq!(col(&back, POS).entity_versions[rc as usize], 8);
    assert_eq!(col(&back, VEL).entity_versions[rc as usize], 8);
    assert_eq!(back.entities(), &vec![5]);
}

// Dense indexing is stable under permutation of the same ids.
#[test]
fn typeidset_indexing_stable() {
    let a = arch_of(&[POS, VEL, TAG]);
    let b = arch_of(&[TAG, POS, VEL]);
    let c = arch_of(&[VEL, TAG, POS]);
    assert_eq!(a.ids(), b.ids());
    assert_eq!(b.ids(), c.ids());
    for id in [POS, VEL, TAG] {
        assert_eq!(a.set.get(id), b.set.get(id));
        assert_eq!(b.set.get(id), c.set.get(id));
    }
    assert_eq!(a.set.upper_bound(), 3);
    assert_eq!(a.set.len(), 3);
    let indexed = a.set.indexed();
    assert_eq!(indexed.len(), 3);
    for (k, (idx, id)) in indexed.iter().enumerate() {
        assert_eq!(*idx, k);
        assert!(a.contains_id(*id));
    }
}

// Duplicate ids collapse to one column; a bundle with duplicates is invalid.
#[test]
fn duplicates_and_validity() {
    let a = arch_of(&[POS, POS, VEL]);
    assert_eq!(a.set.len(), 2);
    let good = DynBundle::new(vec![(POS, 1), (VEL, 2)]);
    assert!(good.valid());
    let bad = DynBundle::new(vec![(POS, 1), (POS, 2)]);
    assert!(!bad.valid());
    let empty = DynBundle::new(vec![]);
    assert!(empty.valid());
    assert_eq!(good.with_ids(), vec![POS, VEL]);
    assert_eq!(good.put(), vec![(POS, 1), (VEL, 2)]);
}
