use barnes_hut::contacts::{uses_component_mode, CollideSettings, ContactTracker};

fn settings(bonds: bool, bond_steps: u32, max_bonds: u8, fuse: bool, fuse_steps: u32) -> CollideSettings {
    CollideSettings {
        bonds_enabled: bonds,
        bond_steps,
        max_bonds_per_body: max_bonds,
        bond_iters: 2,
        fuse_enabled: fuse,
        fuse_steps,
    }
}

#[test]
fn settings_from_raw_values() {
    let s = CollideSettings::from_raw(true, 0, 20, 99, false, 5);
    assert!(s.bonds_enabled);
    assert_eq!(s.bond_steps, 1);
    assert_eq!(s.max_bonds_per_body, 16);
    assert_eq!(s.bond_iters, 16);
    assert!(!s.fuse_enabled);
    assert_eq!(s.fuse_steps, 5);
    let t = CollideSettings::from_raw(false, 15, 4, 2, true, 20);
    assert_eq!((t.bond_steps, t.max_bonds_per_body, t.bond_iters, t.fuse_steps), (15, 4, 2, 20));
    let wrapped = CollideSettings::from_raw(true, 1u64 << 32, 0, 0, true, (1u64 << 32) + 3);
    assert_eq!(wrapped.bond_steps, 0);
    assert_eq!(wrapped.fuse_steps, 3);
}

#[test]
fn streak_grows_on_consecutive_frames() {
    let ids = vec![10u64, 20, 30];
    let pairs = vec![(0usize, 1usize)];
    let s = settings(false, 15, 4, false, 20);
    let mut t = ContactTracker::new();
    let p = t.plan(&ids, &pairs, 1, s, &vec![]);
    assert_eq!(p.resolve, vec![(0, 1)]);
    assert!(!p.fuse && !p.solve_bonds);
    assert_eq!(t.get(20, 10).map(|c| (c.last_frame, c.streak)), Some((1, 1)));
    t.plan(&ids, &pairs, 2, s, &vec![]);
    assert_eq!(t.get(10, 20).unwrap().streak, 2);
    t.plan(&ids, &pairs, 4, s, &vec![]);
    assert_eq!(t.get(10, 20).map(|c| (c.last_frame, c.streak)), Some((4, 1)));
    assert_eq!(t.len(), 1);
}

#[test]
fn long_contacts_fuse_and_skip_resolution() {
    let ids = vec![10u64, 20, 30];
    let pairs = vec![(0usize, 1usize), (1, 2)];
    let s = settings(false, 15, 0, true, 2);
    let mut t = ContactTracker::new();
    let p = t.plan(&ids, &pairs, 1, s, &vec![]);
    assert!(p.fuse_pairs.is_empty());
    assert_eq!(p.resolve, pairs);
    let p = t.plan(&ids, &vec![(0, 1)], 2, s, &vec![]);
    assert_eq!(p.fuse_pairs, vec![(0, 1)]);
    assert!(p.fuse);
    assert!(p.resolve.is_empty());
}

#[test]
fn bonds_form_after_enough_frames_and_respect_the_cap() {
    let ids = vec![10u64, 20, 30];
    let pairs = vec![(0usize, 1usize), (0, 2)];
    let s = settings(true, 1, 1, false, 20);
    let mut t = ContactTracker::new();
    let p = t.plan(&ids, &pairs, 1, s, &vec![]);
    assert_eq!(p.new_bonds, vec![(0, 1)]);
    assert_eq!(p.resolve, vec![(0, 2)]);
    assert!(p.solve_bonds);
}

#[test]
fn existing_bonds_count_toward_the_cap_and_are_not_resolved() {
    let ids = vec![10u64, 20, 30];
    let pairs = vec![(0usize, 1usize), (1, 2)];
    let s = settings(true, 1, 2, false, 20);
    let mut t = ContactTracker::new();
    let bonds = vec![(10u64, 20u64), (20, 99)];
    let p = t.plan(&ids, &pairs, 1, s, &bonds);
    assert!(p.new_bonds.is_empty());
    assert_eq!(p.resolve, vec![(1, 2)]);
    assert!(p.solve_bonds);
}

#[test]
fn a_body_touching_itself_never_bonds() {
    let ids = vec![10u64, 10];
    let s = settings(true, 1, 4, false, 20);
    let mut t = ContactTracker::new();
    let p = t.plan(&ids, &vec![(0, 1)], 1, s, &vec![]);
    assert!(p.new_bonds.is_empty());
    assert_eq!(p.resolve, vec![(0, 1)]);
    assert!(!p.solve_bonds);
}

#[test]
fn contacts_per_body_are_limited_while_tracking() {
    let ids = vec![0u64, 1, 2, 3];
    let pairs = vec![(0usize, 1usize), (0, 2), (0, 3)];
    let s = settings(false, 15, 0, true, 20);
    let mut t = ContactTracker::new();
    let p = t.plan(&ids, &pairs, 1, s, &vec![]);
    assert!(t.get(0, 1).is_some());
    assert!(t.get(0, 2).is_some());
    assert!(t.get(0, 3).is_none());
    assert_eq!(p.resolve, pairs);
}

#[test]
fn stale_contacts_are_dropped_every_thirtieth_frame() {
    let ids = vec![0u64, 1, 2];
    let s = settings(false, 15, 4, false, 20);
    let mut t = ContactTracker::new();
    t.plan(&ids, &vec![(0, 1)], 1, s, &vec![]);
    t.plan(&ids, &vec![(1, 2)], 29, s, &vec![]);
    t.plan(&ids, &vec![], 30, s, &vec![]);
    assert!(t.get(0, 1).is_none());
    assert!(t.get(1, 2).is_some());
    t.plan(&ids, &vec![], 60, s, &vec![]);
    assert_eq!(t.len(), 0);
}

#[test]
fn forget_drops_one_record() {
    let ids = vec![0u64, 1, 2];
    let s = settings(false, 15, 4, false, 20);
    let mut t = ContactTracker::new();
    t.plan(&ids, &vec![(0, 1), (1, 2)], 1, s, &vec![]);
    t.forget(1, 0);
    assert!(t.get(0, 1).is_none());
    assert_eq!(t.len(), 1);
}

#[test]
fn component_mode_needs_many_bonds() {
    let on = settings(true, 1, 4, false, 1);
    let off = settings(false, 1, 4, false, 1);
    assert!(uses_component_mode(on, 512));
    assert!(!uses_component_mode(on, 511));
    assert!(!uses_component_mode(off, 10_000));
}

#[test]
fn resolved_pairs_are_the_unfused_unbonded_pairs_in_order() {
    let ids = vec![1u64, 2, 3, 4, 5];
    let pairs = vec![(3usize, 4usize), (0, 1), (2, 3), (1, 2), (0, 4)];
    let s = settings(true, 1, 4, false, 20);
    let mut t = ContactTracker::new();
    let bonds = vec![(2u64, 3u64), (1, 5)];
    let p = t.plan(&ids, &pairs, 1, s, &bonds);
    // every remaining candidate bonds, so only the already bonded pairs skip selection
    assert_eq!(p.new_bonds, vec![(3, 4), (0, 1), (2, 3)]);
    assert!(p.resolve.is_empty());
    let s = settings(false, 1, 4, false, 20);
    let p = t.plan(&ids, &pairs, 2, s, &bonds);
    assert_eq!(p.resolve, pairs);
    for q in &p.resolve {
        assert!(pairs.contains(q));
    }
}

#[test]
fn no_body_gains_bonds_beyond_the_cap() {
    let ids = vec![0u64, 1, 2, 3, 4, 5];
    let pairs = vec![(0usize, 1usize), (0, 2), (0, 3), (0, 4), (1, 2), (3, 4), (4, 5)];
    let s = settings(true, 1, 2, false, 20);
    let mut t = ContactTracker::new();
    // body 5 already has three bonds, above the cap of two
    let bonds = vec![(5u64, 9u64), (5, 8), (5, 7)];
    let p = t.plan(&ids, &pairs, 1, s, &bonds);
    let mut count = vec![0usize; 10];
    for &(a, b) in &bonds {
        count[a as usize] += 1;
        count[b as usize] += 1;
    }
    for &(i, j) in &p.new_bonds {
        count[ids[i] as usize] += 1;
        count[ids[j] as usize] += 1;
    }
    assert_eq!(count[5], 3);
    for id in 0..5 {
        assert!(count[id] <= 2);
    }
}

#[test]
fn chosen_bonds_are_new_and_distinct() {
    let ids = vec![7u64, 8, 9];
    let pairs = vec![(0usize, 1usize), (1, 0), (1, 2), (2, 1), (0, 1)];
    let s = settings(true, 1, 4, false, 20);
    let mut t = ContactTracker::new();
    let p = t.plan(&ids, &pairs, 1, s, &vec![(8, 9)]);
    assert_eq!(p.new_bonds, vec![(0, 1)]);
}

#[test]
fn untouched_records_stay_as_they_were() {
    let ids = vec![0u64, 1, 2, 3];
    let s = settings(false, 15, 4, false, 20);
    let mut t = ContactTracker::new();
    t.plan(&ids, &vec![(0, 1)], 3, s, &vec![]);
    t.plan(&ids, &vec![(2, 3)], 5, s, &vec![]);
    let c = t.get(0, 1).unwrap();
    assert_eq!((c.last_frame, c.streak), (3, 1));
    let d = t.get(3, 2).unwrap();
    assert_eq!((d.last_frame, d.streak), (5, 1));
}
