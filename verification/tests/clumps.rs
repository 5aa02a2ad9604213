use barnes_hut::components::{component_labels, component_members};
use barnes_hut::fusion::plan_fusion;

#[test]
fn labels_follow_bond_chains_in_first_body_order() {
    let ids = vec![5u64, 6, 7, 8];
    let (labels, count) = component_labels(&ids, &vec![(5, 6), (7, 99)]);
    assert_eq!(labels, vec![0, 0, 1, 2]);
    assert_eq!(count, 3);
    let (labels, count) = component_labels(&ids, &vec![(8, 5)]);
    assert_eq!(labels, vec![0, 1, 2, 0]);
    assert_eq!(count, 3);
    let (labels, count) = component_labels(&ids, &vec![(8, 7), (6, 7), (5, 8)]);
    assert_eq!(labels, vec![0, 0, 0, 0]);
    assert_eq!(count, 1);
}

#[test]
fn members_only_for_colliding_clumps() {
    let members = component_members(&vec![0, 1, 2, 0, 1], 3, &vec![(1, 2)]);
    assert_eq!(members, vec![vec![], vec![1, 4], vec![2]]);
    let none = component_members(&vec![0, 1], 2, &vec![]);
    assert_eq!(none, vec![Vec::<usize>::new(), vec![]]);
}

#[test]
fn fusion_groups_and_kept_bodies() {
    let ids = vec![10u64, 11, 12, 13, 14];
    let plan = plan_fusion(&ids, &vec![(3, 1), (1, 4)]).unwrap();
    assert_eq!(plan.groups, vec![vec![1, 3, 4]]);
    assert_eq!(plan.group_ids, vec![11]);
    assert_eq!(plan.kept, vec![0, 2]);
    let plan = plan_fusion(&ids, &vec![(4, 3), (0, 1)]).unwrap();
    assert_eq!(plan.groups, vec![vec![0, 1], vec![3, 4]]);
    assert_eq!(plan.group_ids, vec![10, 13]);
    assert_eq!(plan.kept, vec![2]);
}

#[test]
fn fusion_takes_the_smallest_id() {
    let ids = vec![9u64, 4, 7];
    let plan = plan_fusion(&ids, &vec![(0, 2), (2, 1)]).unwrap();
    assert_eq!(plan.groups, vec![vec![0, 1, 2]]);
    assert_eq!(plan.group_ids, vec![4]);
    assert!(plan.kept.is_empty());
}

#[test]
fn nothing_fuses_without_two_bodies() {
    let ids = vec![1u64, 2, 3];
    assert!(plan_fusion(&ids, &vec![]).is_none());
    assert!(plan_fusion(&ids, &vec![(2, 2)]).is_none());
    assert!(plan_fusion(&vec![], &vec![]).is_none());
}

#[test]
fn fusion_keeps_every_body_exactly_once() {
    let ids = vec![40u64, 31, 52, 13, 24, 65, 6, 77];
    let pairs = vec![(6usize, 2usize), (0, 4), (2, 7), (4, 4), (1, 4)];
    let plan = plan_fusion(&ids, &pairs).unwrap();
    let mut seen = vec![0usize; ids.len()];
    for g in &plan.groups {
        for &i in g {
            seen[i] += 1;
        }
    }
    for &i in &plan.kept {
        seen[i] += 1;
    }
    assert_eq!(seen, vec![1; ids.len()]);
    let fused: usize = plan.groups.iter().map(|g| g.len()).sum();
    assert_eq!(fused + plan.kept.len(), ids.len());
    assert_eq!(plan.groups, vec![vec![0, 1, 4], vec![2, 6, 7]]);
    assert_eq!(plan.kept, vec![3, 5]);
    for (g, &id) in plan.groups.iter().zip(plan.group_ids.iter()) {
        assert!(g.iter().any(|&i| ids[i] == id));
        assert!(g.iter().all(|&i| ids[i] >= id));
    }
    assert_eq!(plan.group_ids, vec![24, 6]);
}
