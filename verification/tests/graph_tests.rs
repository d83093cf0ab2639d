use dod_worker::components::retain_sccs_with_path_to_fixed;
use dod_worker::pruning::prune_cycles;
use dod_worker::topology::{kahn_order, topological_sort};
use std::collections::{BTreeMap, BTreeSet};

fn ids(list: &[u64]) -> BTreeSet<u64> {
    list.iter().copied().collect()
}

fn pairs(list: &[(u64, u64)]) -> BTreeSet<(u64, u64)> {
    list.iter().copied().collect()
}

#[test]
fn the_smallest_ready_node_comes_first() {
    let nodes = ids(&[1, 2, 3, 4]);
    let edges = pairs(&[(4, 1), (3, 2)]);
    assert_eq!(kahn_order(&nodes, &edges), vec![3, 2, 4, 1]);
    let cyclic = pairs(&[(1, 2), (2, 1), (3, 1)]);
    assert_eq!(kahn_order(&nodes, &cyclic), vec![3, 4]);
    assert_eq!(topological_sort(&nodes, &cyclic), vec![3, 4, 1, 2]);
}

#[test]
fn components_without_a_way_to_a_fixed_one_are_dropped() {
    let mut nodes = ids(&[1, 2, 3, 4]);
    let mut edges = pairs(&[(1, 2), (3, 4)]);
    retain_sccs_with_path_to_fixed(&mut nodes, &mut edges, &ids(&[2]), &ids(&[1, 3, 4]));
    assert_eq!(nodes, ids(&[1, 2]));
    assert_eq!(edges, pairs(&[(1, 2)]));

    let mut nodes = ids(&[1, 2]);
    let mut edges = pairs(&[(1, 2)]);
    retain_sccs_with_path_to_fixed(&mut nodes, &mut edges, &ids(&[]), &ids(&[1, 2]));
    assert_eq!(nodes, ids(&[1, 2]));
}

#[test]
fn pruning_drops_the_weaker_class_of_a_cycle() {
    let keys: BTreeMap<u64, u8> = [(1, 5), (2, 5), (3, 5)].into_iter().collect();

    let mut nodes = ids(&[1, 2, 3]);
    let mut edges = pairs(&[(1, 2), (2, 1), (2, 3)]);
    prune_cycles(&mut nodes, &mut edges, &ids(&[1, 3]), &ids(&[2]), &keys);
    assert_eq!(nodes, ids(&[2, 3]));
    assert_eq!(edges, pairs(&[(2, 3)]));

    // What led to a dropped node leads to those that are kept.
    let mut nodes = ids(&[1, 2, 3]);
    let mut edges = pairs(&[(1, 2), (2, 3), (3, 1)]);
    prune_cycles(&mut nodes, &mut edges, &ids(&[1, 3]), &ids(&[2]), &keys);
    assert_eq!(nodes, ids(&[1]));
    assert!(edges.is_empty());
}

#[test]
fn pruning_leaves_a_node_of_every_component() {
    let keys: BTreeMap<u64, u8> = BTreeMap::new();
    let mut nodes = ids(&[1, 2, 3, 4, 5, 6]);
    let mut edges = pairs(&[(1, 2), (2, 1), (3, 4), (4, 5), (5, 3)]);
    prune_cycles(&mut nodes, &mut edges, &ids(&[1, 2]), &ids(&[3, 4]), &keys);
    assert!(nodes.contains(&1) || nodes.contains(&2));
    assert!(nodes.contains(&3) || nodes.contains(&4) || nodes.contains(&5));
    assert!(nodes.contains(&6));
    assert_eq!(nodes, ids(&[1, 3, 4, 6]));
}
