use search_core::ranking_rule_graph::paths_map::PathsMap;

fn paths(map: &PathsMap<u64>) -> Vec<(Vec<u32>, u64)> {
    let mut found: Vec<(Vec<u32>, u64)> =
        map.entries().into_iter().map(|e| (e.path, e.value)).collect();
    found.sort();
    found
}

#[test]
fn paths_share_their_beginning() {
    let mut map = PathsMap::new();
    assert!(map.is_empty());
    map.insert(vec![1, 2, 3], 10);
    map.insert(vec![1, 2, 4], 11);
    map.insert(vec![1, 5], 12);
    map.insert(vec![7], 13);
    assert!(!map.is_empty());
    assert_eq!(
        paths(&map),
        vec![(vec![1, 2, 3], 10), (vec![1, 2, 4], 11), (vec![1, 5], 12), (vec![7], 13)]
    );
    // one node for each beginning that the paths share
    assert_eq!(map.nodes.len(), 2);
    assert_eq!(map.nodes[0].0, 1);
    assert_eq!(map.nodes[0].1.nodes.len(), 2);
    assert_eq!(map.nodes[0].1.nodes[0].1.nodes.len(), 2);
    assert!(map.value.is_none());
    let copy = map.clone_map();
    assert_eq!(paths(&copy), paths(&map));
}

#[test]
fn no_path_begins_with_another() {
    let mut map = PathsMap::new();
    map.insert(vec![1, 2, 3], 10);
    map.insert(vec![1, 2, 4], 11);
    map.insert(vec![6, 7], 12);
    // a path that the collection covers changes nothing, not even the value
    map.insert(vec![1, 2, 3], 99);
    map.insert(vec![1, 2, 3, 8], 98);
    assert_eq!(paths(&map), vec![(vec![1, 2, 3], 10), (vec![1, 2, 4], 11), (vec![6, 7], 12)]);
    // a shorter path takes the place of those that begin with it
    map.insert(vec![1, 2], 20);
    assert_eq!(paths(&map), vec![(vec![1, 2], 20), (vec![6, 7], 12)]);
    // the empty path begins every path
    map.insert(vec![], 30);
    assert_eq!(paths(&map), vec![(vec![], 30)]);
    map.insert(vec![5], 31);
    assert_eq!(paths(&map), vec![(vec![], 30)]);
}

#[test]
fn covered_paths_are_told() {
    let mut map: PathsMap<()> = PathsMap::new();
    assert!(!map.contains_prefix_of_path(&vec![]));
    assert!(!map.contains_prefix_of_path(&vec![1]));
    map.insert(vec![1, 2], ());
    map.insert(vec![3], ());
    assert!(map.contains_prefix_of_path(&vec![1, 2]));
    assert!(map.contains_prefix_of_path(&vec![1, 2, 9, 9]));
    assert!(map.contains_prefix_of_path(&vec![3, 1, 2]));
    assert!(!map.contains_prefix_of_path(&vec![1]));
    assert!(!map.contains_prefix_of_path(&vec![1, 3]));
    assert!(!map.contains_prefix_of_path(&vec![2, 1, 2]));
    assert!(!map.contains_prefix_of_path(&vec![]));
    assert_eq!(map.entries().len(), 2);
}

#[test]
fn shadowed_children_do_not_count() {
    // of two children under one edge only the first is looked at
    let mut first = PathsMap::new();
    first.insert(vec![], 1u64);
    let mut second = PathsMap::new();
    second.insert(vec![9], 2u64);
    let map = PathsMap { nodes: vec![(4, first), (4, second)], value: None };
    assert_eq!(paths(&map), vec![(vec![4], 1)]);
    assert!(map.contains_prefix_of_path(&vec![4, 9]));
    assert!(!map.is_empty());
    let dead = PathsMap::<u64> { nodes: vec![(4, PathsMap::new())], value: None };
    assert!(dead.is_empty());
}
