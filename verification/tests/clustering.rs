use synaptic_mesh::clustering::{
    add_members, cluster_position, hierarchical_clusters, kmeans_clusters, push_distinct, split_cluster_ids,
    split_members, take_members,
};

fn ids(names: &[&str]) -> Vec<String> {
    names.iter().map(|s| s.to_string()).collect()
}

#[test]
fn kmeans_assigns_round_robin_and_drops_small_clusters() {
    let nodes = ids(&["a", "b", "c", "d", "e", "f", "g"]);
    // Seven nodes, minimum size 3, no explicit count: 7 / 3 = 2 clusters.
    let r = kmeans_clusters(&nodes, 3, None);
    assert_eq!(r.len(), 2);
    assert_eq!(r[0].0, 0);
    assert_eq!(r[0].1, ids(&["a", "c", "e", "g"]));
    assert_eq!(r[1].0, 1);
    assert_eq!(r[1].1, ids(&["b", "d", "f"]));

    // Three clusters requested: only the first reaches three members.
    let r = kmeans_clusters(&nodes, 3, Some(3));
    assert_eq!(r.len(), 1);
    assert_eq!(r[0].0, 0);
    assert_eq!(r[0].1, ids(&["a", "d", "g"]));
}

#[test]
fn kmeans_count_is_at_least_one_and_at_most_the_node_count() {
    let nodes = ids(&["a", "b"]);
    let r = kmeans_clusters(&nodes, 1, Some(0));
    assert_eq!(r.len(), 1);
    assert_eq!(r[0].1, ids(&["a", "b"]));
    let r = kmeans_clusters(&nodes, 1, Some(10));
    assert_eq!(r.len(), 2);
    assert_eq!(r[1].1, ids(&["b"]));
    let none: Vec<String> = Vec::new();
    assert!(kmeans_clusters(&none, 1, None).is_empty());
}

#[test]
fn hierarchical_fills_clusters_in_order() {
    let nodes = ids(&["a", "b", "c", "d", "e", "f", "g"]);
    let r = hierarchical_clusters(&nodes, 2, 3);
    assert_eq!(r, vec![ids(&["a", "b", "c"]), ids(&["d", "e", "f"])]);
    let r = hierarchical_clusters(&nodes, 1, 3);
    assert_eq!(r.len(), 3);
    assert_eq!(r[2], ids(&["g"]));
    // Duplicate identifiers count once.
    let dup = ids(&["a", "a", "b"]);
    assert_eq!(hierarchical_clusters(&dup, 1, 2), vec![ids(&["a", "b"])]);
}

#[test]
fn split_take_and_add_members() {
    let members = ids(&["a", "b", "c", "d", "e"]);
    let (first, second) = split_members(&members);
    assert_eq!(first, ids(&["a", "b"]));
    assert_eq!(second, ids(&["c", "d", "e"]));

    let mut from = members.clone();
    let moved = take_members(&mut from, 2);
    assert_eq!(moved, ids(&["a", "b"]));
    assert_eq!(from, ids(&["c", "d", "e"]));

    let mut all = from.clone();
    let taken = take_members(&mut all, 10);
    assert_eq!(taken, ids(&["c", "d", "e"]));
    assert!(all.is_empty());

    let mut to = ids(&["b", "x"]);
    add_members(&mut to, &moved);
    assert_eq!(to, ids(&["b", "x", "a"]));

    let mut list = ids(&["x"]);
    push_distinct(&mut list, &"x".to_string());
    push_distinct(&mut list, &"y".to_string());
    assert_eq!(list, ids(&["x", "y"]));
}

#[test]
fn cluster_members_are_listed_once() {
    let nodes = ids(&["a", "b", "a", "b", "c"]);
    let r = kmeans_clusters(&nodes, 1, Some(2));
    assert_eq!(r.len(), 2);
    assert_eq!(r[0].1, ids(&["a", "c"]));
    assert_eq!(r[1].1, ids(&["b"]));
    for (_, members) in &r {
        let mut sorted = members.clone();
        sorted.sort();
        sorted.dedup();
        assert_eq!(sorted.len(), members.len());
    }
    let mut to = ids(&["a"]);
    add_members(&mut to, &ids(&["a", "b", "b"]));
    assert_eq!(to, ids(&["a", "b"]));
}

#[test]
fn split_clusters_are_named_after_their_parent() {
    let (a, b) = split_cluster_ids("cluster_7");
    assert_eq!(a, "cluster_7_1");
    assert_eq!(b, "cluster_7_2");
}

#[test]
fn clusters_are_found_by_identifier() {
    let names = ids(&["x", "y", "x"]);
    assert_eq!(cluster_position(&names, "x"), Some(0));
    assert_eq!(cluster_position(&names, "y"), Some(1));
    assert_eq!(cluster_position(&names, "z"), None);
}
