//! Lookup timing of the map-backed and list-backed trees on shared random
//! keys.

use std::time::Instant;

use someip_analyzer::trees::{build_tree_hashmap, build_tree_vec, generate_keys};

#[test]
fn trees_mirror_the_key_lists() {
    let keys = generate_keys(3, 2);
    assert_eq!(keys.len(), 3);
    assert_eq!(keys[0].len(), 1);
    assert_eq!(keys[1].len(), 2);
    assert_eq!(keys[2].len(), 4);
    let tv = build_tree_vec(&keys, 3, 0);
    assert_eq!(tv.value, 0);
    assert_eq!(tv.children.len(), keys[0].len());
    assert_eq!(tv.children[0].0, keys[0][0]);
    assert_eq!(tv.children[0].1.value, 1);
    assert_eq!(tv.children[0].1.children.len(), keys[1].len());
    let th = build_tree_hashmap(&keys, 3, 0);
    assert_eq!(th.value, 0);
    // Duplicate keys collapse in the map-backed tree.
    assert!(th.children.len() <= keys[0].len());
    let child = th.get_child(&keys[0][0]).expect("key present");
    assert_eq!(child.value, 1);
}

#[test]
fn main() {
    let levels = 3;
    let max_children = 100;
    let keys = generate_keys(levels, max_children);
    let search_key = keys[0][0].clone();
    assert_eq!(search_key.len(), 10);

    let root_hashmap = build_tree_hashmap(&keys, levels, 0);
    let start = Instant::now();
    for _ in 0..10000 {
        let mut current_node = &root_hashmap;
        for level in 0..levels {
            if let Some(child) = current_node.get_child(&keys[level][0]) {
                current_node = child;
            } else {
                break;
            }
        }
    }
    let duration = start.elapsed();
    println!("HashMap lookup duration: {:?}", duration);

    let root_vec = build_tree_vec(&keys, levels, 0);
    let start = Instant::now();
    for _ in 0..10000 {
        let mut current_node = &root_vec;
        for level in 0..levels {
            if let Some(child) = current_node.get_child(&keys[level][0]) {
                current_node = child;
            } else {
                break;
            }
        }
    }
    let duration = start.elapsed();
    println!("Vec lookup duration: {:?}", duration);
}
