use groupnet_consistency::idmap::{IdMap, IdSet};
use groupnet_consistency::ids::contains_id;
use groupnet_consistency::{GroupId, NodeId};

fn node(name: &str) -> NodeId {
    NodeId::new(name)
}

#[test]
fn nodes_are_ordered_by_the_bytes_of_their_names() {
    assert!(node("a").precedes(&node("b")));
    assert!(node("a").precedes(&node("aa")));
    assert!(node("").precedes(&node("a")));
    assert!(!node("b").precedes(&node("a")));
    assert!(!node("a").precedes(&node("a")));
    assert!(node("z").precedes(&node("é")), "two bytes beat one ASCII byte");
    assert_eq!(GroupId::new("g"), GroupId::from_string("g".to_owned()));
    assert_ne!(GroupId::new("g"), GroupId::new("h"));
}

#[test]
fn a_map_holds_one_value_per_node_in_node_order() {
    let mut map: IdMap<u32> = IdMap::new();
    assert!(map.is_empty());
    for (name, value) in [("c", 3), ("a", 1), ("b", 2), ("a", 10)] {
        map.insert(node(name), value);
    }
    assert_eq!(map.len(), 3);
    let rows: Vec<(&str, u32)> = (0..map.len())
        .map(|i| (map.key_at(i).as_str(), *map.value_at(i)))
        .collect();
    assert_eq!(rows, vec![("a", 10), ("b", 2), ("c", 3)]);
    assert_eq!(map.get(&node("b")), Some(&2));
    assert_eq!(map.get_copy(&node("x")), None);
    assert_eq!(map.remove(&node("b")), Some(2));
    assert_eq!(map.remove(&node("b")), None);
    assert!(!map.contains_key(&node("b")));
    assert_eq!(map.clone().len(), 2);
}

#[test]
fn a_set_holds_each_node_once_in_node_order() {
    let mut set = IdSet::of(&[node("b"), node("a"), node("b")]);
    assert_eq!(set.to_vec(), vec![node("a"), node("b")]);
    set.insert(node("c"));
    assert!(set.contains(&node("c")));
    assert!(set.remove(&node("a")));
    assert!(!set.remove(&node("a")));
    assert_eq!(set.len(), 2);
    assert_eq!(set.at(0), &node("b"));
    assert!(contains_id(&[node("x"), node("y")], &node("y")));
    assert!(!contains_id(&[], &node("y")));
}
