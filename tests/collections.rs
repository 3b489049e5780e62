use dragonhorde::collections::{collection_by_path, collection_id_by_path, CollectionTree};
use dragonhorde::error::AppError;

#[test]
fn nested_paths_resolve_exactly() {
    let mut tree = CollectionTree::new();
    let ab = tree.create_path("A/B", None).unwrap();
    let abc = tree.create_path("A/B/C", Some("leaf".to_string())).unwrap();
    assert_eq!(tree.resolve("A/B/C"), Some(abc));
    assert_eq!(tree.resolve("A/B"), Some(ab));
    assert_eq!(tree.resolve("A/C"), None);
    assert_eq!(tree.resolve("B"), None);
    assert_eq!(tree.nodes.len(), 3);
}

#[test]
fn materialize_round_trips() {
    let mut tree = CollectionTree::new();
    let id = tree.create_path("Artists/Jane/2024", None).unwrap();
    assert_eq!(tree.materialize(id), "Artists/Jane/2024");
    assert_eq!(tree.resolve(&tree.materialize(id)), Some(id));
    let parent = tree.resolve("Artists/Jane").unwrap();
    assert_eq!(tree.materialize(parent), "Artists/Jane");
}

#[test]
fn existing_path_is_refused() {
    let mut tree = CollectionTree::new();
    tree.create_path("A/B", None).unwrap();
    match tree.create_path("A/B", None) {
        Err(AppError::BadRequest(_)) => {}
        other => panic!("unexpected {:?}", other),
    }
    assert_eq!(tree.nodes.len(), 2);
}

#[test]
fn description_goes_to_last_segment() {
    let mut tree = CollectionTree::new();
    let id = tree.create_path("X/Y", Some("deep".to_string())).unwrap();
    assert_eq!(tree.nodes[id].description.as_deref(), Some("deep"));
    let x = tree.resolve("X").unwrap();
    assert_eq!(tree.nodes[x].description, None);
}

#[test]
fn lookup_by_path_lists_children() {
    let mut tree = CollectionTree::new();
    let a = tree.create_path("A", None).unwrap();
    let b = tree.create_path("A/B", None).unwrap();
    let c = tree.create_path("A/C", None).unwrap();
    assert_eq!(collection_id_by_path(&tree, "A".to_string()), Some(a));
    let s = collection_by_path(&tree, "A".to_string()).unwrap();
    assert_eq!(s.id, a);
    assert_eq!(s.name, "A");
    assert_eq!(s.children, vec![b, c]);
    assert!(collection_by_path(&tree, "Z".to_string()).is_none());
}
