use dragonhorde::catalog::Catalog;
use dragonhorde::error::AppError;
use dragonhorde::tagset::DataMap;

fn strings(xs: &[&str]) -> Vec<String> {
    xs.iter().map(|x| x.to_string()).collect()
}

fn add(cat: &mut Catalog, sha: &str) -> usize {
    cat.create_media(sha.to_string(), None, "u".to_string(), None, None, 0).unwrap()
}

fn groups() -> DataMap {
    DataMap(vec![("Species".to_string(), strings(&["Fox"])), ("General".to_string(), strings(&["Forest"]))])
}

#[test]
fn repeated_patch_changes_nothing() {
    let mut cat = Catalog::new();
    let m = add(&mut cat, "m");
    cat.create_collection("A/B", None, None, None).unwrap();
    cat.patch_media(m, Some(groups()), Some(strings(&["Jane"])), Some(strings(&["https://s"])), Some(strings(&["A/B"])))
        .unwrap();
    let snapshot = (
        cat.media_tags.clone(),
        cat.media_creators.clone(),
        cat.sources.clone(),
        cat.memberships.clone(),
        cat.tags.len(),
        cat.tag_groups.clone(),
        cat.creators.clone(),
    );
    cat.patch_media(m, Some(groups()), Some(strings(&["Jane"])), Some(strings(&["https://s"])), Some(strings(&["A/B"])))
        .unwrap();
    assert_eq!(
        snapshot,
        (
            cat.media_tags.clone(),
            cat.media_creators.clone(),
            cat.sources.clone(),
            cat.memberships.clone(),
            cat.tags.len(),
            cat.tag_groups.clone(),
            cat.creators.clone()
        )
    );
}

#[test]
fn failed_patch_leaves_everything() {
    let mut cat = Catalog::new();
    let m = add(&mut cat, "m");
    match cat.patch_media(m, Some(groups()), Some(strings(&["Jane"])), None, Some(strings(&["Nowhere/Here"]))) {
        Err(AppError::BadRequest(msg)) => assert_eq!(msg, "collection not found: Nowhere/Here"),
        other => panic!("unexpected {:?}", other),
    }
    assert!(cat.media_tags.is_empty() && cat.tags.is_empty() && cat.creators.is_empty());
    match cat.patch_media(4, None, None, None, None) {
        Err(AppError::NotFound(_)) => {}
        other => panic!("unexpected {:?}", other),
    }
}

#[test]
fn unmatched_names_get_new_creators() {
    let mut cat = Catalog::new();
    let m = add(&mut cat, "m");
    let bob = cat.ensure_creator("Bob");
    cat.reconcile_media_creators(m, Some(strings(&["BOB", "New Person", "new person"]))).unwrap();
    assert_eq!(cat.creators, strings(&["Bob", "New Person"]));
    assert_eq!(cat.find_creator("new person"), Some(1));
    let mut rows = cat.media_creators.clone();
    rows.sort();
    assert_eq!(rows, vec![(m, bob), (m, 1)]);
}

#[test]
fn new_tags_join_their_group() {
    let mut cat = Catalog::new();
    let m = add(&mut cat, "m");
    cat.reconcile_media_tags(m, Some(groups())).unwrap();
    let fox = cat.tags.iter().position(|t| t.tag == "fox").unwrap();
    assert_eq!(cat.tag_groups[cat.tags[fox].group], "species");
    let forest = cat.tags.iter().position(|t| t.tag == "forest").unwrap();
    assert_eq!(cat.tag_groups[cat.tags[forest].group], "general");
    let n = add(&mut cat, "n");
    cat.reconcile_media_tags(n, Some(DataMap(vec![("Other".to_string(), strings(&["fox"]))]))).unwrap();
    assert_eq!(cat.tags.len(), 2);
    assert_eq!(cat.tag_groups.len(), 2);
}

#[test]
fn nested_creation_adds_only_the_missing_tail() {
    let mut cat = Catalog::new();
    let b = cat.create_collection("A/B", None, None, None).unwrap();
    assert_eq!(cat.collections.nodes.len(), 2);
    let c = cat.create_collection("A/B/C", Some("leaf".to_string()), None, None).unwrap();
    assert_eq!(cat.collections.nodes.len(), 3);
    assert_eq!(cat.collections.nodes[c].parent, Some(b));
    assert_eq!(cat.collections.resolve("A/B/C"), Some(c));
    assert_eq!(cat.collections.resolve("A/C"), None);
    assert_eq!(cat.collections.resolve("B/C"), None);
    match cat.create_collection("A/B", None, None, None) {
        Err(AppError::BadRequest(msg)) => assert_eq!(msg, "collection already exists: A/B"),
        other => panic!("unexpected {:?}", other),
    }
    match cat.create_collection("A/D", None, None, Some(vec![3])) {
        Err(AppError::NotFound(_)) => {}
        other => panic!("unexpected {:?}", other),
    }
}

#[test]
fn updating_one_collection_keeps_the_others() {
    let mut cat = Catalog::new();
    let a = add(&mut cat, "a");
    let b = add(&mut cat, "b");
    let x = cat.create_collection("X", None, Some(strings(&["Ann"])), Some(vec![a])).unwrap();
    let y = cat.create_collection("Y", None, Some(strings(&["Ben"])), Some(vec![a, b])).unwrap();
    cat.update_collection(x, None, None, Some(vec![]), Some(vec![b])).unwrap();
    let mut ys: Vec<(usize, i64)> = cat.memberships.iter().filter(|r| r.collection == y).map(|r| (r.media, r.ord)).collect();
    ys.sort();
    assert_eq!(ys, vec![(a, 0), (b, 1)]);
    assert_eq!(cat.collection_creators.iter().filter(|r| r.0 == y).count(), 1);
    assert_eq!(cat.collection_creators.iter().filter(|r| r.0 == x).count(), 0);
}

#[test]
fn existing_path_wins_over_unknown_media() {
    let mut cat = Catalog::new();
    cat.create_collection("A/B", None, None, None).unwrap();
    match cat.create_collection("A/B", None, None, Some(vec![7])) {
        Err(AppError::BadRequest(msg)) => assert_eq!(msg, "collection already exists: A/B"),
        other => panic!("unexpected {:?}", other),
    }
    match cat.create_collection("A/C", None, None, Some(vec![7])) {
        Err(AppError::NotFound(_)) => {}
        other => panic!("unexpected {:?}", other),
    }
    assert_eq!(cat.collections.nodes.len(), 2);
}

#[test]
fn update_collection_sets_description() {
    let mut cat = Catalog::new();
    let x = cat.create_collection("X", Some("old".to_string()), None, None).unwrap();
    cat.update_collection(x, None, Some("new".to_string()), None, None).unwrap();
    assert_eq!(cat.collections.summary(x).description.as_deref(), Some("new"));
    cat.update_collection(x, None, None, None, None).unwrap();
    assert_eq!(cat.collections.summary(x).description.as_deref(), Some("new"));
}

#[test]
fn distinct_new_names_get_distinct_creators() {
    let mut cat = Catalog::new();
    let ids = cat.ensure_creators(&strings(&["Ann", "Bea", "ANN"]));
    assert_eq!(ids, vec![0, 1, 0]);
    assert_eq!(cat.creators, strings(&["Ann", "Bea"]));
    assert!(cat.ensure_creators(&vec![]).is_empty());
    assert_eq!(cat.creators.len(), 2);
}
