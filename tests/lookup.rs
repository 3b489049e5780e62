use dragonhorde::catalog::Catalog;
use dragonhorde::error::AppError;
use dragonhorde::paging::Pagination;
use dragonhorde::search::MediaFilter;
use dragonhorde::tagset::DataMap;

fn strings(xs: &[&str]) -> Vec<String> {
    xs.iter().map(|x| x.to_string()).collect()
}

fn add(cat: &mut Catalog, sha: &str, hash: Option<u64>) -> usize {
    cat.create_media(sha.to_string(), hash, "u".to_string(), None, None, 0).unwrap()
}

#[test]
fn find_by_content_address() {
    let mut cat = Catalog::new();
    let a = add(&mut cat, "aaa", None);
    let b = add(&mut cat, "bbb", None);
    assert_eq!(cat.media_by_sha(&"bbb".to_string()), Some(b));
    assert_eq!(cat.media_by_sha(&"aaa".to_string()), Some(a));
    assert_eq!(cat.media_by_sha(&"ccc".to_string()), None);
}

#[test]
fn cover_is_lowest_place() {
    let mut cat = Catalog::new();
    let a = add(&mut cat, "a", None);
    let b = add(&mut cat, "b", None);
    let col = cat.create_collection("C", None, None, Some(vec![b, a])).unwrap();
    assert_eq!(cat.collection_cover(col), Some(b));
    let empty = cat.create_collection("E", None, None, None).unwrap();
    assert_eq!(cat.collection_cover(empty), None);
}

#[test]
fn duplicate_pairs_within_distance() {
    let mut cat = Catalog::new();
    let a = add(&mut cat, "a", Some(0b000));
    let b = add(&mut cat, "b", Some(0b001));
    let _c = add(&mut cat, "c", None);
    let d = add(&mut cat, "d", Some(0b111));
    assert_eq!(cat.duplicates(None), vec![(a, b, 1)]);
    assert_eq!(cat.duplicates(Some(3)), vec![(a, b, 1), (a, d, 3), (b, d, 2)]);
    assert_eq!(cat.duplicates(Some(0)), vec![]);
}

#[test]
fn update_collection_renames_and_replaces() {
    let mut cat = Catalog::new();
    let m = add(&mut cat, "m", None);
    let x = cat.create_collection("P/X", None, None, None).unwrap();
    let y = cat.create_collection("P/Y", None, None, None).unwrap();
    cat.update_collection(x, Some("Q/Z".to_string()), Some("desc".to_string()), Some(strings(&["Ann"])), Some(vec![m]))
        .unwrap();
    assert_eq!(cat.collections.materialize(x), "P/Z");
    assert_eq!(cat.collections.nodes[x].description.as_deref(), Some("desc"));
    assert_eq!(cat.collection_cover(x), Some(m));
    assert_eq!(cat.collection_creators.len(), 1);
    match cat.update_collection(x, Some("Y".to_string()), None, None, None) {
        Err(AppError::Exists(_)) => {}
        other => panic!("unexpected {:?}", other),
    }
    assert_eq!(cat.collections.materialize(x), "P/Z");
    assert_eq!(cat.collections.materialize(y), "P/Y");
    match cat.update_collection(9, None, None, None, None) {
        Err(AppError::NotFound(_)) => {}
        other => panic!("unexpected {:?}", other),
    }
    match cat.update_collection(x, None, None, None, Some(vec![5])) {
        Err(AppError::NotFound(_)) => {}
        other => panic!("unexpected {:?}", other),
    }
}

#[test]
fn update_creator_replaces_aliases() {
    let mut cat = Catalog::new();
    let jane = cat.ensure_creator("Jane Doe");
    let bob = cat.ensure_creator("Bob");
    cat.update_creator(jane, Some("Jane D.".to_string()), Some(strings(&["J.Doe", "jane doe"]))).unwrap();
    assert_eq!(cat.creators[jane], "Jane D.");
    assert_eq!(cat.find_creator("j.doe"), Some(jane));
    assert_eq!(cat.find_creator("Jane Doe"), Some(jane));
    cat.update_creator(jane, None, Some(strings(&["jd"]))).unwrap();
    assert_eq!(cat.find_creator("j.doe"), None);
    assert_eq!(cat.find_creator("JD"), Some(jane));
    assert_eq!(cat.find_creator("bob"), Some(bob));
    match cat.update_creator(jane, None, Some(strings(&["BOB"]))) {
        Err(AppError::Exists(_)) => {}
        other => panic!("unexpected {:?}", other),
    }
    assert_eq!(cat.find_creator("jd"), Some(jane));
    match cat.update_creator(7, None, None) {
        Err(AppError::NotFound(_)) => {}
        other => panic!("unexpected {:?}", other),
    }
}

#[test]
fn collections_searched_by_tags_and_creators() {
    let mut cat = Catalog::new();
    let a = cat.create_collection("A", None, Some(strings(&["Jane"])), None).unwrap();
    let b = cat.create_collection("B", None, None, None).unwrap();
    cat.reconcile_collection_tags(a, Some(DataMap(vec![("Species".to_string(), strings(&["Fox"]))]))).unwrap();
    cat.reconcile_collection_tags(b, Some(DataMap(vec![("General".to_string(), strings(&["forest"]))]))).unwrap();
    let all = Pagination { per_page: None, last: None };
    let f = MediaFilter::from_terms(&strings(&["fox"]), &vec![], &vec![]);
    assert_eq!(cat.search_collections(&f, &all), vec![a]);
    let f = MediaFilter::from_terms(&strings(&["-forest"]), &vec![], &vec![]);
    assert_eq!(cat.search_collections(&f, &all), vec![a]);
    let f = MediaFilter::from_terms(&vec![], &vec![], &vec![]);
    assert_eq!(cat.search_collections(&f, &all), vec![b, a]);
    let f = MediaFilter::from_terms(&vec![], &strings(&["JANE"]), &vec![]);
    assert_eq!(cat.search_collections(&f, &all), vec![a]);
    let mut texts = cat.collection_tag_texts(a);
    texts.sort();
    assert_eq!(texts, strings(&["fox"]));
    match cat.reconcile_collection_tags(9, None) {
        Err(AppError::NotFound(_)) => {}
        other => panic!("unexpected {:?}", other),
    }
}

#[test]
fn similar_to_an_item() {
    let mut cat = Catalog::new();
    let a = add(&mut cat, "a", Some(0));
    let b = add(&mut cat, "b", Some(1));
    let c = add(&mut cat, "c", None);
    let all = Pagination { per_page: None, last: None };
    let rows = cat.similar_to_media(a, None, &all).unwrap();
    let ids: Vec<usize> = rows.iter().map(|r| r.id).collect();
    assert_eq!(ids, vec![a, b]);
    match cat.similar_to_media(c, None, &all) {
        Err(e @ AppError::BadRequest(_)) => assert_eq!(e.status_code(), 400),
        other => panic!("unexpected {:?}", other.map(|v| v.len())),
    }
    match cat.similar_to_media(9, None, &all) {
        Err(AppError::NotFound(_)) => {}
        other => panic!("unexpected {:?}", other.map(|v| v.len())),
    }
}
