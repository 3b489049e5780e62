use dragonhorde::catalog::Catalog;
use dragonhorde::error::AppError;
use dragonhorde::paging::Pagination;
use dragonhorde::search::MediaFilter;
use dragonhorde::tagset::DataMap;

fn s(x: &str) -> String {
    x.to_string()
}

fn strings(xs: &[&str]) -> Vec<String> {
    xs.iter().map(|x| x.to_string()).collect()
}

fn add_media(cat: &mut Catalog, sha: &str, hash: Option<u64>, now: i64) -> usize {
    cat.create_media(s(sha), hash, format!("file://{}", sha), None, None, now).unwrap()
}

fn all() -> Pagination {
    Pagination { per_page: None, last: None }
}

fn tag_filter(required: &[&str], forbidden: &[&str]) -> MediaFilter {
    MediaFilter {
        tags_required: strings(required),
        tags_forbidden: strings(forbidden),
        creators_required: vec![],
        creators_forbidden: vec![],
        collections_required: vec![],
        collections_forbidden: vec![],
    }
}

fn fox_catalog() -> (Catalog, usize) {
    let mut cat = Catalog::new();
    let m = add_media(&mut cat, "aa", None, 10);
    let groups = DataMap(vec![
        (s("species"), strings(&["fox"])),
        (s("general"), strings(&["forest"])),
    ]);
    cat.reconcile_media_tags(m, Some(groups)).unwrap();
    (cat, m)
}

#[test]
fn fox_forest_scenario() {
    let (cat, m) = fox_catalog();
    assert_eq!(cat.search(&tag_filter(&["fox"], &[]), &all()), vec![m]);
    assert_eq!(cat.search(&tag_filter(&[], &["forest"]), &all()), Vec::<usize>::new());
    assert_eq!(cat.search(&tag_filter(&["fox"], &["forest"]), &all()), Vec::<usize>::new());
}

#[test]
fn tag_terms_compare_in_lowercase() {
    let (cat, m) = fox_catalog();
    assert_eq!(cat.search(&tag_filter(&["FOX"], &[]), &all()), vec![m]);
    let texts = cat.media_tag_texts(m);
    assert!(texts.contains(&s("fox")));
    assert!(texts.contains(&s("forest")));
    assert_eq!(texts.len(), 2);
}

#[test]
fn tag_search_over_several_items() {
    let mut cat = Catalog::new();
    let a = add_media(&mut cat, "a", None, 1);
    let b = add_media(&mut cat, "b", None, 2);
    let c = add_media(&mut cat, "c", None, 3);
    cat.reconcile_media_tags(a, Some(DataMap(vec![(s("g"), strings(&["x", "y"]))]))).unwrap();
    cat.reconcile_media_tags(b, Some(DataMap(vec![(s("g"), strings(&["x"]))]))).unwrap();
    cat.reconcile_media_tags(c, Some(DataMap(vec![(s("g"), strings(&["y"]))]))).unwrap();
    assert_eq!(cat.search(&tag_filter(&["x"], &[]), &all()), vec![b, a]);
    assert_eq!(cat.search(&tag_filter(&["x"], &["y"]), &all()), vec![b]);
    assert_eq!(cat.search(&tag_filter(&[], &["x"]), &all()), vec![c]);
    assert_eq!(cat.search(&tag_filter(&[], &[]), &all()), vec![c, b, a]);
    assert_eq!(cat.search(&tag_filter(&["x", "y"], &[]), &all()), vec![a]);
}

#[test]
fn alias_scenario() {
    let mut cat = Catalog::new();
    let m1 = add_media(&mut cat, "m1", None, 1);
    let m2 = add_media(&mut cat, "m2", None, 2);
    cat.reconcile_media_creators(m1, Some(strings(&["Jane Doe"]))).unwrap();
    let jane = cat.find_creator("jane doe").unwrap();
    cat.add_alias(jane, "j.doe").unwrap();
    let creators_before = cat.creators.len();
    cat.reconcile_media_creators(m2, Some(strings(&["J.DOE"]))).unwrap();
    assert_eq!(cat.creators.len(), creators_before);
    assert_eq!(cat.media_creator_names(m2), strings(&["Jane Doe"]));
    assert!(cat.media_creators.contains(&(m2, jane)));
}

#[test]
fn reconcile_creators_twice_changes_nothing() {
    let mut cat = Catalog::new();
    let m = add_media(&mut cat, "m", None, 1);
    let desired = strings(&["Alice", "Bob", "alice"]);
    cat.reconcile_media_creators(m, Some(desired.clone())).unwrap();
    let rows_once = cat.media_creators.clone();
    let creators_once = cat.creators.clone();
    cat.reconcile_media_creators(m, Some(desired)).unwrap();
    assert_eq!(cat.media_creators, rows_once);
    assert_eq!(cat.creators, creators_once);
    assert_eq!(cat.creators.len(), 2);
    assert_eq!(rows_once.len(), 2);
}

#[test]
fn reconcile_creators_subset_removes_the_rest() {
    let mut cat = Catalog::new();
    let m = add_media(&mut cat, "m", None, 1);
    let other = add_media(&mut cat, "o", None, 2);
    cat.reconcile_media_creators(other, Some(strings(&["Carol"]))).unwrap();
    cat.reconcile_media_creators(m, Some(strings(&["Alice", "Bob", "Carol"]))).unwrap();
    cat.reconcile_media_creators(m, Some(strings(&["bob"]))).unwrap();
    assert_eq!(cat.media_creator_names(m), strings(&["Bob"]));
    assert_eq!(cat.media_creator_names(other), strings(&["Carol"]));
    cat.reconcile_media_creators(m, Some(vec![])).unwrap();
    assert!(cat.media_creator_names(m).is_empty());
}

#[test]
fn absent_creators_leave_relations_alone() {
    let mut cat = Catalog::new();
    let m = add_media(&mut cat, "m", None, 1);
    cat.reconcile_media_creators(m, Some(strings(&["Alice"]))).unwrap();
    cat.reconcile_media_creators(m, None).unwrap();
    assert_eq!(cat.media_creator_names(m), strings(&["Alice"]));
}

#[test]
fn unknown_media_is_not_found() {
    let mut cat = Catalog::new();
    match cat.reconcile_media_creators(3, Some(strings(&["A"]))) {
        Err(AppError::NotFound(_)) => {}
        other => panic!("unexpected {:?}", other),
    }
    match cat.reconcile_media_tags(0, None) {
        Err(AppError::NotFound(_)) => {}
        other => panic!("unexpected {:?}", other),
    }
    match cat.reconcile_sources(0, None) {
        Err(AppError::NotFound(_)) => {}
        other => panic!("unexpected {:?}", other),
    }
}

#[test]
fn duplicate_content_is_refused() {
    let mut cat = Catalog::new();
    add_media(&mut cat, "same", None, 1);
    match cat.create_media(s("same"), None, s("x"), None, None, 2) {
        Err(e @ AppError::Exists(_)) => assert_eq!(e.status_code(), 409),
        other => panic!("unexpected {:?}", other),
    }
    assert_eq!(cat.media.len(), 1);
}

#[test]
fn content_is_addressed_by_sha256() {
    let mut cat = Catalog::new();
    let m = cat.create_media_from_bytes(b"abc", None, s("f"), None, None, 0).unwrap();
    assert_eq!(
        cat.media[m].sha256,
        "ba7816bf8f01cfea414140de5dae2223b00361a396177a9cb410ff61f20015ad"
    );
    assert!(cat.create_media_from_bytes(b"abc", None, s("g"), None, None, 1).is_err());
}

#[test]
fn upload_times_never_go_down() {
    let mut cat = Catalog::new();
    let a = add_media(&mut cat, "a", None, 100);
    let b = add_media(&mut cat, "b", None, 50);
    let c = add_media(&mut cat, "c", None, 200);
    assert_eq!(cat.media[a].uploaded, 100);
    assert_eq!(cat.media[b].uploaded, 100);
    assert_eq!(cat.media[c].uploaded, 200);
}

#[test]
fn alias_of_another_creator_conflicts() {
    let mut cat = Catalog::new();
    let a = cat.ensure_creator("Alice");
    let b = cat.ensure_creator("Bob");
    match cat.add_alias(b, "ALICE") {
        Err(AppError::Exists(_)) => {}
        other => panic!("unexpected {:?}", other),
    }
    assert!(cat.add_alias(a, "alice").is_ok());
    match cat.add_alias(9, "x") {
        Err(AppError::NotFound(_)) => {}
        other => panic!("unexpected {:?}", other),
    }
    assert_eq!(cat.aliases.len(), 2);
}

#[test]
fn reconcile_tags_replaces_and_is_idempotent() {
    let (mut cat, m) = fox_catalog();
    let groups = DataMap(vec![(s("Species"), strings(&["Fox", "Wolf"]))]);
    cat.reconcile_media_tags(m, Some(DataMap(vec![(s("Species"), strings(&["Fox", "Wolf"]))]))).unwrap();
    let rows = cat.media_tags.clone();
    cat.reconcile_media_tags(m, Some(groups)).unwrap();
    assert_eq!(cat.media_tags, rows);
    let mut texts = cat.media_tag_texts(m);
    texts.sort();
    assert_eq!(texts, strings(&["fox", "wolf"]));
    assert_eq!(cat.tags.iter().filter(|t| t.tag == "fox").count(), 1);
}

#[test]
fn reconcile_sources_keeps_exactly_the_desired() {
    let mut cat = Catalog::new();
    let m = add_media(&mut cat, "m", None, 1);
    cat.reconcile_sources(m, Some(strings(&["https://a", "https://b", "https://a"]))).unwrap();
    let mut got = cat.media_sources(m);
    got.sort();
    assert_eq!(got, strings(&["https://a", "https://b"]));
    cat.reconcile_sources(m, Some(strings(&["https://b", "https://c"]))).unwrap();
    let mut got = cat.media_sources(m);
    got.sort();
    assert_eq!(got, strings(&["https://b", "https://c"]));
    assert_eq!(cat.sources.len(), 2);
}

#[test]
fn collection_membership_appends_after_the_last() {
    let mut cat = Catalog::new();
    let a = add_media(&mut cat, "a", None, 1);
    let b = add_media(&mut cat, "b", None, 2);
    let col = cat.create_collection("Comics/Issue", None, None, None).unwrap();
    cat.reconcile_media_collections(a, Some(strings(&["Comics/Issue"]))).unwrap();
    cat.reconcile_media_collections(b, Some(strings(&["Comics/Issue"]))).unwrap();
    let ord_of = |cat: &Catalog, m: usize| cat.memberships.iter().find(|x| x.media == m && x.collection == col).unwrap().ord;
    assert_eq!(ord_of(&cat, a), 1);
    assert_eq!(ord_of(&cat, b), 2);
    cat.reconcile_media_collections(a, Some(strings(&["Comics/Issue"]))).unwrap();
    assert_eq!(ord_of(&cat, a), 1);
    assert_eq!(cat.memberships.len(), 2);
}

#[test]
fn unknown_collection_path_is_bad_request() {
    let mut cat = Catalog::new();
    let a = add_media(&mut cat, "a", None, 1);
    cat.create_collection("A/B", None, None, None).unwrap();
    cat.reconcile_media_collections(a, Some(strings(&["A/B"]))).unwrap();
    match cat.reconcile_media_collections(a, Some(strings(&["A", "A/C"]))) {
        Err(e @ AppError::BadRequest(_)) => assert_eq!(e.status_code(), 400),
        other => panic!("unexpected {:?}", other),
    }
    assert_eq!(cat.memberships.len(), 1);
    cat.reconcile_media_collections(a, Some(vec![])).unwrap();
    assert!(cat.memberships.is_empty());
}

#[test]
fn collection_with_ordered_media_and_creators() {
    let mut cat = Catalog::new();
    let a = add_media(&mut cat, "a", None, 1);
    let b = add_media(&mut cat, "b", None, 2);
    let col = cat
        .create_collection("Series/One", Some(s("first")), Some(strings(&["Jane"])), Some(vec![b, a, b]))
        .unwrap();
    let mut rows: Vec<(usize, i64)> = cat.memberships.iter().filter(|x| x.collection == col).map(|x| (x.media, x.ord)).collect();
    rows.sort();
    assert_eq!(rows, vec![(a, 1), (b, 0)]);
    let jane = cat.find_creator("JANE").unwrap();
    assert_eq!(cat.collection_creators, vec![(col, jane)]);
    assert_eq!(cat.collections.materialize(col), "Series/One");
    match cat.create_collection("Series/Two", None, None, Some(vec![7])) {
        Err(AppError::NotFound(_)) => {}
        other => panic!("unexpected {:?}", other),
    }
    assert!(cat.create_collection("Series/One", None, None, None).is_err());
}

#[test]
fn search_by_collection_and_creator() {
    let mut cat = Catalog::new();
    let a = add_media(&mut cat, "a", None, 1);
    let b = add_media(&mut cat, "b", None, 2);
    cat.create_collection("A/B/C", None, None, None).unwrap();
    cat.reconcile_media_collections(a, Some(strings(&["A/B/C"]))).unwrap();
    cat.reconcile_media_creators(b, Some(strings(&["Jane Doe"]))).unwrap();
    let f = MediaFilter::from_terms(&vec![], &vec![], &strings(&["A/B/C"]));
    assert_eq!(cat.search(&f, &all()), vec![a]);
    let f = MediaFilter::from_terms(&vec![], &vec![], &strings(&["-A/B/C"]));
    assert_eq!(cat.search(&f, &all()), vec![b]);
    let f = MediaFilter::from_terms(&vec![], &vec![], &strings(&["A/B"]));
    assert_eq!(cat.search(&f, &all()), vec![a]);
    let f = MediaFilter::from_terms(&vec![], &vec![], &strings(&["A/C"]));
    assert_eq!(cat.search(&f, &all()), Vec::<usize>::new());
    let f = MediaFilter::from_terms(&vec![], &vec![], &strings(&["B/C"]));
    assert_eq!(cat.search(&f, &all()), Vec::<usize>::new());
    let f = MediaFilter::from_terms(&vec![], &strings(&["jane doe"]), &vec![]);
    assert_eq!(cat.search(&f, &all()), vec![b]);
    let f = MediaFilter::from_terms(&vec![], &strings(&["-Jane Doe"]), &vec![]);
    assert_eq!(cat.search(&f, &all()), vec![a]);
    let f = MediaFilter::from_terms(&vec![], &strings(&["Nobody"]), &vec![]);
    assert_eq!(cat.search(&f, &all()), Vec::<usize>::new());
}

#[test]
fn pages_concatenate() {
    let mut cat = Catalog::new();
    for i in 0..7 {
        add_media(&mut cat, &format!("m{}", i), None, i);
    }
    let f = tag_filter(&[], &[]);
    let whole = cat.search(&f, &all());
    assert_eq!(whole, vec![6, 5, 4, 3, 2, 1, 0]);
    let first = cat.search(&f, &Pagination { per_page: Some(3), last: Some(0) });
    let second = cat.search(&f, &Pagination { per_page: Some(3), last: Some(3) });
    assert!(first.len() <= 3 && second.len() <= 3);
    let mut joined = first.clone();
    joined.extend(second);
    assert_eq!(joined, whole[..6].to_vec());
    let third = cat.search(&f, &Pagination { per_page: Some(3), last: Some(6) });
    assert_eq!(third, vec![0]);
    let beyond = cat.search(&f, &Pagination { per_page: Some(3), last: Some(60) });
    assert!(beyond.is_empty());
}

#[test]
fn default_page_holds_fifty() {
    let mut cat = Catalog::new();
    for i in 0..60 {
        add_media(&mut cat, &format!("m{}", i), None, i);
    }
    let r = cat.search(&tag_filter(&[], &[]), &all());
    assert_eq!(r.len(), 50);
    assert_eq!(r[0], 59);
}

#[test]
fn similarity_orders_by_distance() {
    let mut cat = Catalog::new();
    let far = add_media(&mut cat, "far", Some(0b1111), 1);
    let none = add_media(&mut cat, "none", None, 2);
    let near = add_media(&mut cat, "near", Some(0b0001), 3);
    let same = add_media(&mut cat, "same", Some(0), 4);
    let near2 = add_media(&mut cat, "near2", Some(0b0100), 5);
    let r = cat.search_by_similarity(0, Some(3), &all());
    assert_eq!(r, vec![(same, 0), (near2, 1), (near, 1)]);
    let r = cat.search_by_similarity(0, Some(10), &all());
    assert_eq!(r, vec![(same, 0), (near2, 1), (near, 1), (far, 4)]);
    assert!(!r.iter().any(|x| x.0 == none));
    let r = cat.search_by_similarity(0, None, &all());
    assert_eq!(r.len(), 3);
    for w in r.windows(2) {
        assert!(w[0].1 <= w[1].1);
    }
}

#[test]
fn rows_gather_relations() {
    let (mut cat, m) = fox_catalog();
    cat.reconcile_media_creators(m, Some(strings(&["Jane Doe"]))).unwrap();
    cat.reconcile_sources(m, Some(strings(&["https://x"]))).unwrap();
    let col = cat.create_collection("A", None, None, Some(vec![m])).unwrap();
    let row = cat.media_row(m);
    assert_eq!(row.id, m);
    assert_eq!(row.sha256, "aa");
    assert_eq!(row.creators, strings(&["Jane Doe"]));
    assert_eq!(row.sources, strings(&["https://x"]));
    assert_eq!(row.collections, vec![(col, s("A"))]);
    let mut tags: Vec<(String, String)> = row.tags.iter().map(|t| (t.group.clone(), t.tag.clone())).collect();
    tags.sort();
    assert_eq!(tags, vec![(s("general"), s("forest")), (s("species"), s("fox"))]);
    let rows = cat.search_rows(&tag_filter(&["fox"], &[]), &all());
    assert_eq!(rows.len(), 1);
    assert_eq!(rows[0].id, m);
    assert_eq!(rows[0].distance, None);
}

#[test]
fn similar_rows_carry_distance() {
    let mut cat = Catalog::new();
    let a = add_media(&mut cat, "a", Some(3), 1);
    let rows = cat.similar_rows(1, Some(2), &all());
    assert_eq!(rows.len(), 1);
    assert_eq!(rows[0].id, a);
    assert_eq!(rows[0].distance, Some(1));
}

#[test]
fn collection_creators_reconcile() {
    let mut cat = Catalog::new();
    let col = cat.create_collection("A", None, Some(strings(&["X", "Y"])), None).unwrap();
    cat.reconcile_collection_creators(col, Some(strings(&["y"]))).unwrap();
    let y = cat.find_creator("Y").unwrap();
    assert_eq!(cat.collection_creators, vec![(col, y)]);
    match cat.reconcile_collection_creators(5, None) {
        Err(AppError::NotFound(_)) => {}
        other => panic!("unexpected {:?}", other),
    }
}

#[test]
fn set_collection_media_renumbers() {
    let mut cat = Catalog::new();
    let a = add_media(&mut cat, "a", None, 1);
    let b = add_media(&mut cat, "b", None, 2);
    let c = add_media(&mut cat, "c", None, 3);
    let col = cat.create_collection("L", None, None, Some(vec![a, b])).unwrap();
    cat.set_collection_media(col, Some(vec![c, a])).unwrap();
    let mut rows: Vec<(usize, i64)> = cat.memberships.iter().map(|x| (x.media, x.ord)).collect();
    rows.sort();
    assert_eq!(rows, vec![(a, 1), (c, 0)]);
}
