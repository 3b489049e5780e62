use dragonhorde::tagset::{
    compare_text, delete_value, groups_to_tuple, split_terms, tag_group_add, tag_group_delete, tags_match, DataMap,
};

fn strings(xs: &[&str]) -> Vec<String> {
    xs.iter().map(|x| x.to_string()).collect()
}

#[test]
fn groups_flatten_sorted_and_deduplicated() {
    let groups = DataMap(vec![
        ("Species".to_string(), strings(&["Wolf", "Fox"])),
        ("General".to_string(), strings(&["forest", "FOX"])),
    ]);
    let pairs = groups_to_tuple(groups);
    let tags: Vec<&str> = pairs.iter().map(|p| p.1.as_str()).collect();
    assert_eq!(tags, vec!["forest", "fox", "wolf"]);
    assert_eq!(pairs[2], ("species".to_string(), "wolf".to_string()));
    assert_eq!(pairs[0], ("general".to_string(), "forest".to_string()));
    assert!(groups_to_tuple(DataMap(vec![])).is_empty());
}

#[test]
fn leading_dash_excludes() {
    let (inc, exc) = split_terms(&strings(&["fox", "-forest", "--x", "a-b", "-"]));
    assert_eq!(inc, strings(&["fox", "a-b"]));
    assert_eq!(exc, strings(&["forest", "-x", ""]));
}

#[test]
fn text_order() {
    assert_eq!(compare_text(&"a".to_string(), &"b".to_string()), -1);
    assert_eq!(compare_text(&"b".to_string(), &"a".to_string()), 1);
    assert_eq!(compare_text(&"ab".to_string(), &"ab".to_string()), 0);
    assert_eq!(compare_text(&"ab".to_string(), &"abc".to_string()), -1);
    assert_eq!(compare_text(&"".to_string(), &"a".to_string()), -1);
}

#[test]
fn matcher_checks_both_lists() {
    let tags = strings(&["fox", "forest"]);
    assert!(tags_match(&tags, &strings(&["fox"]), &vec![]));
    assert!(!tags_match(&tags, &vec![], &strings(&["forest"])));
    assert!(!tags_match(&tags, &strings(&["fox"]), &strings(&["forest"])));
    assert!(tags_match(&tags, &vec![], &vec![]));
    assert!(!tags_match(&tags, &strings(&["wolf"]), &vec![]));
    assert!(tags_match(&tags, &strings(&["fox", "forest"]), &strings(&["wolf"])));
}

#[test]
fn delete_first_value() {
    let mut v = strings(&["a", "b", "a"]);
    delete_value(&mut v, &"a".to_string());
    assert_eq!(v, strings(&["b", "a"]));
    delete_value(&mut v, &"z".to_string());
    assert_eq!(v, strings(&["b", "a"]));
}

#[test]
fn groups_edit() {
    let mut m = DataMap(vec![]);
    tag_group_add(&mut m, &"fox".to_string(), &"species".to_string());
    tag_group_add(&mut m, &"wolf".to_string(), &"species".to_string());
    tag_group_add(&mut m, &"forest".to_string(), &"general".to_string());
    assert_eq!(m.0, vec![("species".to_string(), strings(&["fox", "wolf"])), ("general".to_string(), strings(&["forest"]))]);
    tag_group_delete(&mut m, &"fox".to_string(), &"species".to_string());
    tag_group_delete(&mut m, &"fox".to_string(), &"missing".to_string());
    assert_eq!(m.0, vec![("species".to_string(), strings(&["wolf"])), ("general".to_string(), strings(&["forest"]))]);
}
