use dragonhorde::catalog::Catalog;
use dragonhorde::complete::{starts_with, text_after_colon};
use dragonhorde::models::TagType;
use dragonhorde::tagset::DataMap;

fn strings(xs: &[&str]) -> Vec<String> {
    xs.iter().map(|x| x.to_string()).collect()
}

fn sample() -> Catalog {
    let mut cat = Catalog::new();
    let a = cat.create_media("a".to_string(), None, "u".to_string(), None, None, 0).unwrap();
    let b = cat.create_media("b".to_string(), None, "u".to_string(), None, None, 1).unwrap();
    cat.reconcile_media_tags(a, Some(DataMap(vec![("species".to_string(), strings(&["fox", "ferret"]))]))).unwrap();
    cat.reconcile_media_tags(b, Some(DataMap(vec![("species".to_string(), strings(&["fox"]))]))).unwrap();
    cat.reconcile_media_creators(a, Some(strings(&["Fran"]))).unwrap();
    cat.create_collection("Foxes", None, None, Some(vec![a, b])).unwrap();
    cat
}

#[test]
fn most_used_first() {
    let cat = sample();
    let r = cat.completions(&"f".to_string(), TagType::All);
    let got: Vec<(String, u64)> = r.iter().map(|c| (c.text.clone(), c.count)).collect();
    assert_eq!(
        got,
        vec![("fox".to_string(), 2), ("ferret".to_string(), 1)]
    );
    let r = cat.completions(&"F".to_string(), TagType::All);
    let got: Vec<(String, u64)> = r.iter().map(|c| (c.text.clone(), c.count)).collect();
    assert_eq!(got, vec![("Foxes".to_string(), 2), ("Fran".to_string(), 1)]);
}

#[test]
fn kinds_and_negation() {
    let cat = sample();
    let r = cat.completions(&"species:-fo".to_string(), TagType::Tag);
    assert_eq!(r.len(), 1);
    assert_eq!(r[0].text, "-fox");
    assert_eq!(r[0].group.as_deref(), Some("species"));
    assert_eq!(r[0].kind, TagType::Tag);
    let r = cat.completions(&"Fr".to_string(), TagType::Artist);
    assert_eq!(r.len(), 1);
    assert_eq!(r[0].text, "Fran");
    assert_eq!(r[0].kind, TagType::Artist);
    assert!(cat.completions(&"Fr".to_string(), TagType::Collection).is_empty());
}

#[test]
fn prefix_helpers() {
    assert!(starts_with(&"foxes".to_string(), &vec!['f', 'o']));
    assert!(!starts_with(&"fo".to_string(), &vec!['f', 'o', 'x']));
    assert!(starts_with(&"x".to_string(), &vec![]));
    assert_eq!(text_after_colon(&"a:b:c".to_string()), vec!['b', ':', 'c']);
    assert_eq!(text_after_colon(&"abc".to_string()), vec!['a', 'b', 'c']);
    assert_eq!(text_after_colon(&":".to_string()), Vec::<char>::new());
}
