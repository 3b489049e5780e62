use dragonhorde::tagset::lowercase_all;
use dragonhorde::text::{chars_of, join_text, split_text, string_of, urlencode};

#[test]
fn split_follows_str_split() {
    assert_eq!(split_text("A/B/C", '/'), vec!["A", "B", "C"]);
    assert_eq!(split_text("", '/'), vec![""]);
    assert_eq!(split_text("a/", '/'), vec!["a", ""]);
    assert_eq!(split_text("/a", '/'), vec!["", "a"]);
}

#[test]
fn join_undoes_split() {
    let parts = vec!["Artists".to_string(), "Jane".to_string(), "2024".to_string()];
    assert_eq!(join_text(&parts, '/'), "Artists/Jane/2024");
    assert_eq!(split_text(&join_text(&parts, '/'), '/'), parts);
    assert_eq!(join_text(&vec![], '/'), "");
}

#[test]
fn characters_round_trip() {
    let cs = chars_of("héllo");
    assert_eq!(cs, vec!['h', 'é', 'l', 'l', 'o']);
    assert_eq!(string_of(&cs, 0), "héllo");
    assert_eq!(string_of(&cs, 2), "llo");
}

#[test]
fn lowercase_folds_case() {
    let v = vec!["J.DOE".to_string(), "".to_string(), "Fox".to_string()];
    assert_eq!(lowercase_all(&v), vec!["j.doe".to_string(), "".to_string(), "fox".to_string()]);
}

#[test]
fn urlencode_escapes() {
    assert_eq!(urlencode("a b&c"), "a+b%26c");
    assert_eq!(urlencode("fox_tail-1.*"), "fox_tail-1.*");
    assert_eq!(urlencode("é"), "%C3%A9");
    assert_eq!(urlencode(""), "");
}
