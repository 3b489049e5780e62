use dragonhorde::error::AppError;
use dragonhorde::models::{
    extension_to_mime, DataMapI64I64, DataMapI64String, DataVector, DataVectorI32, DataVectorI64, DataVectorI64String,
    HashQuery, QueryType, SearchQuery, SearchQueryJson, TagType,
};

fn strings(xs: &[&str]) -> Vec<String> {
    xs.iter().map(|x| x.to_string()).collect()
}

#[test]
fn mime_types_by_extension() {
    assert_eq!(extension_to_mime("png"), "image/png");
    assert_eq!(extension_to_mime("jpg"), "image/jpeg");
    assert_eq!(extension_to_mime("jpeg"), "image/jpeg");
    assert_eq!(extension_to_mime("svg"), "image/svg+xml");
    assert_eq!(extension_to_mime("apng"), "image/apng");
    assert_eq!(extension_to_mime("avif"), "image/avif");
    assert_eq!(extension_to_mime("gif"), "image/gif");
    assert_eq!(extension_to_mime("webp"), "image/webp");
    assert_eq!(extension_to_mime("PNG"), "application/octet-stream");
    assert_eq!(extension_to_mime(""), "application/octet-stream");
}

#[test]
fn json_query_compiles_to_filter() {
    let q = SearchQueryJson {
        tags: Some(strings(&["fox", "-forest"])),
        creators: None,
        collections: Some(strings(&["-A/B"])),
        description: None,
        query_type: QueryType::default(),
    };
    let f = q.to_filter();
    assert_eq!(f.tags_required, strings(&["fox"]));
    assert_eq!(f.tags_forbidden, strings(&["forest"]));
    assert!(f.creators_required.is_empty() && f.creators_forbidden.is_empty());
    assert!(f.collections_required.is_empty());
    assert_eq!(f.collections_forbidden, strings(&["A/B"]));
    assert!(q.wants_media() && q.wants_collections());
    let q2 = SearchQueryJson { query_type: QueryType::Media, ..q };
    assert!(q2.wants_media() && !q2.wants_collections());
}

#[test]
fn plain_query_compiles_to_filter() {
    let q = SearchQuery { tags: strings(&["-x", "y"]), creators: strings(&["Jane"]) };
    let f = q.to_filter();
    assert_eq!(f.tags_required, strings(&["y"]));
    assert_eq!(f.tags_forbidden, strings(&["x"]));
    assert_eq!(f.creators_required, strings(&["Jane"]));
    assert!(f.collections_required.is_empty());
}

#[test]
fn hash_query_values() {
    let q = HashQuery { hash: -1, max_distance: Some(-4) };
    assert_eq!(q.reference(), u64::MAX);
    assert_eq!(q.max(), Some(0));
    assert!(!q.admits_any());
    assert!(HashQuery { hash: 0, max_distance: Some(0) }.admits_any());
    assert!(HashQuery { hash: 0, max_distance: None }.admits_any());
    let q = HashQuery { hash: 5, max_distance: None };
    assert_eq!(q.reference(), 5);
    assert_eq!(q.max(), None);
}

#[test]
fn defaults_are_empty() {
    assert!(DataVector::default().0.is_empty());
    assert!(DataVectorI32::default().0.is_empty());
    assert!(DataVectorI64::default().0.is_empty());
    assert!(DataVectorI64String::default().0.is_empty());
    assert!(DataMapI64String::default().0.is_empty());
    assert!(DataMapI64I64::default().0.is_empty());
    assert_eq!(QueryType::default(), QueryType::All);
    assert_eq!(TagType::default(), TagType::All);
}

#[test]
fn error_kinds() {
    assert_eq!(AppError::NotFound("x".to_string()).status_code(), 404);
    assert_eq!(AppError::Internal("x".to_string()).status_code(), 500);
    assert_eq!(AppError::Forbidden("x".to_string()).status_code(), 403);
    assert_eq!(AppError::PayloadTooLarge("x".to_string()).status_code(), 413);
    assert_eq!(AppError::UnsupportedMediaType("x".to_string()).status_code(), 415);
    assert_eq!(AppError::Exists("dup".to_string()).message(), "dup");
}
