use tstring::json::{JsonProfile, JsonValueNode};
use tstring::parse_cache::{
    parse_json_template_cached, parse_toml_template_cached, template_cache_key, CacheKey,
    ParseCache,
};
use tstring::syntax::{TemplateInput, TemplateSegment};
use tstring::toml_backend::TomlProfile;

fn cache_key(parts: &[&str]) -> CacheKey {
    (
        "default".to_owned(),
        parts.iter().map(|part| (*part).to_owned()).collect(),
    )
}

#[test]
fn parse_cache_evicts_oldest_entry_when_capacity_is_reached() {
    let mut cache = ParseCache::new(2);
    let first = cache
        .get_or_try_insert_with(&cache_key(&["a"]), || Ok::<_, ()>(1))
        .unwrap();
    let second = cache
        .get_or_try_insert_with(&cache_key(&["b"]), || Ok::<_, ()>(2))
        .unwrap();
    assert_eq!((*first, *second), (1, 2));

    let cached_first = cache.get(&cache_key(&["a"])).unwrap();
    assert_eq!(*cached_first, 1);

    let third = cache
        .get_or_try_insert_with(&cache_key(&["c"]), || Ok::<_, ()>(3))
        .unwrap();
    assert_eq!(*third, 3);
    assert!(cache.get(&cache_key(&["b"])).is_none());
    assert!(cache.get(&cache_key(&["a"])).is_some());
    assert!(cache.get(&cache_key(&["c"])).is_some());
}

#[test]
fn parse_cache_only_stores_successful_parses() {
    let mut cache = ParseCache::new(2);
    let err = cache
        .get_or_try_insert_with(&cache_key(&["bad"]), || Err::<usize, _>("boom"))
        .expect_err("expected cache builder error");
    assert_eq!(err, "boom");
    assert_eq!(cache.len(), 0);

    let value = cache
        .get_or_try_insert_with(&cache_key(&["good"]), || Ok::<_, &str>(7usize))
        .unwrap();
    assert_eq!(*value, 7);
    assert_eq!(cache.len(), 1);
}

#[test]
fn cached_values_are_returned_without_building_again() {
    let mut cache = ParseCache::new(4);
    let first = cache
        .get_or_try_insert_with(&cache_key(&["x"]), || Ok::<_, ()>(10))
        .unwrap();
    let again = cache
        .get_or_try_insert_with(&cache_key(&["x"]), || Ok::<_, ()>(99))
        .unwrap();
    assert_eq!((*first, *again), (10, 10));
    let failing = cache.get_or_try_insert_with(&cache_key(&["x"]), || Err::<i32, _>("unused"));
    assert_eq!(failing.map(|v| *v), Ok(10));
    assert_eq!(cache.len(), 1);
}

#[test]
fn keys_differ_by_profile_and_by_every_part() {
    let mut cache = ParseCache::new(8);
    let one = ("1.0".to_owned(), vec!["a".to_owned(), "b".to_owned()]);
    let other_profile = ("1.1".to_owned(), vec!["a".to_owned(), "b".to_owned()]);
    let other_part = ("1.0".to_owned(), vec!["a".to_owned(), "c".to_owned()]);
    let shorter = ("1.0".to_owned(), vec!["a".to_owned()]);
    cache.get_or_try_insert_with(&one, || Ok::<_, ()>(1)).unwrap();
    assert!(cache.get(&other_profile).is_none());
    assert!(cache.get(&other_part).is_none());
    assert!(cache.get(&shorter).is_none());
    assert_eq!(cache.get(&one.clone()).map(|v| *v), Some(1));
}

#[test]
fn capacity_bounds_the_entries() {
    let mut cache = ParseCache::new(3);
    for n in 0..10 {
        let key = cache_key(&[&n.to_string()]);
        cache.get_or_try_insert_with(&key, || Ok::<_, ()>(n)).unwrap();
        assert!(cache.len() <= 3);
    }
    assert_eq!(cache.len(), 3);
    assert!(cache.get(&cache_key(&["6"])).is_none());
    for n in 7..10 {
        assert_eq!(cache.get(&cache_key(&[&n.to_string()])).map(|v| *v), Some(n));
    }
}

fn text(source: &str) -> TemplateInput {
    TemplateInput::from_segments(vec![TemplateSegment::StaticText(source.to_owned())])
}

#[test]
fn template_cache_key_pairs_profile_and_strings() {
    let key = template_cache_key("1.1", vec!["a = ".to_owned(), "\n".to_owned()]);
    assert_eq!(key, ("1.1".to_owned(), vec!["a = ".to_owned(), "\n".to_owned()]));
}

#[test]
fn cached_toml_parse_is_reused_per_profile_and_failures_are_not_stored() {
    let mut cache = ParseCache::new(4);
    let strings = vec!["a = 1".to_owned()];
    let first = parse_toml_template_cached(&mut cache, &text("a = 1"), strings.clone(), TomlProfile::V1_1)
        .expect("expected TOML parse success");
    assert_eq!(first.statements.len(), 1);
    assert_eq!(cache.len(), 1);

    // The same key gives the cached document back without parsing again.
    let again = parse_toml_template_cached(&mut cache, &text("a = ="), strings.clone(), TomlProfile::V1_1)
        .expect("expected cached document");
    assert_eq!(again.statements.len(), 1);
    assert_eq!(cache.len(), 1);

    // Another profile is another key.
    let error = parse_toml_template_cached(&mut cache, &text("a = ="), strings, TomlProfile::V1_0)
        .expect_err("expected TOML parse failure");
    assert_eq!(error.kind, tstring::syntax::ErrorKind::Parse);
    assert_eq!(cache.len(), 1);
}

#[test]
fn cached_json_parse_stores_the_document() {
    let mut cache = ParseCache::new(1);
    let strings = vec!["[1, 2]".to_owned()];
    let document = parse_json_template_cached(&mut cache, &text("[1, 2]"), strings.clone(), JsonProfile::Rfc8259)
        .expect("expected JSON parse success");
    assert!(matches!(document.value, JsonValueNode::Array(_)));
    let cached = parse_json_template_cached(&mut cache, &text("{"), strings, JsonProfile::Rfc8259)
        .expect("expected cached document");
    assert!(matches!(cached.value, JsonValueNode::Array(_)));
    let error = parse_json_template_cached(&mut cache, &text("{"), vec!["{".to_owned()], JsonProfile::Rfc8259)
        .expect_err("expected JSON parse failure");
    assert_eq!(error.kind, tstring::syntax::ErrorKind::Parse);
    assert_eq!(cache.len(), 1);
}
