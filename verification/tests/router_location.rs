use lgui::router::location::{percent_decode, Location};

#[test]
fn location_location_keeps_complete_navigation_state() {
    let location = Location::new("community//articles/42/?tab=comments#reply");
    assert_eq!(location.path(), "/community/articles/42");
    assert_eq!(location.query(), Some("tab=comments"));
    assert_eq!(location.fragment(), Some("reply"));
    assert_eq!(location.href(), "/community/articles/42?tab=comments#reply");
}

#[test]
fn location_location_resolves_absolute_url_style_and_fragment_targets() {
    let location = Location::new("/community/articles/42?tab=comments");
    assert_eq!(
        location.resolve("../events?page=2").href(),
        "/community/events?page=2"
    );
    assert_eq!(
        location.resolve("#reply").href(),
        "/community/articles/42?tab=comments#reply"
    );
    assert_eq!(location.resolve("/store").href(), "/store");
}

#[test]
fn location_percent_decode_rejects_invalid_or_non_utf8_values() {
    assert_eq!(percent_decode("hello%20world"), Some("hello world".into()));
    assert_eq!(percent_decode("%GG"), None);
    assert_eq!(percent_decode("%FF"), None);
}

#[test]
fn location_dynamic_path_segments_round_trip_without_changing_hierarchy() {
    let value = "文章/42 + Rust";
    let encoded = Location::encode_path_segment(value);
    assert_eq!(encoded, "%E6%96%87%E7%AB%A0%2F42%20%2B%20Rust");
    assert_eq!(percent_decode(&encoded).as_deref(), Some(value));
}

#[test]
fn location_test_location_keeps_complete_navigation_state() {
    let location = Location::new("community//articles/42/?tab=comments#reply");
    assert_eq!(location.path(), "/community/articles/42");
    assert_eq!(location.query(), Some("tab=comments"));
    assert_eq!(location.fragment(), Some("reply"));
    assert_eq!(location.href(), "/community/articles/42?tab=comments#reply");
}

#[test]
fn location_test_location_resolves_absolute_url_style_and_fragment_targets() {
    let location = Location::new("/community/articles/42?tab=comments");
    assert_eq!(
        location.resolve("../events?page=2").href(),
        "/community/events?page=2"
    );
    assert_eq!(
        location.resolve("#reply").href(),
        "/community/articles/42?tab=comments#reply"
    );
    assert_eq!(location.resolve("/store").href(), "/store");
}

#[test]
fn location_test_percent_decode_rejects_invalid_or_non_utf8_values() {
    assert_eq!(percent_decode("hello%20world"), Some("hello world".into()));
    assert_eq!(percent_decode("%GG"), None);
    assert_eq!(percent_decode("%FF"), None);
}

#[test]
fn location_test_dynamic_path_segments_round_trip_without_changing_hierarchy() {
    let value = "文章/42 + Rust";
    let encoded = Location::encode_path_segment(value);
    assert_eq!(encoded, "%E6%96%87%E7%AB%A0%2F42%20%2B%20Rust");
    assert_eq!(percent_decode(&encoded).as_deref(), Some(value));
}

#[test]
fn location_query_and_fragment_builders_replace_parts() {
    let location = Location::new("/store").with_query("page=2").with_fragment("top");
    assert_eq!(location.href(), "/store?page=2#top");
    let cleared = Location::new("/store?x=1").with_query("");
    assert_eq!(cleared.query(), None);
}

#[test]
fn location_segments_and_equality() {
    let location = Location::new("/a/b/../c");
    assert_eq!(location.path(), "/a/c");
    let segments: Vec<String> = location
        .segments()
        .into_iter()
        .map(|segment| segment.into_iter().collect())
        .collect();
    assert_eq!(segments, vec!["a".to_string(), "c".to_string()]);
    assert!(location.same_as(&Location::new("a/c")));
    assert!(!location.same_as(&Location::new("/a/c?x")));
}

#[test]
fn encoded_segment_decodes_back_for_every_byte_class() {
    for value in ["plain", "with space", "slash/inside", "%percent", "ümlaut", ""] {
        let encoded = Location::encode_path_segment(value);
        assert!(!encoded.contains('/'));
        assert_eq!(percent_decode(&encoded).as_deref(), Some(value));
    }
}

#[test]
fn new_location_is_normal_and_survives_its_href() {
    for target in ["a/./b/../c//d/?x=1#top", "../..", "?#", "/#frag?still", "x?q#", "/p/?"] {
        let location = Location::new(target);
        assert!(location.path().starts_with('/'));
        assert!(location.path() == "/" || location.path()[1..].split('/').all(|s| !s.is_empty() && s != "." && s != ".."));
        assert_ne!(location.query(), Some(""));
        assert_ne!(location.fragment(), Some(""));
        assert!(Location::new(&location.href()).same_as(&location));
    }
    let location = Location::new("a/./b/../c//d/?x=1#top");
    assert_eq!(location.href(), "/a/c/d?x=1#top");
}

#[test]
fn query_and_fragment_targets_keep_what_they_do_not_name() {
    let base = Location::new("/shop/items/7?sort=price#reviews");
    let queried = base.resolve("?sort=name#x");
    assert_eq!(queried.path(), "/shop/items/7");
    assert_eq!(queried.query(), Some("sort=name"));
    let fragment = base.resolve("#specs");
    assert_eq!(fragment.path(), "/shop/items/7");
    assert_eq!(fragment.query(), Some("sort=price"));
    assert_eq!(fragment.fragment(), Some("specs"));
    let bare = base.resolve("#");
    assert_eq!(bare.fragment(), None);
    assert_eq!(bare.query(), Some("sort=price"));
}
