use malstrom_lib::overlay::{Namespace, Overlay};

#[test]
fn overlay_missing_file_reads_as_empty() {
    // A missing file is read as an empty overlay.
    let data: Overlay<String> = Overlay::new();
    assert!(data.namespaces().is_empty());
    assert_eq!(data.get("trackCategoryOverrides", "track-1"), None);
}

#[test]
fn overlay_round_trips_a_value_through_set_get_remove() {
    let mut data: Overlay<String> = Overlay::new();
    data.set("trackCategoryOverrides".to_string(), "track-1".to_string(), "Drums".to_string());
    assert_eq!(
        data.get("trackCategoryOverrides", "track-1"),
        Some(&"Drums".to_string())
    );

    data.remove("trackCategoryOverrides", "track-1");

    // Emptied namespace is pruned, not left as a dangling {}.
    assert!(data.namespaces().is_empty());
    assert_eq!(data.get("trackCategoryOverrides", "track-1"), None);
}

#[test]
fn set_replaces_a_value_and_keeps_the_others() {
    let mut data: Overlay<String> = Overlay::new();
    data.set("ns".to_string(), "a".to_string(), "1".to_string());
    data.set("ns".to_string(), "b".to_string(), "2".to_string());
    data.set("ns".to_string(), "a".to_string(), "3".to_string());
    data.set("other".to_string(), "a".to_string(), "4".to_string());
    assert_eq!(data.get("ns", "a"), Some(&"3".to_string()));
    assert_eq!(data.get("ns", "b"), Some(&"2".to_string()));
    assert_eq!(data.get("other", "a"), Some(&"4".to_string()));
    assert_eq!(data.namespaces().len(), 2);

    data.remove("ns", "a");
    assert_eq!(data.get("ns", "a"), None);
    assert_eq!(data.get("ns", "b"), Some(&"2".to_string()));
    assert_eq!(data.namespaces().len(), 2);
}

#[test]
fn non_object_namespace_is_kept_and_not_settable() {
    let mut data: Overlay<String> = Overlay::new();
    data.put_other("flag".to_string(), "true".to_string());
    assert!(!data.is_settable("flag"));
    assert!(data.is_settable("absent"));
    assert_eq!(data.get("flag", "x"), None);
    data.remove("flag", "x");
    assert_eq!(data.namespaces().len(), 1);
    assert!(matches!(data.namespaces()[0].1, Namespace::Other(_)));
}

#[test]
fn removing_a_missing_key_prunes_an_empty_namespace() {
    let mut data: Overlay<String> = Overlay::new();
    data.put_empty("ns".to_string());
    assert_eq!(data.namespaces().len(), 1);
    data.remove("ns", "nothing");
    assert!(data.namespaces().is_empty());
}
