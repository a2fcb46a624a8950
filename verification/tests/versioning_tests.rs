use kopi_registry::versioning::{is_version_char, is_version_like, sort_dedup, sort_key, sort_versions};

fn strings(items: &[&str]) -> Vec<String> {
    items.iter().map(|s| s.to_string()).collect()
}

#[test]
fn sort_key_plain_release() {
    assert_eq!(sort_key("3.9.10"), (1, vec![3, 9, 10]));
}

#[test]
fn sort_key_prerelease() {
    assert_eq!(sort_key("4.0.0-rc-1"), (0, vec![4, 0, 0]));
    assert_eq!(sort_key("1.2_3"), (0, vec![1, 2]));
    assert_eq!(sort_key("1.2+build"), (0, vec![1, 2]));
}

#[test]
fn sort_key_skips_non_numbers() {
    assert_eq!(sort_key("1.x.3"), (1, vec![1, 3]));
    assert_eq!(sort_key(""), (1, vec![]));
    assert_eq!(sort_key("99999999999.1"), (1, vec![1]));
}

#[test]
fn sort_versions_stable_releases_first_then_newest() {
    let mut v = strings(&["3.9.1", "4.0.0-rc-1", "3.10.0", "4.0.0", "3.9.10", "4.0.0-alpha-2"]);
    sort_versions(&mut v);
    assert_eq!(
        v,
        strings(&["4.0.0", "3.10.0", "3.9.10", "3.9.1", "4.0.0-rc-1", "4.0.0-alpha-2"])
    );
}

#[test]
fn sort_versions_keeps_equal_keys_in_order() {
    let mut v = strings(&["1.0-b", "1.0-a", "1.0-c"]);
    sort_versions(&mut v);
    assert_eq!(v, strings(&["1.0-b", "1.0-a", "1.0-c"]));
}

#[test]
fn sort_dedup_removes_repeats() {
    let v = sort_dedup(strings(&["1.0", "2.0", "1.0", "2.0", "1.5"]));
    assert_eq!(v, strings(&["2.0", "1.5", "1.0"]));
}

#[test]
fn sort_dedup_is_idempotent() {
    let once = sort_dedup(strings(&["8.5.1", "10.1.0", "9.0.0-M1", "9.0.0", "8.5.1"]));
    let twice = sort_dedup(once.clone());
    assert_eq!(once, twice);
}

#[test]
fn version_like_values() {
    assert!(is_version_like("3.9.10"));
    assert!(is_version_like("1.0-beta_2+x"));
    assert!(!is_version_like(""));
    assert!(!is_version_like("v1.0"));
    assert!(!is_version_like("10"));
    assert!(!is_version_like("1.0/"));
    assert!(is_version_char('Z'));
    assert!(!is_version_char('/'));
}
