use kopi_registry::candidates::VersionEntry;
use kopi_registry::output::{
    candidate_detail, candidate_file_name, changed_given, index_candidates, index_entry_for, json_changed,
    latest_version, needs_write, timestamp_given, updated_timestamp, IndexEntry,
};

fn entry(version: &str) -> VersionEntry {
    VersionEntry { version: version.to_string(), path: "/p".to_string(), sha: None }
}

fn index_entry(name: &str) -> IndexEntry {
    IndexEntry { name: name.to_string(), latest: "1".to_string(), detail: "d".to_string() }
}

#[test]
fn latest_and_detail() {
    assert_eq!(latest_version(&vec![entry("3.9.10"), entry("3.9.9")]), "3.9.10");
    assert_eq!(latest_version(&vec![]), "unknown");
    assert_eq!(candidate_file_name("maven"), "maven.json");
    assert_eq!(candidate_detail("maven"), "candidates/maven.json");
    let e = index_entry_for("Maven", "maven", &vec![entry("3.9.10")]);
    assert_eq!((e.name.as_str(), e.latest.as_str(), e.detail.as_str()), ("Maven", "3.9.10", "candidates/maven.json"));
}

#[test]
fn index_candidates_sorted_later_wins() {
    let m = index_candidates(vec![
        ("tomcat".to_string(), index_entry("T")),
        ("gradle".to_string(), index_entry("G1")),
        ("gradle".to_string(), index_entry("G2")),
    ]);
    let names: Vec<(&str, &str)> = m.entries().iter().map(|(k, v)| (k.as_str(), v.name.as_str())).collect();
    assert_eq!(names, vec![("gradle", "G2"), ("tomcat", "T")]);
}

#[test]
fn json_changed_compares_values() {
    assert!(!json_changed("{\"a\": 1, \"b\": [1, 2]}", "{\n  \"b\": [1,2],\n  \"a\": 1\n}"));
    assert!(json_changed("{\"a\": 1}", "{\"a\": 2}"));
    assert!(json_changed("not json", "not json "));
    assert!(!json_changed("not json", "not json"));
    assert!(json_changed("{}", "not json"));
}

#[test]
fn needs_write_cases() {
    assert!(needs_write(None, "{}"));
    assert!(!needs_write(Some("{ }"), "{}"));
    assert!(needs_write(Some("[]"), "{}"));
}

#[test]
fn updated_timestamp_kept_when_nothing_changed() {
    let index = "{\"version\": 1, \"updated\": \"2026-01-01T00:00:00Z\", \"candidates\": {}}";
    assert_eq!(updated_timestamp(Some(index), false, "NOW".to_string()), "2026-01-01T00:00:00Z");
    assert_eq!(updated_timestamp(Some(index), true, "NOW".to_string()), "NOW");
    assert_eq!(updated_timestamp(None, false, "NOW".to_string()), "NOW");
    assert_eq!(updated_timestamp(Some("{\"updated\": 5}"), false, "NOW".to_string()), "NOW");
    assert_eq!(updated_timestamp(Some("garbage"), false, "NOW".to_string()), "NOW");
}

#[test]
fn timestamp_given_values() {
    assert_eq!(timestamp_given(Some("T0".to_string()), "NOW".to_string()), "T0");
    assert_eq!(timestamp_given(None, "NOW".to_string()), "NOW");
}

#[test]
fn changed_given_values() {
    assert!(!changed_given("a", "b", Some(true)));
    assert!(changed_given("a", "a", Some(false)));
    assert!(changed_given("a", "b", None));
    assert!(!changed_given("a", "a", None));
}
