use kopi_registry::candidates::{CandidateSource, VersionEntry};
use kopi_registry::registry::{settle_versions, sources, SettleError, Source};

fn entries(n: usize) -> Vec<VersionEntry> {
    (0..n)
        .map(|i| VersionEntry { version: format!("1.{i}"), path: format!("/{i}"), sha: None })
        .collect()
}

#[test]
fn sources_sorted_by_dir_name() {
    let s = sources();
    let dirs: Vec<&str> = s.iter().map(|(_, src)| src.dir_name()).collect();
    assert_eq!(dirs, vec!["gradle", "hadoop", "jmeter", "kotlin", "maven", "tomcat"]);
    let labels: Vec<&str> = s.iter().map(|(l, _)| *l).collect();
    assert_eq!(labels, vec!["Gradle", "Hadoop", "JMeter", "Kotlin", "Maven", "Tomcat"]);
}

#[test]
fn source_delegates() {
    assert_eq!(Source::Tomcat.minimum_versions(), 300);
    assert_eq!(Source::Jmeter.display(), "JMeter");
    assert!(Source::Kotlin.mirrors().get("official").is_some());
}

#[test]
fn settle_fresh_versions() {
    let (v, kept) = settle_versions(Some(entries(3)), entries(5), 2).unwrap();
    assert_eq!((v.len(), kept), (3, false));
}

#[test]
fn settle_falls_back_to_previous() {
    let (v, kept) = settle_versions(None, entries(5), 2).unwrap();
    assert_eq!((v.len(), kept), (5, true));
}

#[test]
fn settle_errors() {
    assert_eq!(settle_versions(None, vec![], 0).unwrap_err(), SettleError::FetchFailed);
    assert_eq!(
        settle_versions(Some(entries(1)), vec![], 20).unwrap_err(),
        SettleError::TooFew { count: 1, minimum: 20 }
    );
    assert_eq!(
        settle_versions(None, entries(2), 20).unwrap_err(),
        SettleError::TooFew { count: 2, minimum: 20 }
    );
}

#[test]
fn sources_labels_names_and_floors() {
    let s = sources();
    assert_eq!(s.len(), 6);
    for (label, src) in &s {
        assert_eq!(*label, src.display());
        assert_eq!(src.dir_name(), src.display().to_lowercase());
        assert!(src.mirrors().get("official").is_some());
        assert!(src.minimum_versions() >= 1);
    }
    for w in s.windows(2) {
        assert!(w[0].1.dir_name() < w[1].1.dir_name());
    }
}
