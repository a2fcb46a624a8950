use kopi_registry::candidates::apache::{
    apache_mirrors, assemble_entries, checksum_step, parse_sha, plan_checksums, ChecksumStep,
};
use kopi_registry::candidates::gradle::{gradle_entries, gradle_release_path, Gradle, GradleRelease};
use kopi_registry::candidates::hadoop::{hadoop_release_path, Hadoop};
use kopi_registry::candidates::jmeter::{jmeter_release_path, Jmeter};
use kopi_registry::candidates::kotlin::{compiler_path, kotlin_entries, release_version, usable_token, Kotlin};
use kopi_registry::candidates::maven::{maven_checksum_step, maven_release_path, plan_maven_checksums, Maven};
use kopi_registry::candidates::tomcat::{tomcat_major_url, tomcat_majors, tomcat_release_path, Tomcat};
use kopi_registry::candidates::{
    checksum_algorithm, checksum_from_response, classify_status, major_of, mirrors, next_http_step,
    official_base, order_entries_by_version, sha_url, trim_end_char_exec, CandidateSource, HttpOutcome,
    HttpStep, MirrorMap, ShaInfo, StatusClass, VersionEntry,
};

fn strings(items: &[&str]) -> Vec<String> {
    items.iter().map(|s| s.to_string()).collect()
}

fn pairs(m: &MirrorMap) -> Vec<(String, String)> {
    m.entries().clone()
}

fn sha(v: &str, t: &str) -> ShaInfo {
    ShaInfo { value: v.to_string(), sha_type: t.to_string() }
}

fn entry(version: &str, path: &str, s: Option<ShaInfo>) -> VersionEntry {
    VersionEntry { version: version.to_string(), path: path.to_string(), sha: s }
}

fn hex(n: usize, c: char) -> String {
    std::iter::repeat(c).take(n).collect()
}

#[test]
fn mirrors_sorted_by_name_later_pair_wins() {
    let m = mirrors(&[("official", "a"), ("huawei", "b"), ("official", "c")]);
    assert_eq!(pairs(&m), vec![("huawei".to_string(), "b".to_string()), ("official".to_string(), "c".to_string())]);
    assert_eq!(m.get("official").map(String::as_str), Some("c"));
    assert_eq!(m.get("tuna"), None);
    assert_eq!(m.len(), 2);
}

#[test]
fn apache_mirrors_of_prefix() {
    let m = apache_mirrors("/maven");
    assert_eq!(
        pairs(&m),
        vec![
            ("huawei".to_string(), "https://repo.huaweicloud.com/apache/maven".to_string()),
            ("official".to_string(), "https://archive.apache.org/dist/maven".to_string()),
            ("tencent".to_string(), "https://mirrors.cloud.tencent.com/apache/maven".to_string()),
            ("tuna".to_string(), "https://mirrors.tuna.tsinghua.edu.cn/apache/maven".to_string()),
            ("ustc".to_string(), "https://mirrors.ustc.edu.cn/apache/maven".to_string()),
        ]
    );
}

#[test]
fn every_source_has_an_official_mirror() {
    assert!(Gradle.mirrors().get("official").is_some());
    assert!(Hadoop.mirrors().get("official").is_some());
    assert!(Jmeter.mirrors().get("official").is_some());
    assert!(Kotlin.mirrors().get("official").is_some());
    assert!(Maven.mirrors().get("official").is_some());
    assert!(Tomcat.mirrors().get("official").is_some());
}

#[test]
fn download_url_is_mirror_base_plus_path() {
    let m = Maven.mirrors();
    let path = maven_release_path("3.9.10");
    let url = format!("{}{}", m.get("huawei").unwrap(), path);
    assert_eq!(
        url,
        "https://repo.huaweicloud.com/apache/maven/maven-3/3.9.10/binaries/apache-maven-3.9.10-bin.tar.gz"
    );
}

#[test]
fn source_names_and_floors() {
    assert_eq!((Gradle.dir_name(), Gradle.display(), Gradle.minimum_versions()), ("gradle", "Gradle", 100));
    assert_eq!((Hadoop.dir_name(), Hadoop.display(), Hadoop.minimum_versions()), ("hadoop", "Hadoop", 100));
    assert_eq!((Jmeter.dir_name(), Jmeter.display(), Jmeter.minimum_versions()), ("jmeter", "JMeter", 20));
    assert_eq!((Kotlin.dir_name(), Kotlin.display(), Kotlin.minimum_versions()), ("kotlin", "Kotlin", 20));
    assert_eq!((Maven.dir_name(), Maven.display(), Maven.minimum_versions()), ("maven", "Maven", 20));
    assert_eq!((Tomcat.dir_name(), Tomcat.display(), Tomcat.minimum_versions()), ("tomcat", "Tomcat", 300));
}

#[test]
fn parse_sha_picks_longest_hex_token() {
    let a = hex(64, 'a');
    let b = hex(128, 'B');
    let body = format!("{a}  apache-maven.tar.gz\n{b} other\nshort 1234");
    let s = parse_sha(&body, "sha512").unwrap();
    assert_eq!(s.value, b);
    assert_eq!(s.sha_type, "sha512");
}

#[test]
fn parse_sha_last_of_equal_length_wins() {
    let a = hex(64, '1');
    let b = hex(64, 'f');
    let s = parse_sha(&format!("{a}\t{b}"), "sha256").unwrap();
    assert_eq!(s.value, b);
}

#[test]
fn parse_sha_rejects_short_or_non_hex() {
    assert!(parse_sha(&hex(63, 'a'), "sha256").is_none());
    assert!(parse_sha(&format!("{}g", hex(64, 'a')), "sha256").is_none());
    assert!(parse_sha("", "sha256").is_none());
}

#[test]
fn checksum_step_reuses_previous() {
    let prev = vec![entry("1.0", "/hadoop/common/hadoop-1.0/hadoop-1.0.tar.gz", Some(sha("x", "sha512")))];
    match checksum_step(&prev, "1.0", "/hadoop-1.0/hadoop-1.0.tar.gz", 20) {
        ChecksumStep::Reuse(s) => assert_eq!(s.value, "x"),
        _ => panic!("expected reuse"),
    }
    match checksum_step(&prev, "1.0", "/hadoop-1.0/hadoop-1.0.tar.gz", 12) {
        ChecksumStep::Reuse(s) => assert_eq!(s.value, "x"),
        _ => panic!("expected reuse"),
    }
}

#[test]
fn checksum_step_old_versions_without_checksum_are_omitted() {
    let prev = vec![entry("1.0", "/q", None), entry("9.9", "/p", Some(sha("z", "sha1")))];
    assert!(matches!(checksum_step(&prev, "1.0", "/q", 12), ChecksumStep::Omit));
    assert!(matches!(checksum_step(&prev, "1.0", "/q", 11), ChecksumStep::Fetch));
    assert!(matches!(checksum_step(&prev, "2.0", "/r", 12), ChecksumStep::Fetch));
    assert!(matches!(checksum_step(&[].to_vec(), "1.0", "/q", 50), ChecksumStep::Fetch));
}

#[test]
fn checksum_step_recent_versions_are_refreshed() {
    let prev = vec![entry("1.0", "/q", Some(sha("old", "sha512")))];
    for index in 0..12 {
        assert!(matches!(checksum_step(&prev, "1.0", "/q", index), ChecksumStep::Fetch));
    }
    assert!(matches!(checksum_step(&prev, "1.0", "/q", 12), ChecksumStep::Reuse(_)));
}

#[test]
fn checksum_step_first_match_without_sha_is_not_reused() {
    let prev = vec![entry("1.0", "/q", None), entry("1.0", "/q", Some(sha("y", "sha1")))];
    assert!(matches!(checksum_step(&prev, "1.0", "/q", 3), ChecksumStep::Fetch));
    assert!(matches!(checksum_step(&prev, "1.0", "/q", 12), ChecksumStep::Omit));
}

#[test]
fn plan_and_assemble_entries() {
    let mut versions: Vec<String> = (0..12).map(|i| format!("3.{}", 20 - i)).collect();
    versions.extend(strings(&["2.0", "1.0"]));
    let paths: Vec<String> = versions.iter().map(|v| format!("/v{v}")).collect();
    let prev = vec![entry("3.20", "/v3.20", Some(sha("s320", "sha512"))), entry("2.0", "/v2.0", Some(sha("s2", "sha512")))];
    let steps = plan_checksums(&prev, &versions, &paths);
    assert!(matches!(steps[0], ChecksumStep::Fetch));
    assert!(matches!(steps[12], ChecksumStep::Reuse(_)));
    assert!(matches!(steps[13], ChecksumStep::Fetch));
    let mut fetched: Vec<Option<ShaInfo>> = vec![None; 14];
    fetched[0] = Some(sha("new320", "sha512"));
    fetched[13] = Some(sha("s1", "sha256"));
    let entries = assemble_entries(&versions, &paths, &steps, &fetched);
    assert_eq!(entries[0].sha.as_ref().unwrap().value, "new320");
    assert!(entries[1].sha.is_none());
    assert_eq!(entries[12].sha.as_ref().unwrap().value, "s2");
    assert_eq!(entries[13].sha.as_ref().unwrap().value, "s1");
    assert_eq!(entries[13].path, "/v1.0");
}

#[test]
fn maven_steps() {
    let path = maven_release_path("3.9.9");
    assert_eq!(path, "/maven-3/3.9.9/binaries/apache-maven-3.9.9-bin.tar.gz");
    let full = format!("/maven{path}");
    let prev = vec![entry("3.9.9", &full, Some(sha("", "sha512")))];
    assert!(matches!(maven_checksum_step(&prev, "3.9.9", &path, 0), ChecksumStep::Fetch));
    assert!(matches!(maven_checksum_step(&prev, "3.9.9", &path, 12), ChecksumStep::Reuse(_)));
    let prev2 = vec![entry("3.9.9", &path, Some(sha("abc", "sha512"))), entry("3.9.7", "/y", None)];
    assert!(matches!(maven_checksum_step(&prev2, "3.9.9", &path, 0), ChecksumStep::Fetch));
    assert!(matches!(maven_checksum_step(&prev2, "3.9.9", &path, 13), ChecksumStep::Reuse(_)));
    assert!(matches!(maven_checksum_step(&prev2, "3.9.8", "/x", 13), ChecksumStep::Fetch));
    assert!(matches!(maven_checksum_step(&prev2, "3.9.7", "/maven/y", 0), ChecksumStep::Fetch));
    assert!(matches!(maven_checksum_step(&prev2, "3.9.7", "/y", 13), ChecksumStep::Omit));
    let (paths, steps) = plan_maven_checksums(&prev2, &strings(&["3.9.9", "4.0.0-rc-1"]));
    assert_eq!(paths[1], "/maven-4/4.0.0-rc-1/binaries/apache-maven-4.0.0-rc-1-bin.tar.gz");
    assert!(matches!(steps[0], ChecksumStep::Fetch));
    assert!(matches!(steps[1], ChecksumStep::Fetch));
}

#[test]
fn sha_urls() {
    assert_eq!(sha_url("https://a.org/dist//", "/x.tar.gz", "sha512"), "https://a.org/dist/x.tar.gz.sha512");
    assert_eq!(checksum_algorithm(0), Some("sha512"));
    assert_eq!(checksum_algorithm(1), Some("sha256"));
    assert_eq!(checksum_algorithm(2), Some("sha1"));
    assert_eq!(checksum_algorithm(3), None);
    assert_eq!(checksum_algorithm(7), None);
    assert_eq!(trim_end_char_exec("a//", '/'), "a");
}

#[test]
fn checksum_from_response_values() {
    let h = hex(64, 'c');
    assert_eq!(checksum_from_response(Some(h.clone()), "sha256").unwrap().value, h);
    assert!(checksum_from_response(None, "sha256").is_none());
    assert!(checksum_from_response(Some("not found".to_string()), "sha256").is_none());
}

#[test]
fn official_base_values() {
    assert_eq!(official_base(&Gradle.mirrors()), "https://services.gradle.org/distributions");
    assert_eq!(official_base(&mirrors(&[("huawei", "x")])), "");
}

#[test]
fn http_policy() {
    assert_eq!(classify_status(200), StatusClass::Success);
    assert_eq!(classify_status(299), StatusClass::Success);
    assert_eq!(classify_status(404), StatusClass::ClientError);
    assert_eq!(classify_status(503), StatusClass::Other);
    assert_eq!(next_http_step(1, HttpOutcome::Status(200)), HttpStep::ReadBody);
    assert_eq!(next_http_step(1, HttpOutcome::Status(404)), HttpStep::Fail);
    assert_eq!(next_http_step(1, HttpOutcome::Status(500)), HttpStep::RetryAfterMillis(250));
    assert_eq!(next_http_step(2, HttpOutcome::TransportError), HttpStep::RetryAfterMillis(500));
    assert_eq!(next_http_step(3, HttpOutcome::TransportError), HttpStep::GiveUp);
    assert_eq!(next_http_step(3, HttpOutcome::Status(301)), HttpStep::GiveUp);
}

#[test]
fn gradle_paths_and_entries() {
    assert_eq!(
        gradle_release_path("8.0", "https://services.gradle.org/distributions/gradle-8.0-bin.zip"),
        "/gradle-8.0-bin.zip"
    );
    assert_eq!(gradle_release_path("8.0", "nowhere"), "/gradle-8.0-bin.zip");
    assert_eq!(gradle_release_path("8.1", "x/"), "/");
    let releases = vec![
        GradleRelease { version: "7.6".into(), download_url: "https://h/gradle-7.6-bin.zip".into(), checksum: Some("c76".into()) },
        GradleRelease { version: "8.0-rc-1".into(), download_url: "https://h/gradle-8.0-rc-1-bin.zip".into(), checksum: None },
        GradleRelease { version: "8.0".into(), download_url: "https://h/gradle-8.0-bin.zip".into(), checksum: Some("c80".into()) },
        GradleRelease { version: "7.6".into(), download_url: "https://h/other.zip".into(), checksum: None },
    ];
    let e = gradle_entries(&releases);
    let versions: Vec<&str> = e.iter().map(|x| x.version.as_str()).collect();
    assert_eq!(versions, vec!["8.0", "7.6", "8.0-rc-1"]);
    assert_eq!(e[1].path, "/gradle-7.6-bin.zip");
    assert_eq!(e[1].sha.as_ref().unwrap().sha_type, "sha256");
    assert_eq!(e[0].sha.as_ref().unwrap().value, "c80");
    assert!(e[2].sha.is_none());
}

#[test]
fn kotlin_versions_and_entries() {
    assert_eq!(release_version("vv2.1.0"), "2.1.0");
    assert_eq!(release_version("2.1.0"), "2.1.0");
    assert_eq!(compiler_path("2.1.0"), "/v2.1.0/kotlin-compiler-2.1.0.zip");
    let e = kotlin_entries(&strings(&["v2.0.0", "v2.1.0-Beta1", "v2.1.0", "2.1.0"]));
    let versions: Vec<&str> = e.iter().map(|x| x.version.as_str()).collect();
    assert_eq!(versions, vec!["2.1.0", "2.0.0", "2.1.0-Beta1"]);
    assert_eq!(e[0].path, "/v2.1.0/kotlin-compiler-2.1.0.zip");
}

#[test]
fn order_entries_keeps_first_per_version() {
    let es = vec![entry("1.0", "/a", None), entry("2.0", "/b", None), entry("1.0", "/c", None)];
    let r = order_entries_by_version(&es);
    let got: Vec<(&str, &str)> = r.iter().map(|x| (x.version.as_str(), x.path.as_str())).collect();
    assert_eq!(got, vec![("2.0", "/b"), ("1.0", "/a")]);
}

#[test]
fn apache_paths() {
    assert_eq!(hadoop_release_path("3.4.1"), "/hadoop-3.4.1/hadoop-3.4.1.tar.gz");
    assert_eq!(jmeter_release_path("5.6.3"), "/apache-jmeter-5.6.3.tgz");
    assert_eq!(tomcat_release_path("10.1.30"), "/tomcat-10/v10.1.30/bin/apache-tomcat-10.1.30.tar.gz");
    assert_eq!(major_of("11"), "11");
}

#[test]
fn tomcat_majors_and_urls() {
    assert_eq!(tomcat_majors(&strings(&["10", "9", "connectors", "11", "+8", "7", "4294967296"])), vec![7, 8, 9, 10, 11]);
    assert_eq!(tomcat_major_url(10), "https://archive.apache.org/dist/tomcat/tomcat-10");
    assert_eq!(tomcat_major_url(0), "https://archive.apache.org/dist/tomcat/tomcat-0");
}

#[test]
fn rerun_on_own_output_reuses_every_recorded_checksum() {
    let versions: Vec<String> = (0..15).map(|i| format!("1.{}", 20 - i)).collect();
    let paths: Vec<String> = versions.iter().map(|v| format!("/a/{v}.tgz")).collect();
    let steps = plan_checksums(&Vec::new(), &versions, &paths);
    assert!(steps.iter().all(|s| matches!(s, ChecksumStep::Fetch)));
    let mut fetched: Vec<Option<ShaInfo>> = (0..15).map(|i| Some(sha(&format!("h{i}"), "sha512"))).collect();
    fetched[13] = None;
    let first = assemble_entries(&versions, &paths, &steps, &fetched);
    let again = plan_checksums(&first, &versions, &paths);
    for (i, step) in again.iter().enumerate() {
        match (i, step) {
            (0..=11, ChecksumStep::Fetch) => {}
            (13, ChecksumStep::Omit) => {}
            (12 | 14, ChecksumStep::Reuse(s)) => assert_eq!(s.value, format!("h{i}")),
            _ => panic!("unexpected step at {i}"),
        }
    }
}

#[test]
fn new_versions_are_fetched_at_every_position() {
    let versions: Vec<String> = (0..15).map(|i| format!("1.{}", 20 - i)).collect();
    let paths: Vec<String> = versions.iter().map(|v| format!("/x/{v}")).collect();
    let prev = vec![entry("0.1", "/x/0.1", None)];
    let steps = plan_checksums(&prev, &versions, &paths);
    assert!(steps.iter().all(|s| matches!(s, ChecksumStep::Fetch)));
}

#[test]
fn usable_token_values() {
    assert_eq!(usable_token(Some("abc".to_string())), Some("abc".to_string()));
    assert_eq!(usable_token(Some(" abc \n".to_string())), Some(" abc \n".to_string()));
    assert_eq!(usable_token(Some(" \t\n".to_string())), None);
    assert_eq!(usable_token(Some(String::new())), None);
    assert_eq!(usable_token(None), None);
}
