use kopi_registry::candidates::apache_dist::{hrefs, prefixed_dirs, version_dirs};
use kopi_registry::candidates::html;
use kopi_registry::candidates::maven_metadata::{parse_versions, versions_from_metadata};

fn strings(items: &[&str]) -> Vec<String> {
    items.iter().map(|s| s.to_string()).collect()
}

const LISTING: &str = r#"<html><body>
<a href="?C=N;O=D">Name</a>
<a href="hadoop-3.4.1/">hadoop-3.4.1/</a>
<a href="hadoop-3.3.6//">hadoop-3.3.6/</a>
<a href="hadoop-2.10.2/">hadoop-2.10.2/</a>
<a href="hadoop-thirdparty/">hadoop-thirdparty/</a>
<a href="KEYS">KEYS</a>
<a href="hadoop-3.4.1/">again</a>
<a href="broken
</body></html>"#;

#[test]
fn hrefs_in_order() {
    assert_eq!(
        hrefs(LISTING),
        strings(&["?C=N;O=D", "hadoop-3.4.1/", "hadoop-3.3.6//", "hadoop-2.10.2/", "hadoop-thirdparty/", "KEYS", "hadoop-3.4.1/"])
    );
    assert_eq!(hrefs("no links"), Vec::<String>::new());
    assert_eq!(hrefs(r#"href="""#), strings(&[""]));
}

#[test]
fn prefixed_dirs_strip_prefix_and_slashes() {
    assert_eq!(
        prefixed_dirs(LISTING, "hadoop-"),
        strings(&["3.4.1", "3.3.6", "2.10.2", "thirdparty", "3.4.1"])
    );
}

#[test]
fn version_dirs_filter_sort_dedup() {
    let dirs = prefixed_dirs(LISTING, "hadoop-");
    assert_eq!(version_dirs(dirs), strings(&["3.4.1", "3.3.6", "2.10.2"]));
}

const METADATA: &str = "<metadata>\n  <versioning>\n    <latest>3.9.10</latest>\n    <versions>\n      <version>3.0.4</version>\n      <version> 3.9.10 </version>\n      <version></version>\n      <version>4.0.0-rc-1</version>\n      <version>3.0.4</version>\n    </versions>\n  </versioning>\n</metadata>";

#[test]
fn parse_versions_in_document_order() {
    assert_eq!(parse_versions(METADATA), strings(&["3.0.4", "3.9.10", "4.0.0-rc-1", "3.0.4"]));
}

#[test]
fn parse_versions_without_list() {
    assert_eq!(parse_versions("<metadata/>"), Vec::<String>::new());
    assert_eq!(parse_versions("<versions><version>1.0</version>"), Vec::<String>::new());
    assert_eq!(parse_versions("<versions><version>1.0</version><version>2.0</versions>"), strings(&["1.0"]));
}

#[test]
fn versions_from_metadata_sorted() {
    assert_eq!(versions_from_metadata(METADATA), strings(&["3.9.10", "3.0.4", "4.0.0-rc-1"]));
}

#[test]
fn html_version_like() {
    assert!(html::is_version_like("10.1.30"));
    assert!(html::is_version_like("9.0.0-1"));
    assert!(!html::is_version_like("9.0.0-M1"));
    assert!(!html::is_version_like("9"));
    assert!(!html::is_version_like(""));
}

#[test]
fn html_sort_keys_and_order() {
    assert_eq!(html::sort_key("1.2_3"), (1, vec![1]));
    assert_eq!(html::sort_key("1.2-3"), (0, vec![1, 2]));
    let mut v = strings(&["1.2", "1.10", "2.0-1", "1.9"]);
    html::sort_versions(&mut v);
    assert_eq!(v, strings(&["1.10", "1.9", "1.2", "2.0-1"]));
}

#[test]
fn parse_hrefs_reads_anchor_attributes() {
    let page = r#"<html><body><a href="a/">A</a><p href="no">x</p><a name="n">N</a><A HREF="b.txt">B</A></body></html>"#;
    assert_eq!(html::parse_hrefs(page), strings(&["a/", "b.txt"]));
}
