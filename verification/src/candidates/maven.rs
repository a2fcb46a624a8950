//! Maven: versions from Maven Central metadata, files from the Apache archive.
use vstd::prelude::*;
use crate::candidates::{
    CandidateSource, MirrorMap, ShaView, VersionEntry, EntryView, mirrors, mirror_view, pair_views,
    entry_views, lemma_mirrors_names, major_part, major_of,
};
use crate::candidates::apache::{ChecksumStep, StepView, RECENT_CHECKSUM_WINDOW, str_equal};
use crate::sorted_map::pairs_to_map;
use crate::text::owned;

verus! {

/// The Maven Central metadata of Maven.
pub const MAVEN_METADATA: &'static str =
    "https://repo.maven.apache.org/maven2/org/apache/maven/apache-maven/maven-metadata.xml";

/// Where Maven lives under an Apache mirror.
pub const MAVEN_PATH_PREFIX: &'static str = "/maven";

/// Maven.
pub struct Maven;

/// The mirrors of Maven.
pub open spec fn maven_mirror_pairs() -> Seq<(Seq<char>, Seq<char>)> {
    seq![
        ("official"@, "https://archive.apache.org/dist/maven"@),
        ("huawei"@, "https://repo.huaweicloud.com/apache/maven"@),
        ("tencent"@, "https://mirrors.cloud.tencent.com/apache/maven"@),
        ("tuna"@, "https://mirrors.tuna.tsinghua.edu.cn/apache/maven"@),
        ("ustc"@, "https://mirrors.ustc.edu.cn/apache/maven"@),
    ]
}

impl CandidateSource for Maven {
    fn dir_name(&self) -> (r: &'static str)
        ensures
            r@ == "maven"@,
    {
        "maven"
    }

    fn display(&self) -> (r: &'static str)
        ensures
            r@ == "Maven"@,
    {
        "Maven"
    }

    fn mirrors(&self) -> (r: MirrorMap)
        ensures
            mirror_view(r) == pairs_to_map(maven_mirror_pairs()),
    {
        let entries = [
            ("official", "https://archive.apache.org/dist/maven"),
            ("huawei", "https://repo.huaweicloud.com/apache/maven"),
            ("tencent", "https://mirrors.cloud.tencent.com/apache/maven"),
            ("tuna", "https://mirrors.tuna.tsinghua.edu.cn/apache/maven"),
            ("ustc", "https://mirrors.ustc.edu.cn/apache/maven"),
        ];
        assert(pair_views(entries@) =~= maven_mirror_pairs());
        let r = mirrors(entries.as_slice());
        proof {
            lemma_mirrors_names(maven_mirror_pairs(), "official"@);
            assert(maven_mirror_pairs()[0].0 == "official"@);
        }
        r
    }

    fn minimum_versions(&self) -> (r: usize)
        ensures
            r == 20,
    {
        20
    }
}

/// The download path of a Maven version, relative to the Maven directory.
pub open spec fn maven_path(version: Seq<char>) -> Seq<char> {
    "/maven-"@ + major_part(version) + "/"@ + version + "/binaries/apache-maven-"@ + version
        + "-bin.tar.gz"@
}

/// The download path of a Maven version, relative to the Maven directory.
pub fn maven_release_path(version: &str) -> (r: String)
    ensures
        r@ == maven_path(version@),
{
    let major = major_of(version);
    let mut p = owned("/maven-");
    p.append(major.as_str());
    p.append("/");
    p.append(version);
    p.append("/binaries/apache-maven-");
    p.append(version);
    p.append("-bin.tar.gz");
    p
}

/// An earlier entry for the same Maven download: same version, and its path
/// is `path` or `path` under the Maven directory.
pub open spec fn same_maven_download(e: EntryView, version: Seq<char>, path: Seq<char>) -> bool {
    e.version == version && (e.path == path || e.path == "/maven"@ + path)
}

/// The first earlier entry, from index `i` on, for the same Maven download.
pub open spec fn first_same_maven_download(prev: Seq<EntryView>, version: Seq<char>, path: Seq<char>, i: int) -> Option<int>
    decreases prev.len() - i,
{
    if i < 0 || i >= prev.len() {
        None
    } else if same_maven_download(prev[i], version, path) {
        Some(i)
    } else {
        first_same_maven_download(prev, version, path, i + 1)
    }
}

/// The checksum of the first earlier entry for the same Maven download, if
/// that entry has one.
pub open spec fn recorded_maven_sha(prev: Seq<EntryView>, version: Seq<char>, path: Seq<char>) -> Option<ShaView> {
    match first_same_maven_download(prev, version, path, 0) {
        Some(i) => prev[i].sha,
        None => None,
    }
}

/// The checksum step of the Maven version at `index` (from the newest): the
/// newest `RECENT_CHECKSUM_WINDOW` versions are always fetched again; an
/// older version keeps the checksum an earlier run recorded for the same
/// download, stays without one when that run recorded none, and is fetched
/// when no earlier run listed it.
pub open spec fn maven_step(prev: Seq<EntryView>, version: Seq<char>, path: Seq<char>, index: int) -> StepView {
    if index < RECENT_CHECKSUM_WINDOW {
        StepView::Fetch
    } else {
        match first_same_maven_download(prev, version, path, 0) {
            Some(i) => match prev[i].sha {
                Some(s) => StepView::Reuse(s),
                None => StepView::Omit,
            },
            None => StepView::Fetch,
        }
    }
}

/// The checksum policy of Maven: without earlier data every checksum is
/// fetched; the newest `RECENT_CHECKSUM_WINDOW` versions are always
/// refreshed; an older version keeps a checksum recorded for the same
/// download; a checksum is left out only for an older version that an
/// earlier run listed without one; and a checksum is reused only for an older
/// version, from the earlier entry of the same download.
pub proof fn lemma_maven_checksum_policy(prev: Seq<EntryView>, version: Seq<char>, path: Seq<char>, index: int)
    ensures
        prev.len() == 0 ==> maven_step(prev, version, path, index) == StepView::Fetch,
        index < RECENT_CHECKSUM_WINDOW ==> maven_step(prev, version, path, index) == StepView::Fetch,
        index >= RECENT_CHECKSUM_WINDOW ==> (recorded_maven_sha(prev, version, path) matches Some(s)
            ==> maven_step(prev, version, path, index) == StepView::Reuse(s)),
        first_same_maven_download(prev, version, path, 0) is None ==> maven_step(prev, version, path, index)
            == StepView::Fetch,
        maven_step(prev, version, path, index) == StepView::Omit ==> index >= RECENT_CHECKSUM_WINDOW
            && first_same_maven_download(prev, version, path, 0) is Some && recorded_maven_sha(prev, version, path) is None,
        maven_step(prev, version, path, index) matches StepView::Reuse(s) ==> index >= RECENT_CHECKSUM_WINDOW
            && recorded_maven_sha(prev, version, path) == Some(s),
{
}

/// The checksum step of one Maven version.
pub fn maven_checksum_step(previous: &Vec<VersionEntry>, version: &str, path: &str, index: usize) -> (r: ChecksumStep)
    ensures
        r@ == maven_step(entry_views(previous@), version@, path@, index as int),
{
    if index < RECENT_CHECKSUM_WINDOW {
        return ChecksumStep::Fetch;
    }
    let ghost pv = entry_views(previous@);
    let full_path = crate::text::join2(MAVEN_PATH_PREFIX, path);
    let mut i: usize = 0;
    while i < previous.len()
        invariant
            pv == entry_views(previous@),
            full_path@ == "/maven"@ + path@,
            i <= previous@.len(),
            first_same_maven_download(pv, version@, path@, 0) == first_same_maven_download(pv, version@, path@, i as int),
            index >= RECENT_CHECKSUM_WINDOW,
        decreases previous@.len() - i,
    {
        let e = &previous[i];
        if str_equal(e.version.as_str(), version) && (str_equal(e.path.as_str(), path) || str_equal(e.path.as_str(), full_path.as_str())) {
            assert(same_maven_download(pv[i as int], version@, path@));
            return match &e.sha {
                Some(s) => ChecksumStep::Reuse(s.duplicate()),
                None => ChecksumStep::Omit,
            };
        }
        i = i + 1;
    }
    ChecksumStep::Fetch
}

/// The download paths and checksum steps of the Maven versions, newest first.
pub fn plan_maven_checksums(previous: &Vec<VersionEntry>, versions: &Vec<String>) -> (r: (Vec<String>, Vec<ChecksumStep>))
    ensures
        r.0@.len() == versions@.len(),
        r.1@.len() == versions@.len(),
        forall|k: int| 0 <= k < versions@.len() ==> (#[trigger] r.0@[k])@ == maven_path(versions@[k]@),
        forall|k: int| 0 <= k < versions@.len() ==> (#[trigger] r.1@[k])@ == maven_step(
            entry_views(previous@),
            versions@[k]@,
            maven_path(versions@[k]@),
            k,
        ),
{
    let mut paths: Vec<String> = Vec::new();
    let mut steps: Vec<ChecksumStep> = Vec::new();
    let mut k: usize = 0;
    while k < versions.len()
        invariant
            k <= versions@.len(),
            paths@.len() == k,
            steps@.len() == k,
            forall|m: int| 0 <= m < k ==> (#[trigger] paths@[m])@ == maven_path(versions@[m]@),
            forall|m: int| 0 <= m < k ==> (#[trigger] steps@[m])@ == maven_step(
                entry_views(previous@),
                versions@[m]@,
                maven_path(versions@[m]@),
                m,
            ),
        decreases versions@.len() - k,
    {
        let path = maven_release_path(versions[k].as_str());
        let step = maven_checksum_step(previous, versions[k].as_str(), path.as_str(), k);
        paths.push(path);
        steps.push(step);
        k = k + 1;
    }
    (paths, steps)
}

} // verus!
