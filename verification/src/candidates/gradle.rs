//! Gradle: versions from the Gradle services API.
use vstd::prelude::*;
use crate::candidates::{
    CandidateSource, MirrorMap, ShaInfo, ShaView, VersionEntry, EntryView, mirrors, mirror_view,
    pair_views, entry_views, ordered_by_version, order_entries_by_version, lemma_mirrors_names,
};
use crate::sorted_map::pairs_to_map;
use crate::text::{chars_of, owned, string_from_range};

verus! {

/// The Gradle versions API.
pub const GRADLE_API: &'static str = "https://services.gradle.org/versions/all";

/// Gradle.
pub struct Gradle;

/// The mirrors of Gradle.
pub open spec fn gradle_mirror_pairs() -> Seq<(Seq<char>, Seq<char>)> {
    seq![
        ("official"@, "https://services.gradle.org/distributions"@),
        ("huawei"@, "https://repo.huaweicloud.com/gradle"@),
        ("tencent"@, "https://mirrors.cloud.tencent.com/gradle"@),
    ]
}

impl CandidateSource for Gradle {
    fn dir_name(&self) -> (r: &'static str)
        ensures
            r@ == "gradle"@,
    {
        "gradle"
    }

    fn display(&self) -> (r: &'static str)
        ensures
            r@ == "Gradle"@,
    {
        "Gradle"
    }

    fn mirrors(&self) -> (r: MirrorMap)
        ensures
            mirror_view(r) == pairs_to_map(gradle_mirror_pairs()),
    {
        let entries = [
            ("official", "https://services.gradle.org/distributions"),
            ("huawei", "https://repo.huaweicloud.com/gradle"),
            ("tencent", "https://mirrors.cloud.tencent.com/gradle"),
        ];
        assert(pair_views(entries@) =~= gradle_mirror_pairs());
        let r = mirrors(entries.as_slice());
        proof {
            lemma_mirrors_names(gradle_mirror_pairs(), "official"@);
            assert(gradle_mirror_pairs()[0].0 == "official"@);
        }
        r
    }

    fn minimum_versions(&self) -> (r: usize)
        ensures
            r == 100,
    {
        100
    }
}

/// One release of the Gradle versions API.
pub struct GradleRelease {
    pub version: String,
    pub download_url: String,
    pub checksum: Option<String>,
}

/// A Gradle release as character sequences.
pub struct GradleReleaseView {
    pub version: Seq<char>,
    pub download_url: Seq<char>,
    pub checksum: Option<Seq<char>>,
}

impl View for GradleRelease {
    type V = GradleReleaseView;

    open spec fn view(&self) -> GradleReleaseView {
        GradleReleaseView {
            version: self.version@,
            download_url: self.download_url@,
            checksum: match self.checksum {
                Some(c) => Some(c@),
                None => None,
            },
        }
    }
}

/// The index of the last `c` in `s` (the split point of `rsplit_once(c)`).
pub open spec fn last_index_of(s: Seq<char>, c: char) -> Option<int>
    decreases s.len(),
{
    if s.len() == 0 {
        None
    } else if s.last() == c {
        Some(s.len() - 1)
    } else {
        last_index_of(s.drop_last(), c)
    }
}

/// The download path of a Gradle release: `/` and the file name of its
/// download URL, or `/gradle-{version}-bin.zip` when the URL has no `/`.
pub open spec fn gradle_path(version: Seq<char>, url: Seq<char>) -> Seq<char> {
    match last_index_of(url, '/') {
        Some(i) => seq!['/'] + url.skip(i + 1),
        None => "/gradle-"@ + version + "-bin.zip"@,
    }
}

/// The version entry of a Gradle release; its checksum is a SHA-256.
pub open spec fn gradle_entry(r: GradleReleaseView) -> EntryView {
    EntryView {
        version: r.version,
        path: gradle_path(r.version, r.download_url),
        sha: match r.checksum {
            Some(v) => Some(ShaView { value: v, sha_type: "sha256"@ }),
            None => None,
        },
    }
}

/// The views of a list of Gradle releases.
pub open spec fn release_views(rs: Seq<GradleRelease>) -> Seq<GradleReleaseView> {
    rs.map_values(|r: GradleRelease| r@)
}

/// The download path of a Gradle release.
pub fn gradle_release_path(version: &str, url: &str) -> (r: String)
    ensures
        r@ == gradle_path(version@, url@),
{
    let u = chars_of(url);
    let mut i = u.len();
    assert(u@.take(i as int) =~= u@);
    while i > 0 && u[i - 1] != '/'
        invariant
            u@ == url@,
            i <= u@.len(),
            last_index_of(u@, '/') == last_index_of(u@.take(i as int), '/'),
        decreases i,
    {
        proof {
            let t = u@.take(i as int);
            assert(t.drop_last() =~= u@.take(i - 1));
        }
        i = i - 1;
    }
    if i > 0 {
        proof {
            let t = u@.take(i as int);
            assert(t.last() == '/');
        }
        let mut path = String::new();
        crate::text::push_char(&mut path, '/');
        let file = string_from_range(&u, i, u.len());
        path.append(file.as_str());
        assert(u@.subrange(i as int, u@.len() as int) =~= u@.skip(i as int));
        assert(path@ =~= seq!['/'] + u@.skip(i as int));
        path
    } else {
        assert(u@.take(0) =~= Seq::<char>::empty());
        let mut path = owned("/gradle-");
        path.append(version);
        path.append("-bin.zip");
        path
    }
}

/// The version entries of the Gradle releases, newest first, one per
/// version (the first release listing it).
pub fn gradle_entries(releases: &Vec<GradleRelease>) -> (r: Vec<VersionEntry>)
    ensures
        entry_views(r@) == ordered_by_version(release_views(releases@).map_values(|g: GradleReleaseView| gradle_entry(g))),
{
    let ghost rv = release_views(releases@).map_values(|g: GradleReleaseView| gradle_entry(g));
    let mut entries: Vec<VersionEntry> = Vec::new();
    let mut i: usize = 0;
    while i < releases.len()
        invariant
            rv == release_views(releases@).map_values(|g: GradleReleaseView| gradle_entry(g)),
            i <= releases@.len(),
            entry_views(entries@) == rv.take(i as int),
        decreases releases@.len() - i,
    {
        let g = &releases[i];
        let path = gradle_release_path(g.version.as_str(), g.download_url.as_str());
        let sha = match &g.checksum {
            Some(v) => Some(ShaInfo { value: v.clone(), sha_type: owned("sha256") }),
            None => None,
        };
        let ghost before = entry_views(entries@);
        entries.push(VersionEntry { version: g.version.clone(), path, sha });
        assert(entry_views(entries@) =~= before.push(rv[i as int]));
        assert(rv.take(i + 1) =~= rv.take(i as int).push(rv[i as int]));
        i = i + 1;
    }
    assert(rv.take(releases@.len() as int) =~= rv);
    order_entries_by_version(&entries)
}

} // verus!
