//! Kotlin: versions from the GitHub releases of JetBrains/kotlin.
use vstd::prelude::*;
use crate::candidates::{
    CandidateSource, MirrorMap, VersionEntry, EntryView, mirrors, mirror_view, pair_views,
    entry_views, ordered_by_version, order_entries_by_version, lemma_mirrors_names,
};
use crate::sorted_map::pairs_to_map;
use crate::text::{chars_of, owned, string_from_range, trim, trimmed_range};

verus! {

/// The GitHub releases API of Kotlin.
pub const KOTLIN_API: &'static str = "https://api.github.com/repos/JetBrains/kotlin/releases?per_page=100";

/// Kotlin.
pub struct Kotlin;

/// The mirrors of Kotlin.
pub open spec fn kotlin_mirror_pairs() -> Seq<(Seq<char>, Seq<char>)> {
    seq![("official"@, "https://github.com/JetBrains/kotlin/releases/download"@)]
}

impl CandidateSource for Kotlin {
    fn dir_name(&self) -> (r: &'static str)
        ensures
            r@ == "kotlin"@,
    {
        "kotlin"
    }

    fn display(&self) -> (r: &'static str)
        ensures
            r@ == "Kotlin"@,
    {
        "Kotlin"
    }

    fn mirrors(&self) -> (r: MirrorMap)
        ensures
            mirror_view(r) == pairs_to_map(kotlin_mirror_pairs()),
    {
        let entries = [("official", "https://github.com/JetBrains/kotlin/releases/download")];
        assert(pair_views(entries@) =~= kotlin_mirror_pairs());
        let r = mirrors(entries.as_slice());
        proof {
            lemma_mirrors_names(kotlin_mirror_pairs(), "official"@);
            assert(kotlin_mirror_pairs()[0].0 == "official"@);
        }
        r
    }

    fn minimum_versions(&self) -> (r: usize)
        ensures
            r == 20,
    {
        20
    }
}

/// `s` without leading copies of `c` (`trim_start_matches(c)`).
pub open spec fn trim_start_char(s: Seq<char>, c: char) -> Seq<char>
    decreases s.len(),
{
    if s.len() > 0 && s[0] == c {
        trim_start_char(s.drop_first(), c)
    } else {
        s
    }
}

proof fn lemma_trim_start_char_skip(s: Seq<char>, c: char, i: int)
    requires
        0 <= i <= s.len(),
        forall|j: int| 0 <= j < i ==> s[j] == c,
    ensures
        trim_start_char(s, c) == trim_start_char(s.skip(i), c),
    decreases i,
{
    if i > 0 {
        lemma_trim_start_char_skip(s.drop_first(), c, i - 1);
        assert(s.drop_first().skip(i - 1) =~= s.skip(i));
    } else {
        assert(s.skip(0) =~= s);
    }
}

/// The version of a release tag: the tag without its leading `v`s.
pub open spec fn tag_version(tag: Seq<char>) -> Seq<char> {
    trim_start_char(tag, 'v')
}

/// The download path of a Kotlin compiler version.
pub open spec fn kotlin_path(version: Seq<char>) -> Seq<char> {
    "/v"@ + version + "/kotlin-compiler-"@ + version + ".zip"@
}

/// The entry of a release tag (Kotlin publishes no checksum here).
pub open spec fn tag_entry(tag: Seq<char>) -> EntryView {
    EntryView { version: tag_version(tag), path: kotlin_path(tag_version(tag)), sha: None }
}

/// The version of a release tag.
pub fn release_version(tag: &str) -> (r: String)
    ensures
        r@ == tag_version(tag@),
{
    let c = chars_of(tag);
    let mut i: usize = 0;
    while i < c.len() && c[i] == 'v'
        invariant
            c@ == tag@,
            i <= c@.len(),
            forall|j: int| 0 <= j < i ==> c@[j] == 'v',
        decreases c@.len() - i,
    {
        i = i + 1;
    }
    proof {
        lemma_trim_start_char_skip(c@, 'v', i as int);
        assert(c@.subrange(i as int, c@.len() as int) =~= c@.skip(i as int));
    }
    string_from_range(&c, i, c.len())
}

/// The download path of a Kotlin compiler version.
pub fn compiler_path(version: &str) -> (r: String)
    ensures
        r@ == kotlin_path(version@),
{
    let mut p = owned("/v");
    p.append(version);
    p.append("/kotlin-compiler-");
    p.append(version);
    p.append(".zip");
    p
}

/// The version entries of the release tags, newest first, one per version.
pub fn kotlin_entries(tags: &Vec<String>) -> (r: Vec<VersionEntry>)
    ensures
        entry_views(r@) == ordered_by_version(tags.deep_view().map_values(|t: Seq<char>| tag_entry(t))),
{
    let ghost tv = tags.deep_view().map_values(|t: Seq<char>| tag_entry(t));
    let mut entries: Vec<VersionEntry> = Vec::new();
    let mut i: usize = 0;
    while i < tags.len()
        invariant
            tv == tags.deep_view().map_values(|t: Seq<char>| tag_entry(t)),
            i <= tags@.len(),
            entry_views(entries@) == tv.take(i as int),
        decreases tags@.len() - i,
    {
        let version = release_version(tags[i].as_str());
        let path = compiler_path(version.as_str());
        let ghost before = entry_views(entries@);
        entries.push(VersionEntry { version, path, sha: None });
        assert(entry_views(entries@) =~= before.push(tv[i as int]));
        assert(tv.take(i + 1) =~= tv.take(i as int).push(tv[i as int]));
        i = i + 1;
    }
    assert(tv.take(tags@.len() as int) =~= tv);
    order_entries_by_version(&entries)
}

/// The GitHub token to send, from what the environment holds: kept only when
/// it is more than whitespace.
pub fn usable_token(token: Option<String>) -> (r: Option<String>)
    ensures
        match token {
            Some(t) => if trim(t@).len() > 0 {
                r matches Some(x) && x@ == t@
            } else {
                r is None
            },
            None => r is None,
        },
{
    match token {
        Some(t) => {
            let c = chars_of(t.as_str());
            let trimmed = trimmed_range(&c, 0, c.len());
            assert(c@.subrange(0, c@.len() as int) =~= c@);
            if trimmed.as_str().unicode_len() > 0 {
                Some(t)
            } else {
                None
            }
        },
        None => None,
    }
}

} // verus!
