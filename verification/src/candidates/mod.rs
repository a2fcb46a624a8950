//! The candidate sources and what they share: version entries, checksums,
//! mirror maps, the checksum-reuse rules and the HTTP retry policy.
use vstd::prelude::*;
use crate::sorted_map::{SortedMap, pairs_to_map, lemma_pairs_to_map};
use crate::text::{chars_of, owned, string_from_range};
use crate::versioning::{sort_dedup, newest_first, is_newest_first, lemma_sort_dedup};
use crate::version_order::{dedup_adjacent, lists};

pub mod apache;
pub mod apache_dist;
pub mod gradle;
pub mod hadoop;
pub mod html;
pub mod jmeter;
pub mod kotlin;
pub mod maven;
pub mod maven_metadata;
pub mod tomcat;

verus! {

/// Mirror name → base URL, in ascending name order.
pub type MirrorMap = SortedMap<String>;

/// A mirror map as a map of character sequences.
pub open spec fn mirror_view(m: MirrorMap) -> Map<Seq<char>, Seq<char>> {
    m@.map_values(|s: String| s@)
}

/// Pairs of string slices as pairs of character sequences.
pub open spec fn pair_views(entries: Seq<(&str, &str)>) -> Seq<(Seq<char>, Seq<char>)> {
    entries.map_values(|p: (&str, &str)| (p.0@, p.1@))
}

/// Builds a mirror map from `(name, url)` pairs; a later pair replaces an
/// earlier one with the same name.
pub fn mirrors(entries: &[(&str, &str)]) -> (r: MirrorMap)
    ensures
        mirror_view(r) == pairs_to_map(pair_views(entries@)),
{
    let ghost pv = pair_views(entries@);
    let mut m: MirrorMap = SortedMap::new();
    let mut i: usize = 0;
    assert(pv.take(0) =~= Seq::<(Seq<char>, Seq<char>)>::empty());
    assert(mirror_view(m) =~= Map::<Seq<char>, Seq<char>>::empty());
    while i < entries.len()
        invariant
            pv == pair_views(entries@),
            i <= entries@.len(),
            mirror_view(m) == pairs_to_map(pv.take(i as int)),
        decreases entries@.len() - i,
    {
        let (name, url) = entries[i];
        let ghost before = m@;
        m.insert(owned(name), owned(url));
        proof {
            assert(pv.take(i + 1).drop_last() =~= pv.take(i as int));
            assert(pv[i as int] == (name@, url@));
            assert(mirror_view(m) =~= mirror_view_of(before).insert(name@, url@));
        }
        i = i + 1;
    }
    assert(pv.take(entries@.len() as int) =~= pv);
    m
}

/// `map_values` of a string map, as a function of the map.
pub open spec fn mirror_view_of(m: Map<Seq<char>, String>) -> Map<Seq<char>, Seq<char>> {
    m.map_values(|s: String| s@)
}

/// A mirror map built from pairs holds a name exactly when some pair has it.
pub proof fn lemma_mirrors_names(entries: Seq<(Seq<char>, Seq<char>)>, name: Seq<char>)
    ensures
        pairs_to_map(entries).contains_key(name) <==> exists|i: int|
            0 <= i < entries.len() && entries[i].0 == name,
{
    lemma_pairs_to_map(entries);
}

/// The checksum of a download, with its algorithm.
#[derive(Debug, Clone)]
pub struct ShaInfo {
    /// The hex-encoded hash value.
    pub value: String,
    /// Algorithm: `"sha1"`, `"sha256"`, `"sha512"`, etc.
    pub sha_type: String,
}

/// A checksum as character sequences.
pub struct ShaView {
    pub value: Seq<char>,
    pub sha_type: Seq<char>,
}

impl View for ShaInfo {
    type V = ShaView;

    open spec fn view(&self) -> ShaView {
        ShaView { value: self.value@, sha_type: self.sha_type@ }
    }
}

/// A version entry of a candidate.
#[derive(Debug, Clone)]
pub struct VersionEntry {
    pub version: String,
    pub path: String,
    pub sha: Option<ShaInfo>,
}

/// A version entry as character sequences.
pub struct EntryView {
    pub version: Seq<char>,
    pub path: Seq<char>,
    pub sha: Option<ShaView>,
}

/// The view of an optional checksum.
pub open spec fn sha_view(s: Option<ShaInfo>) -> Option<ShaView> {
    match s {
        Some(x) => Some(x@),
        None => None,
    }
}

impl View for VersionEntry {
    type V = EntryView;

    open spec fn view(&self) -> EntryView {
        EntryView { version: self.version@, path: self.path@, sha: sha_view(self.sha) }
    }
}

/// The views of a list of entries.
pub open spec fn entry_views(v: Seq<VersionEntry>) -> Seq<EntryView> {
    v.map_values(|e: VersionEntry| e@)
}

impl ShaInfo {
    /// A copy of this checksum.
    pub fn duplicate(&self) -> (r: ShaInfo)
        ensures
            r@ == self@,
    {
        ShaInfo { value: self.value.clone(), sha_type: self.sha_type.clone() }
    }
}

/// A copy of an optional checksum.
pub fn duplicate_sha(s: &Option<ShaInfo>) -> (r: Option<ShaInfo>)
    ensures
        sha_view(r) == sha_view(*s),
{
    match s {
        Some(x) => Some(x.duplicate()),
        None => None,
    }
}

impl VersionEntry {
    /// A copy of this entry.
    pub fn duplicate(&self) -> (r: VersionEntry)
        ensures
            r@ == self@,
    {
        VersionEntry {
            version: self.version.clone(),
            path: self.path.clone(),
            sha: duplicate_sha(&self.sha),
        }
    }
}

/// `s` without trailing copies of `c` (`str::trim_end_matches(c)`).
pub open spec fn trim_end_char(s: Seq<char>, c: char) -> Seq<char>
    decreases s.len(),
{
    if s.len() > 0 && s.last() == c {
        trim_end_char(s.drop_last(), c)
    } else {
        s
    }
}

proof fn lemma_trim_end_char_take(s: Seq<char>, c: char, i: int)
    requires
        0 <= i <= s.len(),
        forall|j: int| i <= j < s.len() ==> s[j] == c,
    ensures
        trim_end_char(s, c) == trim_end_char(s.take(i), c),
    decreases s.len() - i,
{
    if i < s.len() {
        lemma_trim_end_char_take(s.drop_last(), c, i);
        assert(s.drop_last().take(i) =~= s.take(i));
    } else {
        assert(s.take(i) =~= s);
    }
}

/// `s.trim_end_matches(c)`.
pub fn trim_end_char_exec(s: &str, c: char) -> (r: String)
    ensures
        r@ == trim_end_char(s@, c),
{
    let v = chars_of(s);
    let mut end = v.len();
    while end > 0 && v[end - 1] == c
        invariant
            v@ == s@,
            end <= v@.len(),
            forall|j: int| end <= j < v@.len() ==> v@[j] == c,
        decreases end,
    {
        end = end - 1;
    }
    proof {
        lemma_trim_end_char_take(v@, c, end as int);
        let t = v@.take(end as int);
        assert(!(t.len() > 0 && t.last() == c));
        assert(v@.subrange(0, end as int) =~= t);
    }
    string_from_range(&v, 0, end)
}

/// The URL of a checksum file: the official base without trailing slashes,
/// then the download path, a dot and the algorithm name.
pub open spec fn sha_url_spec(official_base: Seq<char>, path: Seq<char>, algo: Seq<char>) -> Seq<char> {
    trim_end_char(official_base, '/') + path + seq!['.'] + algo
}

/// `format!("{}{}.{algo}", official_base.trim_end_matches('/'), path)`.
pub fn sha_url(official_base: &str, path: &str, algo: &str) -> (r: String)
    ensures
        r@ == sha_url_spec(official_base@, path@, algo@),
{
    let mut url = trim_end_char_exec(official_base, '/');
    url.append(path);
    crate::text::push_char(&mut url, '.');
    url.append(algo);
    url
}

/// The checksum algorithms tried, in order.
pub open spec fn checksum_algorithm_spec(attempt: int) -> Option<Seq<char>> {
    if attempt == 0 {
        Some("sha512"@)
    } else if attempt == 1 {
        Some("sha256"@)
    } else if attempt == 2 {
        Some("sha1"@)
    } else {
        None
    }
}

/// The checksum algorithm tried at `attempt` (from 0): sha512, then sha256,
/// then sha1.
pub fn checksum_algorithm(attempt: usize) -> (r: Option<&'static str>)
    ensures
        r matches Some(a) ==> checksum_algorithm_spec(attempt as int) == Some(a@),
        r is None ==> checksum_algorithm_spec(attempt as int) is None,
{
    if attempt == 0 {
        Some("sha512")
    } else if attempt == 1 {
        Some("sha256")
    } else if attempt == 2 {
        Some("sha1")
    } else {
        None
    }
}

/// The `official` base URL of a mirror map, or the empty string.
pub open spec fn official_base_spec(m: Map<Seq<char>, Seq<char>>) -> Seq<char> {
    if m.contains_key("official"@) {
        m["official"@]
    } else {
        Seq::empty()
    }
}

/// `mirrors.get("official").map(String::as_str).unwrap_or("")`, owned.
pub fn official_base(m: &MirrorMap) -> (r: String)
    ensures
        r@ == official_base_spec(mirror_view(*m)),
{
    match m.get("official") {
        Some(s) => s.clone(),
        None => String::new(),
    }
}

/// Each candidate source implements this trait.
pub trait CandidateSource {
    /// Directory / identifier, e.g. `"maven"`, `"gradle"`.
    fn dir_name(&self) -> (r: &'static str);

    /// Human-readable display name, e.g. `"Maven"`, `"Gradle"`.
    fn display(&self) -> (r: &'static str);

    /// Mirror name → base URL. `"official"` is always present.
    fn mirrors(&self) -> (r: MirrorMap)
        ensures
            mirror_view(r).contains_key("official"@),
    ;

    /// Sanity floor used to catch stale or incomplete upstream source parsing.
    fn minimum_versions(&self) -> (r: usize)
        ensures
            r >= 1,
    {
        1
    }
}


/// The index of the first entry, from `i` on, for version `v`.
pub open spec fn first_with_version(es: Seq<EntryView>, v: Seq<char>, i: int) -> Option<int>
    decreases es.len() - i,
{
    if i < 0 || i >= es.len() {
        None
    } else if es[i].version == v {
        Some(i)
    } else {
        first_with_version(es, v, i + 1)
    }
}

/// For each version of `vs` in turn, the first entry of `es` with that
/// version (versions without an entry are skipped).
pub open spec fn entries_in_order(es: Seq<EntryView>, vs: Seq<Seq<char>>) -> Seq<EntryView>
    decreases vs.len(),
{
    if vs.len() == 0 {
        Seq::empty()
    } else {
        let p = entries_in_order(es, vs.drop_last());
        match first_with_version(es, vs.last(), 0) {
            Some(i) => p.push(es[i]),
            None => p,
        }
    }
}

/// The versions of a list of entries.
pub open spec fn entry_versions(es: Seq<EntryView>) -> Seq<Seq<char>> {
    es.map_values(|e: EntryView| e.version)
}

/// The entries ordered by version, newest first: one entry per version of
/// the sorted, de-duplicated version list, the first with that version.
pub open spec fn ordered_by_version(es: Seq<EntryView>) -> Seq<EntryView> {
    entries_in_order(es, dedup_adjacent(newest_first(entry_versions(es))))
}

/// The index of the first entry for `version`.
pub fn find_version(entries: &Vec<VersionEntry>, version: &str) -> (r: Option<usize>)
    ensures
        r matches Some(j) ==> j < entries@.len() && first_with_version(entry_views(entries@), version@, 0) == Some(j as int),
        r is None ==> first_with_version(entry_views(entries@), version@, 0) is None,
{
    let ghost ev = entry_views(entries@);
    let mut j: usize = 0;
    while j < entries.len()
        invariant
            ev == entry_views(entries@),
            j <= entries@.len(),
            first_with_version(ev, version@, 0) == first_with_version(ev, version@, j as int),
        decreases entries@.len() - j,
    {
        if crate::candidates::apache::str_equal(entries[j].version.as_str(), version) {
            return Some(j);
        }
        j = j + 1;
    }
    None
}

/// The entries reordered newest first by version, keeping for each version
/// of the sorted, de-duplicated version list the first entry with it.
pub fn order_entries_by_version(entries: &Vec<VersionEntry>) -> (r: Vec<VersionEntry>)
    ensures
        entry_views(r@) == ordered_by_version(entry_views(entries@)),
{
    let ghost ev = entry_views(entries@);
    let mut versions: Vec<String> = Vec::new();
    let mut i: usize = 0;
    while i < entries.len()
        invariant
            ev == entry_views(entries@),
            i <= entries@.len(),
            versions.deep_view() == entry_versions(ev).take(i as int),
        decreases entries@.len() - i,
    {
        let ghost before = versions.deep_view();
        assert(ev[i as int].version == entries@[i as int].version@);
        versions.push(entries[i].version.clone());
        assert(versions.deep_view() =~= before.push(entries@[i as int].version@));
        assert(versions.deep_view() =~= entry_versions(ev).take(i + 1));
        i = i + 1;
    }
    assert(entry_versions(ev).take(entries@.len() as int) =~= entry_versions(ev));
    let vs = sort_dedup(versions);
    let ghost vv = vs.deep_view();
    let mut out: Vec<VersionEntry> = Vec::new();
    let mut k: usize = 0;
    assert(vv.take(0) =~= Seq::<Seq<char>>::empty());
    assert(entry_views(out@) =~= Seq::<EntryView>::empty());
    while k < vs.len()
        invariant
            ev == entry_views(entries@),
            vv == vs.deep_view(),
            vv == dedup_adjacent(newest_first(entry_versions(ev))),
            k <= vv.len(),
            entry_views(out@) == entries_in_order(ev, vv.take(k as int)),
        decreases vv.len() - k,
    {
        let ghost t1 = vv.take(k + 1);
        assert(t1.drop_last() =~= vv.take(k as int));
        assert(t1.last() == vs@[k as int]@);
        let found = find_version(entries, vs[k].as_str());
        match found {
            Some(j) => {
                let ghost before = entry_views(out@);
                out.push(entries[j].duplicate());
                assert(entry_views(out@) =~= before.push(ev[j as int]));
            },
            None => {},
        }
        k = k + 1;
    }
    assert(vv.take(vv.len() as int) =~= vv);
    out
}


/// The text of `v` before its first `.` (`v.split('.').next()`).
pub open spec fn major_part(v: Seq<char>) -> Seq<char> {
    match crate::text::find_from(v, seq!['.'], 0) {
        Some(i) => v.take(i),
        None => v,
    }
}

/// The text of `v` before its first `.`.
pub fn major_of(v: &str) -> (r: String)
    ensures
        r@ == major_part(v@),
{
    let c = chars_of(v);
    let dot = vec!['.'];
    assert(dot@ =~= seq!['.']);
    match crate::text::find_from_exec(&c, &dot, 0) {
        Some(i) => {
            proof {
                crate::text::lemma_find_from(c@, seq!['.'], 0);
            }
            assert(c@.subrange(0, i as int) =~= c@.take(i as int));
            string_from_range(&c, 0, i)
        },
        None => owned(v),
    }
}


/// How many times a GET request is tried.
pub const HTTP_ATTEMPTS: usize = 3;

/// The class of an HTTP status code.
#[derive(Debug, Clone, Copy, PartialEq, Eq, Structural)]
pub enum StatusClass {
    /// 200–299.
    Success,
    /// 400–499.
    ClientError,
    /// Any other code.
    Other,
}

/// The class of an HTTP status code.
pub open spec fn status_class(code: u16) -> StatusClass {
    if 200 <= code <= 299 {
        StatusClass::Success
    } else if 400 <= code <= 499 {
        StatusClass::ClientError
    } else {
        StatusClass::Other
    }
}

/// The class of an HTTP status code.
pub fn classify_status(code: u16) -> (r: StatusClass)
    ensures
        r == status_class(code),
{
    if 200 <= code && code <= 299 {
        StatusClass::Success
    } else if 400 <= code && code <= 499 {
        StatusClass::ClientError
    } else {
        StatusClass::Other
    }
}

/// What one GET attempt came back with.
#[derive(Debug, Clone, Copy, PartialEq, Eq, Structural)]
pub enum HttpOutcome {
    /// A response with this status code.
    Status(u16),
    /// No response: the request failed.
    TransportError,
}

/// What to do after a GET attempt.
#[derive(Debug, Clone, Copy, PartialEq, Eq, Structural)]
pub enum HttpStep {
    /// Read the body of the response and return it.
    ReadBody,
    /// Fail at once: the server refused the request.
    Fail,
    /// Wait this many milliseconds, then try again.
    RetryAfterMillis(u64),
    /// Fail: all attempts are used up.
    GiveUp,
}

/// The retry policy of GET requests after attempt `attempt` (from 1): a
/// success is read, a client error fails at once, anything else is retried
/// after `250 × attempt` ms until the attempts are used up.
pub open spec fn http_step(attempt: int, outcome: HttpOutcome) -> HttpStep {
    match outcome {
        HttpOutcome::Status(code) => match status_class(code) {
            StatusClass::Success => HttpStep::ReadBody,
            StatusClass::ClientError => HttpStep::Fail,
            StatusClass::Other => if attempt < HTTP_ATTEMPTS {
                HttpStep::RetryAfterMillis((250 * attempt) as u64)
            } else {
                HttpStep::GiveUp
            },
        },
        HttpOutcome::TransportError => if attempt < HTTP_ATTEMPTS {
            HttpStep::RetryAfterMillis((250 * attempt) as u64)
        } else {
            HttpStep::GiveUp
        },
    }
}

/// What to do after GET attempt `attempt` (from 1) came back with `outcome`.
pub fn next_http_step(attempt: usize, outcome: HttpOutcome) -> (r: HttpStep)
    requires
        1 <= attempt <= HTTP_ATTEMPTS,
    ensures
        r == http_step(attempt as int, outcome),
{
    let retry = if attempt < HTTP_ATTEMPTS {
        HttpStep::RetryAfterMillis(250 * (attempt as u64))
    } else {
        HttpStep::GiveUp
    };
    match outcome {
        HttpOutcome::Status(code) => match classify_status(code) {
            StatusClass::Success => HttpStep::ReadBody,
            StatusClass::ClientError => HttpStep::Fail,
            StatusClass::Other => retry,
        },
        HttpOutcome::TransportError => retry,
    }
}

/// A GET request is tried at most `HTTP_ATTEMPTS` times: the last attempt
/// never leads to another, and every retry waits longer than the one before.
pub proof fn lemma_http_attempts_bounded(attempt: int, outcome: HttpOutcome)
    requires
        1 <= attempt <= HTTP_ATTEMPTS,
    ensures
        attempt == HTTP_ATTEMPTS ==> !(http_step(attempt, outcome) is RetryAfterMillis),
        http_step(attempt, outcome) matches HttpStep::RetryAfterMillis(ms) ==> ms == 250 * attempt && attempt
            < HTTP_ATTEMPTS,
{
}

/// The checksum a checksum-file response gives: none without a body, else
/// what `parse_sha` finds in it.
pub fn checksum_from_response(body: Option<String>, algo: &str) -> (r: Option<ShaInfo>)
    ensures
        sha_view(r) == match body {
            Some(b) => crate::candidates::apache::parse_sha_spec(b@, algo@),
            None => None,
        },
{
    match body {
        Some(b) => crate::candidates::apache::parse_sha(b.as_str(), algo),
        None => None,
    }
}


proof fn lemma_first_with_version(es: Seq<EntryView>, v: Seq<char>, i: int, j: int)
    requires
        0 <= i <= j < es.len(),
        es[j].version == v,
    ensures
        first_with_version(es, v, i) matches Some(k) && 0 <= k < es.len() && es[k].version == v,
    decreases j - i,
{
    if es[i].version != v {
        lemma_first_with_version(es, v, i + 1, j);
    }
}

proof fn lemma_entries_in_order(es: Seq<EntryView>, vs: Seq<Seq<char>>)
    requires
        forall|k: int| 0 <= k < vs.len() ==> #[trigger] lists(entry_versions(es), vs[k]),
    ensures
        entry_versions(entries_in_order(es, vs)) == vs,
        forall|k: int| 0 <= k < vs.len() ==> #[trigger] lists(es, entries_in_order(es, vs)[k]),
    decreases vs.len(),
{
    if vs.len() > 0 {
        let v0 = vs.drop_last();
        assert forall|k: int| 0 <= k < v0.len() implies #[trigger] lists(entry_versions(es), v0[k]) by {
            assert(v0[k] == vs[k]);
        }
        lemma_entries_in_order(es, v0);
        assert(lists(entry_versions(es), vs[vs.len() - 1]));
        let j = choose|j: int| 0 <= j < entry_versions(es).len() && entry_versions(es)[j] == vs.last();
        lemma_first_with_version(es, vs.last(), 0, j);
        let i = first_with_version(es, vs.last(), 0)->0;
        let p = entries_in_order(es, v0);
        let r = entries_in_order(es, vs);
        assert(r == p.push(es[i]));
        assert(entry_versions(r) =~= entry_versions(p).push(es[i].version));
        assert(v0.push(vs.last()) =~= vs);
        assert forall|k: int| 0 <= k < vs.len() implies #[trigger] lists(es, r[k]) by {
            if k < v0.len() {
                assert(r[k] == p[k]);
                assert(lists(es, p[k]));
            } else {
                assert(r[k] == es[i]);
            }
        }
    }
}

/// Ordering entries by version keeps one entry per version of the sorted,
/// de-duplicated version list: their versions are that list (newest first,
/// no version directly repeated), each is one of the given entries, and
/// every given version is represented.
pub proof fn lemma_ordered_by_version(es: Seq<EntryView>)
    ensures
        entry_versions(ordered_by_version(es)) == dedup_adjacent(newest_first(entry_versions(es))),
        is_newest_first(entry_versions(ordered_by_version(es))),
        forall|k: int| 0 <= k < ordered_by_version(es).len() ==> #[trigger] lists(es, ordered_by_version(es)[k]),
        forall|i: int| 0 <= i < es.len() ==> #[trigger] lists(entry_versions(ordered_by_version(es)), es[i].version),
{
    let ev = entry_versions(es);
    let vs = dedup_adjacent(newest_first(ev));
    lemma_sort_dedup(ev);
    lemma_entries_in_order(es, vs);
    assert forall|i: int| 0 <= i < es.len() implies #[trigger] lists(entry_versions(ordered_by_version(es)), es[i].version) by {
        assert(ev[i] == es[i].version);
        assert(lists(vs, ev[i]));
    }
}

} // verus!
