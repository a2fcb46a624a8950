//! What the Apache-hosted candidates share: mirrors, checksum parsing and the
//! rules for reusing the checksums of an earlier run.
use vstd::prelude::*;
use crate::candidates::{
    MirrorMap, ShaInfo, ShaView, VersionEntry, EntryView, mirrors, mirror_view, pair_views,
    entry_views, duplicate_sha,
};
use crate::sorted_map::pairs_to_map;
use crate::text::{chars_of, join2, owned, string_from_range, is_whitespace, is_whitespace_char, is_hex_digit};

verus! {

/// How many of the newest versions always get their checksums fetched
/// again, whatever an earlier run recorded.
pub const RECENT_CHECKSUM_WINDOW: usize = 12;

/// The mirrors of an Apache project whose files live under `path_prefix`.
pub open spec fn apache_mirror_pairs(path_prefix: Seq<char>) -> Seq<(Seq<char>, Seq<char>)> {
    seq![
        ("official"@, "https://archive.apache.org/dist"@ + path_prefix),
        ("huawei"@, "https://repo.huaweicloud.com/apache"@ + path_prefix),
        ("tencent"@, "https://mirrors.cloud.tencent.com/apache"@ + path_prefix),
        ("tuna"@, "https://mirrors.tuna.tsinghua.edu.cn/apache"@ + path_prefix),
        ("ustc"@, "https://mirrors.ustc.edu.cn/apache"@ + path_prefix),
    ]
}

/// The mirror map of an Apache project whose files live under `path_prefix`.
pub fn apache_mirrors(path_prefix: &str) -> (r: MirrorMap)
    ensures
        mirror_view(r) == pairs_to_map(apache_mirror_pairs(path_prefix@)),
        mirror_view(r).contains_key("official"@),
{
    let official = join2("https://archive.apache.org/dist", path_prefix);
    let huawei = join2("https://repo.huaweicloud.com/apache", path_prefix);
    let tencent = join2("https://mirrors.cloud.tencent.com/apache", path_prefix);
    let tuna = join2("https://mirrors.tuna.tsinghua.edu.cn/apache", path_prefix);
    let ustc = join2("https://mirrors.ustc.edu.cn/apache", path_prefix);
    let entries = vec![
        ("official", official.as_str()),
        ("huawei", huawei.as_str()),
        ("tencent", tencent.as_str()),
        ("tuna", tuna.as_str()),
        ("ustc", ustc.as_str()),
    ];
    assert(pair_views(entries@) =~= apache_mirror_pairs(path_prefix@));
    let r = mirrors(entries.as_slice());
    proof {
        crate::candidates::lemma_mirrors_names(apache_mirror_pairs(path_prefix@), "official"@);
        assert(apache_mirror_pairs(path_prefix@)[0].0 == "official"@);
    }
    r
}

/// The whitespace-separated tokens of `s` (`str::split_whitespace`).
pub open spec fn ws_tokens(s: Seq<char>) -> Seq<Seq<char>>
    decreases s.len(),
{
    if s.len() == 0 {
        Seq::empty()
    } else {
        let t = ws_tokens(s.drop_last());
        let c = s.last();
        if is_whitespace(c) {
            t
        } else if s.len() >= 2 && !is_whitespace(s[s.len() - 2]) {
            t.update(t.len() - 1, t.last().push(c))
        } else {
            t.push(seq![c])
        }
    }
}

/// A token that can be a checksum: at least 64 hexadecimal digits.
pub open spec fn is_checksum_token(t: Seq<char>) -> bool {
    t.len() >= 64 && forall|i: int| 0 <= i < t.len() ==> is_hex_digit(#[trigger] t[i])
}

/// The last of the longest checksum tokens, as `filter(..).max_by_key(len)`
/// picks it.
pub open spec fn longest_checksum(tokens: Seq<Seq<char>>) -> Option<Seq<char>>
    decreases tokens.len(),
{
    if tokens.len() == 0 {
        None
    } else {
        let best = longest_checksum(tokens.drop_last());
        let t = tokens.last();
        if is_checksum_token(t) && (best is None || t.len() >= best->0.len()) {
            Some(t)
        } else {
            best
        }
    }
}

/// The checksum that `parse_sha` finds in `body`.
pub open spec fn parse_sha_spec(body: Seq<char>, algo: Seq<char>) -> Option<ShaView> {
    match longest_checksum(ws_tokens(body)) {
        Some(v) => Some(ShaView { value: v, sha_type: algo }),
        None => None,
    }
}

proof fn lemma_ws_tokens_single(t: Seq<char>)
    requires
        t.len() > 0,
        forall|i: int| 0 <= i < t.len() ==> !is_whitespace(#[trigger] t[i]),
    ensures
        ws_tokens(t) == seq![t],
    decreases t.len(),
{
    if t.len() == 1 {
        assert(t.drop_last() =~= Seq::<char>::empty());
        assert(ws_tokens(t.drop_last()) == Seq::<Seq<char>>::empty());
        assert(!is_whitespace(t[0]));
        assert(t =~= seq![t.last()]);
        assert(ws_tokens(t) == Seq::<Seq<char>>::empty().push(seq![t.last()]));
        assert(Seq::<Seq<char>>::empty().push(seq![t.last()]) =~= seq![t]);
    } else {
        let u = t.drop_last();
        assert forall|i: int| 0 <= i < u.len() implies !is_whitespace(#[trigger] u[i]) by {
            assert(u[i] == t[i]);
        }
        lemma_ws_tokens_single(u);
        assert(!is_whitespace(t[t.len() - 2]));
        assert(!is_whitespace(t.last()));
        assert(u.push(t.last()) =~= t);
        assert(ws_tokens(t) == seq![u].update(0, u.push(t.last())));
        assert(seq![u].update(0, u.push(t.last())) =~= seq![t]);
    }
}

/// A checksum file whose body is one token of at least 64 hexadecimal digits
/// (`0`–`9`, `a`–`f`, `A`–`F`) gives exactly that token as the checksum.
pub proof fn lemma_parse_sha_hex_token(t: Seq<char>, algo: Seq<char>)
    requires
        t.len() >= 64,
        forall|i: int| 0 <= i < t.len() ==> ('0' <= #[trigger] t[i] <= '9' || 'a' <= t[i] <= 'f' || 'A' <= t[i]
            <= 'F'),
    ensures
        parse_sha_spec(t, algo) == Some(ShaView { value: t, sha_type: algo }),
{
    assert forall|i: int| 0 <= i < t.len() implies !is_whitespace(#[trigger] t[i]) by {
        assert('0' <= t[i] <= '9' || 'a' <= t[i] <= 'f' || 'A' <= t[i] <= 'F');
    }
    lemma_ws_tokens_single(t);
    let toks = ws_tokens(t);
    assert(toks.drop_last() =~= Seq::<Seq<char>>::empty());
    assert(longest_checksum(toks.drop_last()) is None);
    assert(toks.last() == t);
    assert(is_checksum_token(t)) by {
        assert forall|i: int| 0 <= i < t.len() implies is_hex_digit(#[trigger] t[i]) by {
            assert('0' <= t[i] <= '9' || 'a' <= t[i] <= 'f' || 'A' <= t[i] <= 'F');
        }
    }
}

proof fn lemma_longest_checksum_is_token(tokens: Seq<Seq<char>>)
    ensures
        longest_checksum(tokens) matches Some(v) ==> is_checksum_token(v),
    decreases tokens.len(),
{
    if tokens.len() > 0 {
        lemma_longest_checksum_is_token(tokens.drop_last());
    }
}

/// A checksum found in a checksum file has at least 64 characters, all of
/// them hexadecimal digits, and carries the algorithm it was read for.
pub proof fn lemma_parse_sha_result(body: Seq<char>, algo: Seq<char>)
    ensures
        parse_sha_spec(body, algo) matches Some(s) ==> s.value.len() >= 64 && s.sha_type == algo && forall|i: int|
            0 <= i < s.value.len() ==> ('0' <= #[trigger] s.value[i] <= '9' || 'a' <= s.value[i] <= 'f' || 'A'
                <= s.value[i] <= 'F'),
{
    lemma_longest_checksum_is_token(ws_tokens(body));
    if let Some(s) = parse_sha_spec(body, algo) {
        assert forall|i: int| 0 <= i < s.value.len() implies ('0' <= #[trigger] s.value[i] <= '9' || 'a' <= s.value[i]
            <= 'f' || 'A' <= s.value[i] <= 'F') by {
            assert(is_hex_digit(s.value[i]));
        }
    }
}

/// Whether `v[lo..hi]` is a checksum token.
fn checksum_token_at(v: &Vec<char>, lo: usize, hi: usize) -> (r: bool)
    requires
        lo <= hi <= v@.len(),
    ensures
        r == is_checksum_token(v@.subrange(lo as int, hi as int)),
{
    let ghost t = v@.subrange(lo as int, hi as int);
    if hi - lo < 64 {
        return false;
    }
    let mut i = lo;
    while i < hi
        invariant
            lo <= i <= hi <= v@.len(),
            t == v@.subrange(lo as int, hi as int),
            forall|k: int| 0 <= k < i - lo ==> is_hex_digit(#[trigger] t[k]),
        decreases hi - i,
    {
        let c = v[i];
        if !(('0' <= c && c <= '9') || ('a' <= c && c <= 'f') || ('A' <= c && c <= 'F')) {
            assert(t[i - lo] == c);
            return false;
        }
        i = i + 1;
    }
    true
}

/// The token `v[lo..hi]` becomes the best so far if it is a checksum token at
/// least as long as the current best.
fn consider_token(v: &Vec<char>, lo: usize, hi: usize, best: Option<(usize, usize)>) -> (r: Option<(usize, usize)>)
    requires
        lo <= hi <= v@.len(),
        best matches Some(b) ==> b.0 <= b.1 <= v@.len(),
    ensures
        r matches Some(b) ==> b.0 <= b.1 <= v@.len(),
        range_view(v@, r) == (if is_checksum_token(v@.subrange(lo as int, hi as int)) && (range_view(v@, best) is None
            || hi - lo >= range_view(v@, best)->0.len()) {
            Some(v@.subrange(lo as int, hi as int))
        } else {
            range_view(v@, best)
        }),
{
    if checksum_token_at(v, lo, hi) {
        match best {
            None => Some((lo, hi)),
            Some((a, b)) => if hi - lo >= b - a {
                Some((lo, hi))
            } else {
                best
            },
        }
    } else {
        best
    }
}

/// The characters an optional index range of `v` covers.
pub open spec fn range_view(v: Seq<char>, r: Option<(usize, usize)>) -> Option<Seq<char>> {
    match r {
        Some(b) => Some(v.subrange(b.0 as int, b.1 as int)),
        None => None,
    }
}

/// The checksum in the body of a checksum file: the longest whitespace-free
/// token of at least 64 hexadecimal digits (the last one among equals).
pub fn parse_sha(body: &str, algo: &str) -> (r: Option<ShaInfo>)
    ensures
        crate::candidates::sha_view(r) == parse_sha_spec(body@, algo@),
{
    let v = chars_of(body);
    let mut best: Option<(usize, usize)> = None;
    let mut in_token = false;
    let mut start: usize = 0;
    let mut j: usize = 0;
    assert(v@.take(0) =~= Seq::<char>::empty());
    while j < v.len()
        invariant
            v@ == body@,
            j <= v@.len(),
            start <= j,
            best matches Some(b) ==> b.0 <= b.1 <= v@.len(),
            in_token == (j > 0 && !is_whitespace(v@[j - 1])),
            in_token ==> ws_tokens(v@.take(j as int)).len() > 0 && ws_tokens(v@.take(j as int)).last()
                == v@.subrange(start as int, j as int) && range_view(v@, best) == longest_checksum(
                ws_tokens(v@.take(j as int)).drop_last(),
            ),
            !in_token ==> range_view(v@, best) == longest_checksum(ws_tokens(v@.take(j as int))),
        decreases v@.len() - j,
    {
        let ghost s1 = v@.take(j + 1);
        let ghost t0 = ws_tokens(v@.take(j as int));
        assert(s1.drop_last() =~= v@.take(j as int));
        assert(s1.last() == v@[j as int]);
        let c = v[j];
        if is_whitespace_char(c) {
            if in_token {
                best = consider_token(&v, start, j, best);
                assert(t0 =~= t0.drop_last().push(t0.last()));
            }
            in_token = false;
        } else if in_token {
            assert(ws_tokens(s1).drop_last() =~= t0.drop_last());
            assert(v@.subrange(start as int, j + 1) =~= v@.subrange(start as int, j as int).push(c));
        } else {
            start = j;
            in_token = true;
            assert(ws_tokens(s1).drop_last() =~= t0);
            assert(v@.subrange(start as int, j + 1) =~= seq![c]);
        }
        j = j + 1;
    }
    assert(v@.take(v@.len() as int) =~= v@);
    if in_token {
        let ghost t0 = ws_tokens(v@);
        assert(t0 =~= t0.drop_last().push(t0.last()));
        best = consider_token(&v, start, v.len(), best);
    }
    match best {
        Some((a, b)) => Some(ShaInfo { value: string_from_range(&v, a, b), sha_type: owned(algo) }),
        None => None,
    }
}


/// What to do about the checksum of one version.
pub enum ChecksumStep {
    /// Keep the checksum an earlier run recorded.
    Reuse(ShaInfo),
    /// Record no checksum.
    Omit,
    /// Fetch the checksum from upstream.
    Fetch,
}

/// A checksum step as character sequences.
pub enum StepView {
    Reuse(ShaView),
    Omit,
    Fetch,
}

impl View for ChecksumStep {
    type V = StepView;

    open spec fn view(&self) -> StepView {
        match self {
            ChecksumStep::Reuse(s) => StepView::Reuse(s@),
            ChecksumStep::Omit => StepView::Omit,
            ChecksumStep::Fetch => StepView::Fetch,
        }
    }
}

/// `s` ends with `t`.
pub open spec fn ends_with(s: Seq<char>, t: Seq<char>) -> bool {
    t.len() <= s.len() && s.subrange(s.len() - t.len(), s.len() as int) == t
}

/// An earlier entry describes the download of `version` at `path`: same
/// version, and its path is `path` or ends with it.
pub open spec fn same_download(e: EntryView, version: Seq<char>, path: Seq<char>) -> bool {
    e.version == version && (e.path == path || ends_with(e.path, path))
}

/// The first earlier entry, from index `i` on, for the download of `version`
/// at `path`.
pub open spec fn first_same_download(prev: Seq<EntryView>, version: Seq<char>, path: Seq<char>, i: int) -> Option<int>
    decreases prev.len() - i,
{
    if i < 0 || i >= prev.len() {
        None
    } else if same_download(prev[i], version, path) {
        Some(i)
    } else {
        first_same_download(prev, version, path, i + 1)
    }
}

/// The checksum of the first earlier entry for the same download, if that
/// entry has one.
pub open spec fn reusable_sha(prev: Seq<EntryView>, version: Seq<char>, path: Seq<char>) -> Option<ShaView> {
    match first_same_download(prev, version, path, 0) {
        Some(i) => prev[i].sha,
        None => None,
    }
}

/// The checksum step of the version at `index` (from the newest) of an
/// Apache-hosted candidate: the newest `RECENT_CHECKSUM_WINDOW` versions are
/// always fetched again; an older version keeps the checksum an earlier run
/// recorded for the same download, stays without one when that run recorded
/// none, and is fetched when no earlier run listed it.
pub open spec fn apache_step(prev: Seq<EntryView>, version: Seq<char>, path: Seq<char>, index: int) -> StepView {
    if index < RECENT_CHECKSUM_WINDOW {
        StepView::Fetch
    } else {
        match first_same_download(prev, version, path, 0) {
            Some(i) => match prev[i].sha {
                Some(s) => StepView::Reuse(s),
                None => StepView::Omit,
            },
            None => StepView::Fetch,
        }
    }
}

/// The checksum policy of the Apache-hosted candidates: without earlier data
/// every checksum is fetched; the newest `RECENT_CHECKSUM_WINDOW` versions are
/// always refreshed; an older version keeps a checksum recorded for the same
/// download; a checksum is left out only for an older version that an
/// earlier run listed without one; and a checksum is reused only for an older
/// version, from the earlier entry of the same download.
pub proof fn lemma_apache_checksum_policy(prev: Seq<EntryView>, version: Seq<char>, path: Seq<char>, index: int)
    ensures
        prev.len() == 0 ==> apache_step(prev, version, path, index) == StepView::Fetch,
        index < RECENT_CHECKSUM_WINDOW ==> apache_step(prev, version, path, index) == StepView::Fetch,
        index >= RECENT_CHECKSUM_WINDOW ==> (reusable_sha(prev, version, path) matches Some(s)
            ==> apache_step(prev, version, path, index) == StepView::Reuse(s)),
        first_same_download(prev, version, path, 0) is None ==> apache_step(prev, version, path, index)
            == StepView::Fetch,
        apache_step(prev, version, path, index) == StepView::Omit ==> index >= RECENT_CHECKSUM_WINDOW
            && first_same_download(prev, version, path, 0) is Some && reusable_sha(prev, version, path) is None,
        apache_step(prev, version, path, index) matches StepView::Reuse(s) ==> index >= RECENT_CHECKSUM_WINDOW
            && reusable_sha(prev, version, path) == Some(s),
{
}

proof fn lemma_first_same_download_at(entries: Seq<EntryView>, k: int, i: int)
    requires
        0 <= i <= k < entries.len(),
        forall|a: int, b: int| 0 <= a < b < entries.len() ==> entries[a].version != entries[b].version,
    ensures
        first_same_download(entries, entries[k].version, entries[k].path, i) == Some(k),
    decreases k - i,
{
    if i < k {
        assert(entries[i].version != entries[k].version);
        lemma_first_same_download_at(entries, k, i + 1);
    }
}

/// Run again with an earlier run's entries as the earlier data, for the same
/// versions and paths (each version once), every checksum that run recorded
/// for a version outside the recent window is kept and not fetched again.
pub proof fn lemma_rerun_keeps_checksums(entries: Seq<EntryView>, k: int, index: int)
    requires
        0 <= k < entries.len(),
        index >= RECENT_CHECKSUM_WINDOW,
        forall|a: int, b: int| 0 <= a < b < entries.len() ==> entries[a].version != entries[b].version,
        entries[k].sha is Some,
    ensures
        apache_step(entries, entries[k].version, entries[k].path, index) == StepView::Reuse(
            entries[k].sha->0,
        ),
{
    lemma_first_same_download_at(entries, k, 0);
}

/// `a == b` for string slices.
pub fn str_equal(a: &str, b: &str) -> (r: bool)
    ensures
        r == (a@ == b@),
{
    let x = chars_of(a);
    let y = chars_of(b);
    if x.len() != y.len() {
        return false;
    }
    let mut i: usize = 0;
    while i < x.len()
        invariant
            x@ == a@,
            y@ == b@,
            x@.len() == y@.len(),
            i <= x@.len(),
            forall|k: int| 0 <= k < i ==> x@[k] == y@[k],
        decreases x@.len() - i,
    {
        if x[i] != y[i] {
            return false;
        }
        i = i + 1;
    }
    assert(x@ =~= y@);
    true
}

/// `s.ends_with(t)`.
pub fn str_ends_with(s: &str, t: &str) -> (r: bool)
    ensures
        r == ends_with(s@, t@),
{
    let x = chars_of(s);
    let y = chars_of(t);
    if y.len() > x.len() {
        return false;
    }
    let off = x.len() - y.len();
    let mut i: usize = 0;
    while i < y.len()
        invariant
            x@ == s@,
            y@ == t@,
            off + y@.len() == x.len(),
            i <= y@.len(),
            forall|k: int| 0 <= k < i ==> x@[off + k] == y@[k],
        decreases y@.len() - i,
    {
        if x[off + i] != y[i] {
            assert(x@.subrange(off as int, x@.len() as int)[i as int] == x@[off + i]);
            return false;
        }
        i = i + 1;
    }
    assert(x@.subrange(off as int, x@.len() as int) =~= y@);
    true
}

/// The checksum step of one version of an Apache-hosted candidate.
pub fn checksum_step(previous: &Vec<VersionEntry>, version: &str, path: &str, index: usize) -> (r: ChecksumStep)
    ensures
        r@ == apache_step(entry_views(previous@), version@, path@, index as int),
{
    if index < RECENT_CHECKSUM_WINDOW {
        return ChecksumStep::Fetch;
    }
    let ghost pv = entry_views(previous@);
    let mut i: usize = 0;
    while i < previous.len()
        invariant
            pv == entry_views(previous@),
            i <= previous@.len(),
            first_same_download(pv, version@, path@, 0) == first_same_download(pv, version@, path@, i as int),
            index >= RECENT_CHECKSUM_WINDOW,
        decreases previous@.len() - i,
    {
        let e = &previous[i];
        if str_equal(e.version.as_str(), version) && (str_equal(e.path.as_str(), path) || str_ends_with(e.path.as_str(), path)) {
            assert(same_download(pv[i as int], version@, path@));
            return match &e.sha {
                Some(s) => ChecksumStep::Reuse(s.duplicate()),
                None => ChecksumStep::Omit,
            };
        }
        i = i + 1;
    }
    ChecksumStep::Fetch
}

/// The checksum steps of the versions of an Apache-hosted candidate, newest
/// first, given the download path of each.
pub fn plan_checksums(previous: &Vec<VersionEntry>, versions: &Vec<String>, paths: &Vec<String>) -> (r: Vec<ChecksumStep>)
    requires
        versions@.len() == paths@.len(),
    ensures
        r@.len() == versions@.len(),
        forall|k: int| 0 <= k < r@.len() ==> (#[trigger] r@[k])@ == apache_step(
            entry_views(previous@),
            versions@[k]@,
            paths@[k]@,
            k,
        ),
{
    let mut out: Vec<ChecksumStep> = Vec::new();
    let mut k: usize = 0;
    while k < versions.len()
        invariant
            versions@.len() == paths@.len(),
            k <= versions@.len(),
            out@.len() == k,
            forall|m: int| 0 <= m < k ==> (#[trigger] out@[m])@ == apache_step(
                entry_views(previous@),
                versions@[m]@,
                paths@[m]@,
                m,
            ),
        decreases versions@.len() - k,
    {
        out.push(checksum_step(previous, versions[k].as_str(), paths[k].as_str(), k));
        k = k + 1;
    }
    out
}

/// The entry of a version whose checksum step was `step`, where `fetched` is
/// what fetching the checksum gave (looked at only when the step is `Fetch`).
pub open spec fn entry_for_step(version: Seq<char>, path: Seq<char>, step: StepView, fetched: Option<ShaView>) -> EntryView {
    EntryView {
        version,
        path,
        sha: match step {
            StepView::Reuse(s) => Some(s),
            StepView::Omit => None,
            StepView::Fetch => fetched,
        },
    }
}

/// Builds the version entries from versions, paths, checksum steps and the
/// checksums fetched for the `Fetch` steps.
pub fn assemble_entries(
    versions: &Vec<String>,
    paths: &Vec<String>,
    steps: &Vec<ChecksumStep>,
    fetched: &Vec<Option<ShaInfo>>,
) -> (r: Vec<VersionEntry>)
    requires
        versions@.len() == paths@.len(),
        versions@.len() == steps@.len(),
        versions@.len() == fetched@.len(),
    ensures
        r@.len() == versions@.len(),
        forall|k: int| 0 <= k < r@.len() ==> (#[trigger] r@[k])@ == entry_for_step(
            versions@[k]@,
            paths@[k]@,
            steps@[k]@,
            crate::candidates::sha_view(fetched@[k]),
        ),
{
    let mut out: Vec<VersionEntry> = Vec::new();
    let mut k: usize = 0;
    while k < versions.len()
        invariant
            versions@.len() == paths@.len(),
            versions@.len() == steps@.len(),
            versions@.len() == fetched@.len(),
            k <= versions@.len(),
            out@.len() == k,
            forall|m: int| 0 <= m < k ==> (#[trigger] out@[m])@ == entry_for_step(
                versions@[m]@,
                paths@[m]@,
                steps@[m]@,
                crate::candidates::sha_view(fetched@[m]),
            ),
        decreases versions@.len() - k,
    {
        let sha = match &steps[k] {
            ChecksumStep::Reuse(s) => Some(s.duplicate()),
            ChecksumStep::Omit => None,
            ChecksumStep::Fetch => duplicate_sha(&fetched[k]),
        };
        out.push(VersionEntry { version: versions[k].clone(), path: paths[k].clone(), sha });
        k = k + 1;
    }
    out
}

} // verus!
