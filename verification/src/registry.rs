//! The registry run: the sources in the order they are processed, and what
//! is kept of each source's fetch.
use vstd::prelude::*;
use crate::candidates::{CandidateSource, MirrorMap, VersionEntry, mirror_view, lemma_mirrors_names};
use crate::candidates::gradle::Gradle;
use crate::candidates::hadoop::Hadoop;
use crate::candidates::jmeter::Jmeter;
use crate::candidates::kotlin::Kotlin;
use crate::candidates::maven::Maven;
use crate::candidates::tomcat::Tomcat;
use crate::candidates::apache::apache_mirror_pairs;
use crate::candidates::gradle::gradle_mirror_pairs;
use crate::candidates::kotlin::kotlin_mirror_pairs;
use crate::candidates::maven::maven_mirror_pairs;
use crate::sorted_map::{str_less, str_less_exec, lemma_str_order, pairs_to_map};

verus! {

/// One of the candidate sources.
#[derive(Debug, Clone, Copy, PartialEq, Eq, Structural)]
pub enum Source {
    Gradle,
    Hadoop,
    Jmeter,
    Kotlin,
    Maven,
    Tomcat,
}

/// The directory name of a source.
pub open spec fn source_dir(s: Source) -> Seq<char> {
    match s {
        Source::Gradle => "gradle"@,
        Source::Hadoop => "hadoop"@,
        Source::Jmeter => "jmeter"@,
        Source::Kotlin => "kotlin"@,
        Source::Maven => "maven"@,
        Source::Tomcat => "tomcat"@,
    }
}

/// The display name of a source.
pub open spec fn source_display(s: Source) -> Seq<char> {
    match s {
        Source::Gradle => "Gradle"@,
        Source::Hadoop => "Hadoop"@,
        Source::Jmeter => "JMeter"@,
        Source::Kotlin => "Kotlin"@,
        Source::Maven => "Maven"@,
        Source::Tomcat => "Tomcat"@,
    }
}

/// The mirrors of a source.
pub open spec fn source_mirrors(s: Source) -> Map<Seq<char>, Seq<char>> {
    match s {
        Source::Gradle => pairs_to_map(gradle_mirror_pairs()),
        Source::Hadoop => pairs_to_map(apache_mirror_pairs("/hadoop/common"@)),
        Source::Jmeter => pairs_to_map(apache_mirror_pairs("/jmeter/binaries"@)),
        Source::Kotlin => pairs_to_map(kotlin_mirror_pairs()),
        Source::Maven => pairs_to_map(maven_mirror_pairs()),
        Source::Tomcat => pairs_to_map(apache_mirror_pairs("/tomcat"@)),
    }
}

/// The sanity floor of a source.
pub open spec fn source_minimum(s: Source) -> usize {
    match s {
        Source::Gradle => 100,
        Source::Hadoop => 100,
        Source::Jmeter => 20,
        Source::Kotlin => 20,
        Source::Maven => 20,
        Source::Tomcat => 300,
    }
}

impl CandidateSource for Source {
    fn dir_name(&self) -> (r: &'static str)
        ensures
            r@ == source_dir(*self),
    {
        match self {
            Source::Gradle => Gradle.dir_name(),
            Source::Hadoop => Hadoop.dir_name(),
            Source::Jmeter => Jmeter.dir_name(),
            Source::Kotlin => Kotlin.dir_name(),
            Source::Maven => Maven.dir_name(),
            Source::Tomcat => Tomcat.dir_name(),
        }
    }

    fn display(&self) -> (r: &'static str)
        ensures
            r@ == source_display(*self),
    {
        match self {
            Source::Gradle => Gradle.display(),
            Source::Hadoop => Hadoop.display(),
            Source::Jmeter => Jmeter.display(),
            Source::Kotlin => Kotlin.display(),
            Source::Maven => Maven.display(),
            Source::Tomcat => Tomcat.display(),
        }
    }

    fn mirrors(&self) -> (r: MirrorMap)
        ensures
            mirror_view(r) == source_mirrors(*self),
    {
        match self {
            Source::Gradle => Gradle.mirrors(),
            Source::Hadoop => Hadoop.mirrors(),
            Source::Jmeter => Jmeter.mirrors(),
            Source::Kotlin => Kotlin.mirrors(),
            Source::Maven => Maven.mirrors(),
            Source::Tomcat => Tomcat.mirrors(),
        }
    }

    fn minimum_versions(&self) -> (r: usize)
        ensures
            r == source_minimum(*self),
    {
        match self {
            Source::Gradle => Gradle.minimum_versions(),
            Source::Hadoop => Hadoop.minimum_versions(),
            Source::Jmeter => Jmeter.minimum_versions(),
            Source::Kotlin => Kotlin.minimum_versions(),
            Source::Maven => Maven.minimum_versions(),
            Source::Tomcat => Tomcat.minimum_versions(),
        }
    }
}

/// `s` with ASCII capitals in lower case (`str::to_lowercase` on ASCII text).
pub open spec fn ascii_lowercase(s: Seq<char>) -> Seq<char> {
    s.map_values(|c: char| if 'A' <= c <= 'Z' { ((c as u32) + 32) as char } else { c })
}

/// What holds of every source: its directory name is its display name in
/// lower case, it has an `official` mirror, and its sanity floor is at
/// least 1.
pub proof fn lemma_source_facts(s: Source)
    ensures
        source_dir(s) == ascii_lowercase(source_display(s)),
        source_mirrors(s).contains_key("official"@),
        source_minimum(s) >= 1,
{
    reveal_strlit("gradle");
    reveal_strlit("hadoop");
    reveal_strlit("jmeter");
    reveal_strlit("kotlin");
    reveal_strlit("maven");
    reveal_strlit("tomcat");
    reveal_strlit("Gradle");
    reveal_strlit("Hadoop");
    reveal_strlit("JMeter");
    reveal_strlit("Kotlin");
    reveal_strlit("Maven");
    reveal_strlit("Tomcat");
    assert(source_dir(s) =~= ascii_lowercase(source_display(s)));
    let pairs = match s {
        Source::Gradle => gradle_mirror_pairs(),
        Source::Hadoop => apache_mirror_pairs("/hadoop/common"@),
        Source::Jmeter => apache_mirror_pairs("/jmeter/binaries"@),
        Source::Kotlin => kotlin_mirror_pairs(),
        Source::Maven => maven_mirror_pairs(),
        Source::Tomcat => apache_mirror_pairs("/tomcat"@),
    };
    assert(pairs[0].0 == "official"@);
    lemma_mirrors_names(pairs, "official"@);
}

/// Two sources with the same directory name are the same source.
pub proof fn lemma_source_dir_injective(a: Source, b: Source)
    ensures
        source_dir(a) == source_dir(b) ==> a == b,
{
    reveal_strlit("gradle");
    reveal_strlit("hadoop");
    reveal_strlit("jmeter");
    reveal_strlit("kotlin");
    reveal_strlit("maven");
    reveal_strlit("tomcat");
    if source_dir(a) == source_dir(b) {
        assert(source_dir(a)[0] == source_dir(b)[0]);
    }
}

/// The position of a source in the listing.
spec fn listed_rank(s: Source) -> int {
    match s {
        Source::Gradle => 0,
        Source::Hadoop => 1,
        Source::Jmeter => 2,
        Source::Kotlin => 3,
        Source::Maven => 4,
        Source::Tomcat => 5,
    }
}

/// A listed source: its label is its display name, and the facts of
/// `lemma_source_facts` hold of it.
pub open spec fn source_entry_ok(e: (&'static str, Source)) -> bool {
    &&& e.0@ == source_display(e.1)
    &&& source_dir(e.1) == ascii_lowercase(source_display(e.1))
    &&& source_mirrors(e.1).contains_key("official"@)
    &&& source_minimum(e.1) >= 1
}

proof fn lemma_listed(j: int)
    requires
        0 <= j < 6,
    ensures
        listed_rank(listed_sources()[j].1) == j,
        source_entry_ok(listed_sources()[j]),
{
    let l = listed_sources();
    lemma_source_facts(l[j].1);
    assert(l[0].0@ == source_display(l[0].1));
    assert(l[1].0@ == source_display(l[1].1));
    assert(l[2].0@ == source_display(l[2].1));
    assert(l[3].0@ == source_display(l[3].1));
    assert(l[4].0@ == source_display(l[4].1));
    assert(l[5].0@ == source_display(l[5].1));
}

/// `u` contains `d` as a run of consecutive characters.
pub open spec fn mentions(u: Seq<char>, d: Seq<char>) -> bool {
    exists|k: int| 0 <= k && k + d.len() <= u.len() && #[trigger] u.subrange(k, k + d.len()) == d
}

proof fn lemma_mentions_at(u: Seq<char>, d: Seq<char>, k: int)
    requires
        0 <= k,
        k + d.len() <= u.len(),
        u.subrange(k, k + d.len()) =~= d,
    ensures
        mentions(u, d),
{
}

proof fn lemma_pairs_mention(pairs: Seq<(Seq<char>, Seq<char>)>, d: Seq<char>)
    requires
        forall|i: int| 0 <= i < pairs.len() ==> mentions(#[trigger] pairs[i].1, d),
    ensures
        forall|m: Seq<char>| #[trigger] pairs_to_map(pairs).contains_key(m) ==> mentions(pairs_to_map(pairs)[m], d),
    decreases pairs.len(),
{
    if pairs.len() > 0 {
        let p0 = pairs.drop_last();
        assert forall|i: int| 0 <= i < p0.len() implies mentions(#[trigger] p0[i].1, d) by {
            assert(p0[i] == pairs[i]);
        }
        lemma_pairs_mention(p0, d);
        let last = pairs[pairs.len() - 1];
        assert(mentions(last.1, d));
        assert(pairs_to_map(pairs) == pairs_to_map(p0).insert(last.0, last.1));
        assert forall|m: Seq<char>| #[trigger] pairs_to_map(pairs).contains_key(m) implies mentions(
            pairs_to_map(pairs)[m],
            d,
        ) by {
            if m != last.0 {
                assert(pairs_to_map(p0).contains_key(m));
            }
        }
    }
}

proof fn lemma_apache_mirrors_mention(prefix: Seq<char>, d: Seq<char>)
    requires
        1 + d.len() <= prefix.len(),
        prefix.subrange(1, 1 + d.len() as int) =~= d,
    ensures
        forall|i: int| 0 <= i < apache_mirror_pairs(prefix).len() ==> mentions(
            #[trigger] apache_mirror_pairs(prefix)[i].1,
            d,
        ),
{
    let pairs = apache_mirror_pairs(prefix);
    assert forall|i: int| 0 <= i < pairs.len() implies mentions(#[trigger] pairs[i].1, d) by {
        let u = pairs[i].1;
        let base = u.take(u.len() - prefix.len());
        assert(u.skip(u.len() - prefix.len()) =~= prefix);
        let k: int = base.len() as int + 1;
        assert(u.subrange(k, k + d.len()) =~= prefix.subrange(1, 1 + d.len() as int));
        lemma_mentions_at(u, d, k);
    }
}

/// Every mirror URL of a source names the source's directory (Hadoop's
/// mirrors point at `…/hadoop/common`, Maven's at `…/maven`, and so on), so
/// no source is given another source's mirrors.
pub proof fn lemma_source_mirrors_name_source(s: Source)
    ensures
        forall|m: Seq<char>| #[trigger] source_mirrors(s).contains_key(m) ==> mentions(
            source_mirrors(s)[m],
            source_dir(s),
        ),
{
    reveal_strlit("gradle");
    reveal_strlit("hadoop");
    reveal_strlit("jmeter");
    reveal_strlit("kotlin");
    reveal_strlit("maven");
    reveal_strlit("tomcat");
    match s {
        Source::Gradle => {
            let p = gradle_mirror_pairs();
            reveal_strlit("https://services.gradle.org/distributions");
            reveal_strlit("https://repo.huaweicloud.com/gradle");
            reveal_strlit("https://mirrors.cloud.tencent.com/gradle");
            lemma_mentions_at(p[0].1, "gradle"@, 17);
            lemma_mentions_at(p[1].1, "gradle"@, p[1].1.len() - 6);
            lemma_mentions_at(p[2].1, "gradle"@, p[2].1.len() - 6);
            lemma_pairs_mention(p, "gradle"@);
        },
        Source::Hadoop => {
            reveal_strlit("/hadoop/common");
            lemma_apache_mirrors_mention("/hadoop/common"@, "hadoop"@);
            lemma_pairs_mention(apache_mirror_pairs("/hadoop/common"@), "hadoop"@);
        },
        Source::Jmeter => {
            reveal_strlit("/jmeter/binaries");
            lemma_apache_mirrors_mention("/jmeter/binaries"@, "jmeter"@);
            lemma_pairs_mention(apache_mirror_pairs("/jmeter/binaries"@), "jmeter"@);
        },
        Source::Kotlin => {
            let p = kotlin_mirror_pairs();
            reveal_strlit("https://github.com/JetBrains/kotlin/releases/download");
            lemma_mentions_at(p[0].1, "kotlin"@, 29);
            lemma_pairs_mention(p, "kotlin"@);
        },
        Source::Maven => {
            let p = maven_mirror_pairs();
            reveal_strlit("https://archive.apache.org/dist/maven");
            reveal_strlit("https://repo.huaweicloud.com/apache/maven");
            reveal_strlit("https://mirrors.cloud.tencent.com/apache/maven");
            reveal_strlit("https://mirrors.tuna.tsinghua.edu.cn/apache/maven");
            reveal_strlit("https://mirrors.ustc.edu.cn/apache/maven");
            lemma_mentions_at(p[0].1, "maven"@, p[0].1.len() - 5);
            lemma_mentions_at(p[1].1, "maven"@, p[1].1.len() - 5);
            lemma_mentions_at(p[2].1, "maven"@, p[2].1.len() - 5);
            lemma_mentions_at(p[3].1, "maven"@, p[3].1.len() - 5);
            lemma_mentions_at(p[4].1, "maven"@, p[4].1.len() - 5);
            lemma_pairs_mention(p, "maven"@);
        },
        Source::Tomcat => {
            reveal_strlit("/tomcat");
            lemma_apache_mirrors_mention("/tomcat"@, "tomcat"@);
            lemma_pairs_mention(apache_mirror_pairs("/tomcat"@), "tomcat"@);
        },
    }
}

/// The sources with their labels, as listed before sorting.
pub open spec fn listed_sources() -> Seq<(&'static str, Source)> {
    seq![
        ("Gradle", Source::Gradle),
        ("Hadoop", Source::Hadoop),
        ("JMeter", Source::Jmeter),
        ("Kotlin", Source::Kotlin),
        ("Maven", Source::Maven),
        ("Tomcat", Source::Tomcat),
    ]
}

/// The sources with their labels, sorted by directory name: each source
/// once, labelled with its display name, with its directory name the display
/// name in lower case, an `official` mirror and a sanity floor of at least 1;
/// directory names strictly increase.
pub fn sources() -> (r: Vec<(&'static str, Source)>)
    ensures
        r@.to_multiset() == listed_sources().to_multiset(),
        forall|k: int| 0 <= k < r@.len() ==> source_entry_ok(#[trigger] r@[k]),
        forall|p: int, q: int| 0 <= p < q < r@.len() ==> str_less(
            source_dir(#[trigger] r@[p].1),
            source_dir(#[trigger] r@[q].1),
        ),
{
    let listed = vec![
        ("Gradle", Source::Gradle),
        ("Hadoop", Source::Hadoop),
        ("JMeter", Source::Jmeter),
        ("Kotlin", Source::Kotlin),
        ("Maven", Source::Maven),
        ("Tomcat", Source::Tomcat),
    ];
    assert(listed@ =~= listed_sources());
    let mut out: Vec<(&'static str, Source)> = Vec::new();
    let mut i: usize = 0;
    assert(listed@.take(0) =~= Seq::<(&'static str, Source)>::empty());
    while i < listed.len()
        invariant
            listed@ == listed_sources(),
            i <= listed@.len(),
            out@.to_multiset() == listed@.take(i as int).to_multiset(),
            forall|k: int| 0 <= k < out@.len() ==> source_entry_ok(#[trigger] out@[k]),
            forall|k: int| 0 <= k < out@.len() ==> listed_rank(#[trigger] out@[k].1) < i,
            forall|p: int, q: int| 0 <= p < q < out@.len() ==> str_less(
                source_dir(#[trigger] out@[p].1),
                source_dir(#[trigger] out@[q].1),
            ),
        decreases listed@.len() - i,
    {
        let item = listed[i];
        proof {
            lemma_listed(i as int);
        }
        let key = item.1.dir_name();
        let mut pos: usize = 0;
        while pos < out.len() && !str_less_exec(key, out[pos].1.dir_name())
            invariant
                pos <= out@.len(),
                key@ == source_dir(item.1),
                forall|k: int| 0 <= k < pos ==> !str_less(key@, source_dir(#[trigger] out@[k].1)),
            decreases out@.len() - pos,
        {
            pos = pos + 1;
        }
        let ghost old_out = out@;
        proof {
            assert forall|k: int| 0 <= k < pos implies str_less(source_dir(#[trigger] old_out[k].1), key@) by {
                lemma_str_order(key@, source_dir(old_out[k].1), key@);
                lemma_source_dir_injective(item.1, old_out[k].1);
                assert(listed_rank(old_out[k].1) < i);
            }
        }
        out.insert(pos, item);
        proof {
            vstd::seq_lib::to_multiset_insert(old_out, pos as int, item);
            let t1 = listed@.take(i + 1);
            assert(t1 =~= listed@.take(i as int).push(item));
            vstd::seq_lib::to_multiset_build(listed@.take(i as int), item);
            assert forall|k: int| 0 <= k < out@.len() implies source_entry_ok(#[trigger] out@[k])
                && listed_rank(out@[k].1) < i + 1 by {
                if k < pos {
                    assert(out@[k] == old_out[k]);
                } else if k > pos {
                    assert(out@[k] == old_out[k - 1]);
                }
            }
            assert forall|p: int, q: int| 0 <= p < q < out@.len() implies str_less(
                source_dir(#[trigger] out@[p].1),
                source_dir(#[trigger] out@[q].1),
            ) by {
                if q < pos {
                    assert(out@[p] == old_out[p] && out@[q] == old_out[q]);
                } else if q == pos {
                    assert(out@[p] == old_out[p]);
                } else if p < pos {
                    assert(out@[p] == old_out[p] && out@[q] == old_out[q - 1]);
                    lemma_str_order(source_dir(old_out[p].1), key@, source_dir(old_out[pos as int].1));
                    if pos < q - 1 {
                        lemma_str_order(source_dir(old_out[p].1), source_dir(old_out[pos as int].1), source_dir(old_out[q - 1].1));
                    }
                } else if p == pos {
                    assert(out@[q] == old_out[q - 1]);
                    lemma_str_order(key@, source_dir(old_out[pos as int].1), source_dir(old_out[q - 1].1));
                    if pos < q - 1 {
                        assert(str_less(source_dir(old_out[pos as int].1), source_dir(old_out[q - 1].1)));
                    }
                } else {
                    assert(out@[p] == old_out[p - 1] && out@[q] == old_out[q - 1]);
                }
            }
        }
        i = i + 1;
    }
    assert(listed@.take(listed@.len() as int) =~= listed@);
    out
}

/// Why a source's versions are not used.
#[derive(Debug, Clone, Copy, PartialEq, Eq, Structural)]
pub enum SettleError {
    /// Fetching failed and there is no earlier data to fall back on.
    FetchFailed,
    /// Fewer versions than the source's sanity floor.
    TooFew { count: usize, minimum: usize },
}

/// The versions kept for a source, and whether they are the earlier data:
/// what the fetch gave, or, when it failed, the earlier data if there is
/// any; then at least `minimum` of them are required.
pub open spec fn settle_spec(
    fetched: Option<Seq<VersionEntry>>,
    previous: Seq<VersionEntry>,
    minimum: usize,
) -> Result<(Seq<VersionEntry>, bool), SettleError> {
    let chosen: Option<(Seq<VersionEntry>, bool)> = match fetched {
        Some(v) => Some((v, false)),
        None => if previous.len() > 0 {
            Some((previous, true))
        } else {
            None
        },
    };
    match chosen {
        None => Err(SettleError::FetchFailed),
        Some(c) => if c.0.len() < minimum {
            Err(SettleError::TooFew { count: c.0.len() as usize, minimum })
        } else {
            Ok(c)
        },
    }
}

/// What a run keeps of a source: a successful fetch is used as it is and is
/// never replaced by the earlier data (below the sanity floor it fails the
/// run with its own count); a failed fetch falls back on the earlier data,
/// and fails the run when there is none; whatever is kept meets the
/// source's sanity floor, and it is the earlier data exactly when the fetch
/// failed.
pub proof fn lemma_settle_policy(fetched: Option<Seq<VersionEntry>>, previous: Seq<VersionEntry>, minimum: usize)
    ensures
        match fetched {
            Some(v) => if v.len() >= minimum {
                settle_spec(fetched, previous, minimum) == Ok::<(Seq<VersionEntry>, bool), SettleError>((v, false))
            } else {
                match settle_spec(fetched, previous, minimum) {
                    Err(SettleError::TooFew { count, minimum: m }) => count == v.len() && m == minimum,
                    _ => false,
                }
            },
            None => if previous.len() == 0 {
                settle_spec(fetched, previous, minimum) == Err::<(Seq<VersionEntry>, bool), SettleError>(
                    SettleError::FetchFailed,
                )
            } else if previous.len() >= minimum {
                settle_spec(fetched, previous, minimum) == Ok::<(Seq<VersionEntry>, bool), SettleError>(
                    (previous, true),
                )
            } else {
                match settle_spec(fetched, previous, minimum) {
                    Err(SettleError::TooFew { count, minimum: m }) => count == previous.len() && m == minimum,
                    _ => false,
                }
            },
        },
        match settle_spec(fetched, previous, minimum) {
            Ok(c) => c.0.len() >= minimum && (c.1 <==> fetched is None),
            Err(_) => true,
        },
{
}

/// Settles a source's versions from the outcome of its fetch (`None` when it
/// failed), the versions of the earlier run and the source's sanity floor.
pub fn settle_versions(
    fetched: Option<Vec<VersionEntry>>,
    previous: Vec<VersionEntry>,
    minimum: usize,
) -> (r: Result<(Vec<VersionEntry>, bool), SettleError>)
    ensures
        match r {
            Ok((v, kept)) => settle_spec(
                match fetched {
                    Some(f) => Some(f@),
                    None => None,
                },
                previous@,
                minimum,
            ) == Ok::<(Seq<VersionEntry>, bool), SettleError>((v@, kept)),
            Err(e) => settle_spec(
                match fetched {
                    Some(f) => Some(f@),
                    None => None,
                },
                previous@,
                minimum,
            ) == Err::<(Seq<VersionEntry>, bool), SettleError>(e),
        },
{
    let (versions, kept) = match fetched {
        Some(v) => (v, false),
        None => {
            if previous.len() > 0 {
                (previous, true)
            } else {
                return Err(SettleError::FetchFailed);
            }
        },
    };
    if versions.len() < minimum {
        return Err(SettleError::TooFew { count: versions.len(), minimum });
    }
    Ok((versions, kept))
}

} // verus!
