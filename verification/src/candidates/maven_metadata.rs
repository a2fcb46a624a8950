//! The version list of a Maven `maven-metadata.xml` document.
use vstd::prelude::*;
use crate::text::{chars_of, chars_range, find_from, find_from_exec, lemma_find_from, occurs_at, trim, trimmed_range};
use crate::versioning::{sort_dedup, newest_first};
use crate::version_order::dedup_adjacent;

verus! {

/// `<versions>`
pub open spec fn versions_open() -> Seq<char> {
    seq!['<', 'v', 'e', 'r', 's', 'i', 'o', 'n', 's', '>']
}

/// `</versions>`
pub open spec fn versions_close() -> Seq<char> {
    seq!['<', '/', 'v', 'e', 'r', 's', 'i', 'o', 'n', 's', '>']
}

/// `<version>`
pub open spec fn version_open() -> Seq<char> {
    seq!['<', 'v', 'e', 'r', 's', 'i', 'o', 'n', '>']
}

/// `</version>`
pub open spec fn version_close() -> Seq<char> {
    seq!['<', '/', 'v', 'e', 'r', 's', 'i', 'o', 'n', '>']
}

/// The non-empty trimmed contents of the `<version>…</version>` elements of
/// `region` from index `p` on; a `<version>` without a closing tag ends the
/// list.
pub open spec fn version_items_from(region: Seq<char>, p: int) -> Seq<Seq<char>>
    decreases region.len() + 1 - p,
{
    match find_from(region, version_open(), p) {
        Some(t) => if p <= t && t + 9 <= region.len() {
            match find_from(region, version_close(), t + 9) {
                Some(e) => if t + 9 <= e && e + 10 <= region.len() {
                    let v = trim(region.subrange(t + 9, e));
                    let tail = version_items_from(region, e + 10);
                    if v.len() == 0 {
                        tail
                    } else {
                        seq![v] + tail
                    }
                } else {
                    Seq::empty()
                },
                None => Seq::empty(),
            }
        } else {
            Seq::empty()
        },
        None => Seq::empty(),
    }
}

/// The versions listed in a `maven-metadata.xml` document: the items of the
/// first `<versions>` element, in document order; none when the element is
/// missing or unclosed.
pub open spec fn parse_versions_spec(xml: Seq<char>) -> Seq<Seq<char>> {
    match find_from(xml, versions_open(), 0) {
        Some(s) => if 0 <= s && s + 10 <= xml.len() {
            match find_from(xml, versions_close(), s + 10) {
                Some(e) => if s + 10 <= e <= xml.len() {
                    version_items_from(xml.subrange(s + 10, e), 0)
                } else {
                    Seq::empty()
                },
                None => Seq::empty(),
            }
        } else {
            Seq::empty()
        },
        None => Seq::empty(),
    }
}

/// The versions listed in a `maven-metadata.xml` document.
pub fn parse_versions(xml: &str) -> (r: Vec<String>)
    ensures
        r.deep_view() == parse_versions_spec(xml@),
{
    let v = chars_of(xml);
    let vopen = vec!['<', 'v', 'e', 'r', 's', 'i', 'o', 'n', 's', '>'];
    let vclose = vec!['<', '/', 'v', 'e', 'r', 's', 'i', 'o', 'n', 's', '>'];
    let open = vec!['<', 'v', 'e', 'r', 's', 'i', 'o', 'n', '>'];
    let close = vec!['<', '/', 'v', 'e', 'r', 's', 'i', 'o', 'n', '>'];
    assert(vopen@ =~= versions_open());
    assert(vclose@ =~= versions_close());
    assert(open@ =~= version_open());
    assert(close@ =~= version_close());
    let n = v.len();
    let s = match find_from_exec(&v, &vopen, 0) {
        Some(s) => s,
        None => return Vec::new(),
    };
    proof {
        lemma_find_from(v@, versions_open(), 0);
        assert(occurs_at(v@, versions_open(), s as int));
    }
    let start = s + 10;
    let e = match find_from_exec(&v, &vclose, start) {
        Some(e) => e,
        None => return Vec::new(),
    };
    proof {
        lemma_find_from(v@, versions_close(), start as int);
        assert(occurs_at(v@, versions_close(), e as int));
    }
    let region = chars_range(&v, start, e);
    assert(version_items_from(region@, 0) == parse_versions_spec(xml@));
    let mut out: Vec<String> = Vec::new();
    let mut p: usize = 0;
    assert(out.deep_view() =~= Seq::<Seq<char>>::empty());
    loop
        invariant
            region@ == v@.subrange(start as int, e as int),
            version_items_from(region@, 0) == parse_versions_spec(xml@),
            open@ == version_open(),
            close@ == version_close(),
            p <= region@.len(),
            out.deep_view() + version_items_from(region@, p as int) == version_items_from(region@, 0),
        decreases region@.len() - p,
    {
        let rn = region.len();
        let t = match find_from_exec(&region, &open, p) {
            Some(t) => t,
            None => {
                assert(out.deep_view() + Seq::<Seq<char>>::empty() =~= out.deep_view());
                return out;
            },
        };
        proof {
            lemma_find_from(region@, version_open(), p as int);
            assert(occurs_at(region@, version_open(), t as int));
        }
        let cs = t + 9;
        let ce = match find_from_exec(&region, &close, cs) {
            Some(ce) => ce,
            None => {
                assert(out.deep_view() + Seq::<Seq<char>>::empty() =~= out.deep_view());
                return out;
            },
        };
        proof {
            lemma_find_from(region@, version_close(), cs as int);
            assert(occurs_at(region@, version_close(), ce as int));
        }
        let item = trimmed_range(&region, cs, ce);
        let ghost tail = version_items_from(region@, ce + 10);
        if item.as_str().unicode_len() > 0 {
            let ghost before = out.deep_view();
            out.push(item);
            assert(out.deep_view() =~= before.push(item@));
            assert(before + (seq![item@] + tail) =~= out.deep_view() + tail);
        } else {
            assert(item@.len() == 0);
        }
        p = ce + 10;
    }
}

/// The versions of a `maven-metadata.xml` document, sorted newest first
/// without adjacent repeats.
pub fn versions_from_metadata(xml: &str) -> (r: Vec<String>)
    ensures
        r.deep_view() == dedup_adjacent(newest_first(parse_versions_spec(xml@))),
{
    sort_dedup(parse_versions(xml))
}

} // verus!
