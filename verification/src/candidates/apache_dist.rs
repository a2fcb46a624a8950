//! Apache distribution directory listings: the `href` values of a listing,
//! the sub-directories with a given prefix, and the version directories.
use vstd::prelude::*;
use crate::text::{chars_of, find_from, find_from_exec, string_from_range, lemma_find_from, occurs_at};
use crate::candidates::{trim_end_char, trim_end_char_exec};
use crate::versioning::{version_like, is_version_like, sort_dedup, newest_first, lemma_sort_dedup};
use crate::version_order::{dedup_adjacent, lists};

verus! {

/// The text that opens an attribute value: `href="`.
pub open spec fn href_marker() -> Seq<char> {
    seq!['h', 'r', 'e', 'f', '=', '"']
}

/// The `href` values of `body` from the occurrences of `href="` at or after
/// `pos`: for each occurrence (searching on after its end), the text up to
/// the next `"`, when there is one.
pub open spec fn hrefs_from(body: Seq<char>, pos: int) -> Seq<Seq<char>>
    decreases body.len() + 1 - pos,
{
    match find_from(body, href_marker(), pos) {
        Some(i) => if pos <= i && i + 6 <= body.len() {
            let vs = i + 6;
            let rest = hrefs_from(body, vs);
            match find_from(body, seq!['"'], vs) {
                Some(e) => seq![body.subrange(vs, e)] + rest,
                None => rest,
            }
        } else {
            Seq::empty()
        },
        None => Seq::empty(),
    }
}

/// The `href` values of `body`, in order.
pub open spec fn hrefs_spec(body: Seq<char>) -> Seq<Seq<char>> {
    hrefs_from(body, 0)
}

/// The `href="…"` values of an HTML page, in order.
pub fn hrefs(body: &str) -> (r: Vec<String>)
    ensures
        r.deep_view() == hrefs_spec(body@),
{
    let v = chars_of(body);
    let marker = vec!['h', 'r', 'e', 'f', '=', '"'];
    let quote = vec!['"'];
    assert(marker@ =~= href_marker());
    assert(quote@ =~= seq!['"']);
    let mut out: Vec<String> = Vec::new();
    let mut pos: usize = 0;
    assert(out.deep_view() =~= Seq::<Seq<char>>::empty());
    loop
        invariant
            v@ == body@,
            marker@ == href_marker(),
            quote@ == seq!['"'],
            pos <= v@.len(),
            out.deep_view() + hrefs_from(v@, pos as int) == hrefs_spec(v@),
        decreases v@.len() - pos,
    {
        match find_from_exec(&v, &marker, pos) {
            None => {
                assert(hrefs_from(v@, pos as int) =~= Seq::<Seq<char>>::empty());
                assert(out.deep_view() + Seq::<Seq<char>>::empty() =~= out.deep_view());
                return out;
            },
            Some(i) => {
                proof {
                    lemma_find_from(v@, href_marker(), pos as int);
                    assert(href_marker().len() == 6);
                    assert(occurs_at(v@, href_marker(), i as int));
                }
                let n = v.len();
                assert(i + 6 <= n);
                let vs = i + 6;
                let ghost rest = hrefs_from(v@, vs as int);
                match find_from_exec(&v, &quote, vs) {
                    Some(e) => {
                        proof {
                            lemma_find_from(v@, seq!['"'], vs as int);
                        }
                        let s = string_from_range(&v, vs, e);
                        let ghost before = out.deep_view();
                        out.push(s);
                        assert(out.deep_view() =~= before.push(v@.subrange(vs as int, e as int)));
                        assert(before + (seq![v@.subrange(vs as int, e as int)] + rest) =~= out.deep_view() + rest);
                    },
                    None => {},
                }
                pos = vs;
            },
        }
    }
}

/// The directory names with `prefix` among the `href` values `hs`: each
/// value ending in `/`, with all trailing slashes removed, that starts with
/// `prefix`, with the prefix removed.
pub open spec fn prefixed_names(hs: Seq<Seq<char>>, prefix: Seq<char>) -> Seq<Seq<char>>
    decreases hs.len(),
{
    if hs.len() == 0 {
        Seq::empty()
    } else {
        let d = prefixed_names(hs.drop_last(), prefix);
        let h = hs.last();
        let value = trim_end_char(h, '/');
        if h.len() > 0 && h.last() == '/' && prefix.len() <= value.len() && value.take(prefix.len() as int)
            == prefix {
            d.push(value.skip(prefix.len() as int))
        } else {
            d
        }
    }
}

/// `s.strip_prefix(prefix)`.
fn strip_prefix_exec(s: &str, prefix: &str) -> (r: Option<String>)
    ensures
        r matches Some(x) ==> prefix@.len() <= s@.len() && s@.take(prefix@.len() as int) == prefix@ && x@
            == s@.skip(prefix@.len() as int),
        r is None ==> !(prefix@.len() <= s@.len() && s@.take(prefix@.len() as int) == prefix@),
{
    let x = chars_of(s);
    let p = chars_of(prefix);
    if p.len() > x.len() {
        return None;
    }
    let mut i: usize = 0;
    while i < p.len()
        invariant
            x@ == s@,
            p@ == prefix@,
            p@.len() <= x@.len(),
            i <= p@.len(),
            forall|k: int| 0 <= k < i ==> x@[k] == p@[k],
        decreases p@.len() - i,
    {
        if x[i] != p[i] {
            assert(x@.take(p@.len() as int)[i as int] != p@[i as int]);
            return None;
        }
        i = i + 1;
    }
    assert(x@.take(p@.len() as int) =~= p@);
    let r = string_from_range(&x, p.len(), x.len());
    assert(x@.subrange(p@.len() as int, x@.len() as int) =~= x@.skip(p@.len() as int));
    Some(r)
}

/// The names of the sub-directories of a directory listing whose names
/// start with `prefix`, with the prefix removed.
pub fn prefixed_dirs(body: &str, prefix: &str) -> (r: Vec<String>)
    ensures
        r.deep_view() == prefixed_names(hrefs_spec(body@), prefix@),
{
    let hs = hrefs(body);
    let ghost hv = hs.deep_view();
    let mut out: Vec<String> = Vec::new();
    let mut k: usize = 0;
    assert(hv.take(0) =~= Seq::<Seq<char>>::empty());
    assert(out.deep_view() =~= Seq::<Seq<char>>::empty());
    while k < hs.len()
        invariant
            hv == hs.deep_view(),
            hv == hrefs_spec(body@),
            k <= hv.len(),
            out.deep_view() == prefixed_names(hv.take(k as int), prefix@),
        decreases hv.len() - k,
    {
        let ghost t1 = hv.take(k + 1);
        assert(t1.drop_last() =~= hv.take(k as int));
        assert(t1.last() == hs@[k as int]@);
        let h = hs[k].as_str();
        let hc = chars_of(h);
        if hc.len() > 0 && hc[hc.len() - 1] == '/' {
            let value = trim_end_char_exec(h, '/');
            match strip_prefix_exec(value.as_str(), prefix) {
                Some(name) => {
                    let ghost before = out.deep_view();
                    out.push(name);
                    assert(out.deep_view() =~= before.push(name@));
                },
                None => {},
            }
        }
        k = k + 1;
    }
    assert(hv.take(hv.len() as int) =~= hv);
    out
}

/// The version-like names of `names`, in order.
pub open spec fn version_like_names(names: Seq<Seq<char>>) -> Seq<Seq<char>> {
    names.filter(|n: Seq<char>| version_like(n))
}

/// The version directories among `names`: the version-like ones, sorted
/// newest first, without adjacent repeats.
pub fn version_dirs(names: Vec<String>) -> (r: Vec<String>)
    ensures
        r.deep_view() == dedup_adjacent(newest_first(version_like_names(names.deep_view()))),
{
    let ghost nv = names.deep_view();
    let mut kept: Vec<String> = Vec::new();
    let mut k: usize = 0;
    assert(nv.take(0).filter(|n: Seq<char>| version_like(n)) =~= Seq::<Seq<char>>::empty());
    assert(kept.deep_view() =~= Seq::<Seq<char>>::empty());
    while k < names.len()
        invariant
            nv == names.deep_view(),
            k <= nv.len(),
            kept.deep_view() == nv.take(k as int).filter(|n: Seq<char>| version_like(n)),
        decreases nv.len() - k,
    {
        let ghost t1 = nv.take(k + 1);
        assert(t1.drop_last() =~= nv.take(k as int));
        reveal_with_fuel(Seq::filter, 1);
        if is_version_like(names[k].as_str()) {
            let ghost before = kept.deep_view();
            kept.push(names[k].clone());
            assert(kept.deep_view() =~= before.push(nv[k as int]));
        }
        k = k + 1;
    }
    assert(nv.take(nv.len() as int) =~= nv);
    sort_dedup(kept)
}


/// Every version directory is version-like and was among the names, and
/// every version-like name is among the version directories.
pub proof fn lemma_version_dirs(names: Seq<Seq<char>>)
    ensures
        forall|k: int| 0 <= k < dedup_adjacent(newest_first(version_like_names(names))).len() ==> {
            &&& version_like(#[trigger] dedup_adjacent(newest_first(version_like_names(names)))[k])
            &&& lists(names, dedup_adjacent(newest_first(version_like_names(names)))[k])
        },
        forall|i: int| 0 <= i < names.len() && version_like(names[i]) ==> #[trigger] lists(
            dedup_adjacent(newest_first(version_like_names(names))),
            names[i],
        ),
{
    let f = |n: Seq<char>| version_like(n);
    let kept = version_like_names(names);
    assert(kept == names.filter(f));
    let d = dedup_adjacent(newest_first(kept));
    lemma_sort_dedup(kept);
    assert forall|k: int| 0 <= k < d.len() implies {
        &&& version_like(#[trigger] d[k])
        &&& lists(names, d[k])
    } by {
        assert(lists(kept, d[k]));
        let j = choose|j: int| 0 <= j < kept.len() && kept[j] == d[k];
        names.lemma_filter_pred(f, j);
        names.lemma_filter_contains_rev(f, kept[j]);
        let i = choose|i: int| 0 <= i < names.len() && names[i] == kept[j];
        assert(lists(names, d[k]));
    }
    assert forall|i: int| 0 <= i < names.len() && version_like(names[i]) implies #[trigger] lists(d, names[i]) by {
        names.lemma_filter_contains(f, i);
        let j = choose|j: int| 0 <= j < kept.len() && kept[j] == names[i];
        assert(lists(kept, kept[j]));
    }
}

} // verus!
