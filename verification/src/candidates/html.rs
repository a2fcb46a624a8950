//! Helpers for HTML-scraping candidates: the `href` values of the anchors of
//! a page, version-likeness and newest-first sorting as the HTML listings use
//! them.
use vstd::prelude::*;
use crate::text::{chars_of, is_digit};
use crate::version_order::{KeyView, key_view, key_with, key_with_exec, sorted_newest_first, stable_sort_newest_first};

verus! {

/// The `href` attribute of each `<a href>` element of an HTML document, in
/// document order, as the `scraper` crate's HTML parser finds them (`None`
/// for an element whose `href` cannot be read back).
pub uninterp spec fn anchor_href_attrs(html: Seq<char>) -> Seq<Option<Seq<char>>>;

/// Runs `scraper`: parses `html` as a document (`Html::parse_document`),
/// selects `a[href]` and reads each element's `href` attribute. The contract
/// names the result, a function of the document text alone; it does not say
/// what the HTML parser makes of a given text.
#[verifier::external_body]
fn scrape_anchor_hrefs(html: &str) -> (r: Vec<Option<String>>)
    ensures
        r.deep_view() == anchor_href_attrs(html@),
{
    let document = scraper::Html::parse_document(html);
    match scraper::Selector::parse("a[href]") {
        Ok(selector) => document.select(&selector).map(|el| el.attr("href").map(|h| h.to_string())).collect(),
        Err(_) => Vec::new(),
    }
}

/// The values present in a sequence of optional values, in order.
pub open spec fn present(s: Seq<Option<Seq<char>>>) -> Seq<Seq<char>> {
    s.filter_map(|o: Option<Seq<char>>| o)
}

/// The `href` values of the `<a href="…">` elements of an HTML page.
pub fn parse_hrefs(html: &str) -> (r: Vec<String>)
    ensures
        r.deep_view() == present(anchor_href_attrs(html@)),
{
    let attrs = scrape_anchor_hrefs(html);
    let ghost a = attrs.deep_view();
    let mut out: Vec<String> = Vec::new();
    let mut i: usize = 0;
    assert(a.take(0) =~= Seq::<Option<Seq<char>>>::empty());
    while i < attrs.len()
        invariant
            a == attrs.deep_view(),
            i <= attrs@.len(),
            out.deep_view() == present(a.take(i as int)),
        decreases attrs@.len() - i,
    {
        let ghost t = a.take(i + 1);
        assert(t.drop_last() =~= a.take(i as int));
        assert(t.last() == attrs@[i as int].deep_view());
        match &attrs[i] {
            Some(h) => {
                let ghost before = out.deep_view();
                out.push(h.clone());
                assert(out.deep_view() =~= before + seq![h@]);
            },
            None => {},
        }
        i = i + 1;
    }
    assert(a.take(attrs@.len() as int) =~= a);
    out
}

/// Characters allowed in a version of an HTML listing: digits, `.` and `-`.
pub open spec fn listing_version_char(c: char) -> bool {
    is_digit(c) || c == '.' || c == '-'
}

/// A version of an HTML listing: it starts with a digit, contains a dot, and
/// has only digits, dots and dashes.
pub open spec fn listing_version_like(s: Seq<char>) -> bool {
    &&& s.len() > 0
    &&& is_digit(s[0])
    &&& s.contains('.')
    &&& forall|i: int| 0 <= i < s.len() ==> listing_version_char(#[trigger] s[i])
}

/// Whether a string looks like a version: starts with a digit and contains a dot.
pub fn is_version_like(s: &str) -> (r: bool)
    ensures
        r == listing_version_like(s@),
{
    let v = chars_of(s);
    if v.len() == 0 {
        return false;
    }
    if !('0' <= v[0] && v[0] <= '9') {
        return false;
    }
    let mut has_dot = false;
    let mut i: usize = 0;
    while i < v.len()
        invariant
            v@ == s@,
            i <= v@.len(),
            has_dot == exists|k: int| 0 <= k < i && v@[k] == '.',
            forall|k: int| 0 <= k < i ==> listing_version_char(#[trigger] v@[k]),
        decreases v@.len() - i,
    {
        let c = v[i];
        if !(('0' <= c && c <= '9') || c == '.' || c == '-') {
            return false;
        }
        if c == '.' {
            has_dot = true;
        }
        i = i + 1;
    }
    if !has_dot {
        assert(!v@.contains('.'));
    }
    has_dot
}

/// The characters that start a pre-release suffix in an HTML listing.
pub open spec fn listing_separators() -> Seq<char> {
    seq!['-', '+']
}

/// The sort key of a listing version: `(1, numbers)` for a stable release,
/// `(0, numbers)` for a pre-release.
pub open spec fn listing_key(v: Seq<char>) -> KeyView {
    key_with(v, listing_separators())
}

/// The keys of a list of listing versions.
pub open spec fn listing_keys(vs: Seq<Seq<char>>) -> Seq<KeyView> {
    vs.map_values(|v: Seq<char>| listing_key(v))
}

/// The sort key of a listing version.
pub fn sort_key(v: &str) -> (r: (i32, Vec<u32>))
    ensures
        key_view(r) == listing_key(v@),
{
    let c = chars_of(v);
    let seps = vec!['-', '+'];
    assert(seps@ =~= listing_separators());
    key_with_exec(&c, &seps)
}

/// Sort version strings: numeric descending, stable before pre-release.
pub fn sort_versions(versions: &mut [String])
    ensures
        final(versions).deep_view() == sorted_newest_first(
            old(versions).deep_view(),
            listing_keys(old(versions).deep_view()),
        ),
{
    let ghost dv = versions.deep_view();
    let mut keys: Vec<(i32, Vec<u32>)> = Vec::new();
    let mut i: usize = 0;
    while i < versions.len()
        invariant
            dv == versions.deep_view(),
            i <= versions@.len(),
            keys@.len() == i,
            forall|k: int| 0 <= k < i ==> key_view(#[trigger] keys@[k]) == listing_key(dv[k]),
        decreases versions@.len() - i,
    {
        keys.push(sort_key(versions[i].as_str()));
        i = i + 1;
    }
    assert(keys@.map_values(|k: (i32, Vec<u32>)| key_view(k)) =~= listing_keys(dv));
    let sorted = stable_sort_newest_first(versions, &keys);
    assert(sorted.deep_view().len() == sorted@.len());
    assert(dv.len() == versions@.len());
    let mut j: usize = 0;
    while j < versions.len()
        invariant
            versions@.len() == sorted@.len() == dv.len(),
            sorted.deep_view() == sorted_newest_first(dv, listing_keys(dv)),
            j <= versions@.len(),
            forall|k: int| 0 <= k < j ==> (#[trigger] versions@[k])@ == sorted@[k]@,
        decreases versions@.len() - j,
    {
        versions[j] = sorted[j].clone();
        j = j + 1;
    }
    assert(versions.deep_view() =~= sorted_newest_first(dv, listing_keys(dv)));
}

} // verus!
