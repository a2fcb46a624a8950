//! Version helpers shared by the candidate sources: version-likeness, the
//! sort key, and newest-first sorting with duplicate removal.
use vstd::prelude::*;
use crate::text::{chars_of, is_digit};
use crate::numbers::{decimal, lemma_decimal_digits, lemma_parse_decimal};
use crate::version_order::{split_on, parsed_numbers, first_of_any, lemma_key_less_cases};
use crate::version_order::{
    KeyView, key_view, key_with, key_with_exec, key_less, lists, is_sort_order, sort_order,
    sorted_newest_first, stable_sort_newest_first, dedup_adjacent, dedup_strings, lemma_key_order,
    lemma_sorted_newest_first, lemma_sort_order_unique, lemma_dedup_members,
    lemma_dedup_no_adjacent_repeats,
};

verus! {

/// The characters that end a release's dotted base: what follows them is a
/// pre-release or build suffix.
pub open spec fn release_separators() -> Seq<char> {
    seq!['-', '+', '_']
}

/// The sort key of a version: `(1, numbers)` for a plain release and
/// `(0, numbers)` once a separator occurs, where `numbers` are the dotted
/// pieces of the base before the first separator that parse as `u32`.
pub open spec fn version_key(v: Seq<char>) -> KeyView {
    key_with(v, release_separators())
}

/// The keys of a list of versions.
pub open spec fn version_keys(vs: Seq<Seq<char>>) -> Seq<KeyView> {
    vs.map_values(|v: Seq<char>| version_key(v))
}

/// `vs` sorted newest first, stable releases before pre-releases of the same
/// numbers, equal keys in their original order.
pub open spec fn newest_first(vs: Seq<Seq<char>>) -> Seq<Seq<char>> {
    sorted_newest_first(vs, version_keys(vs))
}

/// The sort key of `version`.
pub fn sort_key(version: &str) -> (r: (i32, Vec<u32>))
    ensures
        key_view(r) == version_key(version@),
{
    let v = chars_of(version);
    let seps = vec!['-', '+', '_'];
    assert(seps@ =~= release_separators());
    key_with_exec(&v, &seps)
}

/// Sorts `versions` newest first (stable releases before pre-releases).
pub fn sort_versions(versions: &mut [String])
    ensures
        final(versions).deep_view() == newest_first(old(versions).deep_view()),
{
    let ghost dv = versions.deep_view();
    let mut keys: Vec<(i32, Vec<u32>)> = Vec::new();
    let mut i: usize = 0;
    while i < versions.len()
        invariant
            dv == versions.deep_view(),
            i <= versions@.len(),
            keys@.len() == i,
            forall|k: int| 0 <= k < i ==> key_view(#[trigger] keys@[k]) == version_key(dv[k]),
        decreases versions@.len() - i,
    {
        keys.push(sort_key(versions[i].as_str()));
        i = i + 1;
    }
    assert(keys@.map_values(|k: (i32, Vec<u32>)| key_view(k)) =~= version_keys(dv));
    let sorted = stable_sort_newest_first(versions, &keys);
    assert(sorted.deep_view().len() == sorted@.len());
    assert(dv.len() == versions@.len());
    let mut j: usize = 0;
    while j < versions.len()
        invariant
            versions@.len() == sorted@.len() == dv.len(),
            sorted.deep_view() == newest_first(dv),
            j <= versions@.len(),
            forall|k: int| 0 <= k < j ==> (#[trigger] versions@[k])@ == sorted@[k]@,
        decreases versions@.len() - j,
    {
        versions[j] = sorted[j].clone();
        j = j + 1;
    }
    assert(versions.deep_view() =~= newest_first(dv));
}

/// Sorts newest first, then removes adjacent duplicates.
pub fn sort_dedup(versions: Vec<String>) -> (r: Vec<String>)
    ensures
        r.deep_view() == dedup_adjacent(newest_first(versions.deep_view())),
{
    let mut versions = versions;
    sort_versions(versions.as_mut_slice());
    dedup_strings(&versions)
}

/// Characters allowed in a version: ASCII letters and digits and `.-_+`.
pub open spec fn version_char(c: char) -> bool {
    ||| is_digit(c)
    ||| c == '.' || c == '-' || c == '_' || c == '+'
    ||| ('a' <= c && c <= 'z')
    ||| ('A' <= c && c <= 'Z')
}

/// Whether `c` may appear in a version.
pub fn is_version_char(value: char) -> (r: bool)
    ensures
        r == version_char(value),
{
    ('0' <= value && value <= '9') || value == '.' || value == '-' || value == '_' || value == '+'
        || ('a' <= value && value <= 'z') || ('A' <= value && value <= 'Z')
}

/// A version-like string: it starts with a digit, contains a dot, and has
/// only version characters.
pub open spec fn version_like(v: Seq<char>) -> bool {
    &&& v.len() > 0
    &&& is_digit(v[0])
    &&& v.contains('.')
    &&& forall|i: int| 0 <= i < v.len() ==> version_char(#[trigger] v[i])
}

/// Whether `value` looks like a version.
pub fn is_version_like(value: &str) -> (r: bool)
    ensures
        r == version_like(value@),
{
    let v = chars_of(value);
    if v.len() == 0 || !('0' <= v[0] && v[0] <= '9') {
        return false;
    }
    let mut has_dot = false;
    let mut i: usize = 0;
    while i < v.len()
        invariant
            v@ == value@,
            i <= v@.len(),
            has_dot == exists|k: int| 0 <= k < i && v@[k] == '.',
            forall|k: int| 0 <= k < i ==> version_char(#[trigger] v@[k]),
        decreases v@.len() - i,
    {
        if !is_version_char(v[i]) {
            return false;
        }
        if v[i] == '.' {
            has_dot = true;
        }
        i = i + 1;
    }
    if !has_dot {
        assert(!v@.contains('.'));
    }
    has_dot
}


/// `vs` runs from newest to oldest version key.
pub open spec fn is_newest_first(vs: Seq<Seq<char>>) -> bool {
    forall|p: int, q: int| 0 <= p < q < vs.len() ==> !key_less(
        version_key(#[trigger] vs[p]),
        version_key(#[trigger] vs[q]),
    )
}

/// Sorting newest first returns the same versions, each as often as before,
/// from newest to oldest, and keeps versions with equal keys in their
/// original order.
pub proof fn lemma_newest_first(vs: Seq<Seq<char>>)
    ensures
        newest_first(vs).len() == vs.len(),
        is_newest_first(newest_first(vs)),
        forall|i: int| 0 <= i < vs.len() ==> #[trigger] lists(newest_first(vs), vs[i]),
        forall|k: int| 0 <= k < vs.len() ==> #[trigger] lists(vs, newest_first(vs)[k]),
        forall|p: int, q: int| 0 <= p < q < vs.len() && version_key(newest_first(vs)[p]) == version_key(
            newest_first(vs)[q],
        ) ==> #[trigger] sort_order(version_keys(vs))[p] < #[trigger] sort_order(version_keys(vs))[q],
{
    let keys = version_keys(vs);
    let o = sort_order(keys);
    let r = newest_first(vs);
    lemma_sorted_newest_first(vs, keys);
    assert forall|p: int, q: int| 0 <= p < q < r.len() implies !key_less(
        version_key(#[trigger] r[p]),
        version_key(#[trigger] r[q]),
    ) by {
        assert(r[p] == vs[o[p]] && r[q] == vs[o[q]]);
        assert(keys[o[p]] == version_key(vs[o[p]]));
        assert(keys[o[q]] == version_key(vs[o[q]]));
        assert(!key_less(keys[o[p]], keys[o[q]]));
    }
    assert forall|k: int| 0 <= k < vs.len() implies #[trigger] lists(vs, r[k]) by {
        assert(r[k] == vs[o[k]]);
    }
    assert forall|p: int, q: int| 0 <= p < q < vs.len() && version_key(r[p]) == version_key(r[q])
        implies #[trigger] o[p] < #[trigger] o[q] by {
        assert(r[p] == vs[o[p]] && r[q] == vs[o[q]]);
        assert(keys[o[p]] == version_key(vs[o[p]]));
        assert(keys[o[q]] == version_key(vs[o[q]]));
    }
}

/// A list already newest first is left as it is by sorting.
pub proof fn lemma_newest_first_keeps_sorted(vs: Seq<Seq<char>>)
    requires
        is_newest_first(vs),
    ensures
        newest_first(vs) == vs,
{
    let keys = version_keys(vs);
    let id = Seq::new(vs.len(), |k: int| k);
    assert forall|j: int| 0 <= j < keys.len() implies #[trigger] lists(id, j) by {
        assert(id[j] == j);
    }
    assert forall|p: int, q: int| 0 <= p < q < id.len() implies crate::version_order::precedes(
        keys,
        #[trigger] id[p],
        #[trigger] id[q],
    ) by {
        assert(!key_less(version_key(vs[p]), version_key(vs[q])));
        lemma_key_order(keys[p], keys[q], keys[q]);
    }
    assert(is_sort_order(keys, id));
    crate::version_order::lemma_sort_order_exists(keys);
    lemma_sort_order_unique(keys, id, sort_order(keys));
    assert(newest_first(vs) =~= vs);
}

/// Sorting newest first twice gives what sorting once gives.
pub proof fn lemma_newest_first_idempotent(vs: Seq<Seq<char>>)
    ensures
        newest_first(newest_first(vs)) == newest_first(vs),
{
    lemma_newest_first(vs);
    lemma_newest_first_keeps_sorted(newest_first(vs));
}

/// What `sort_dedup` returns: every input version, newest first, with no
/// version directly repeated, and nothing that was not in the input.
pub proof fn lemma_sort_dedup(vs: Seq<Seq<char>>)
    ensures
        is_newest_first(dedup_adjacent(newest_first(vs))),
        forall|k: int| 0 <= k < dedup_adjacent(newest_first(vs)).len() - 1 ==>
            #[trigger] dedup_adjacent(newest_first(vs))[k] != dedup_adjacent(newest_first(vs))[k + 1],
        forall|i: int| 0 <= i < vs.len() ==> #[trigger] lists(dedup_adjacent(newest_first(vs)), vs[i]),
        forall|k: int| 0 <= k < dedup_adjacent(newest_first(vs)).len() ==> #[trigger] lists(
            vs,
            dedup_adjacent(newest_first(vs))[k],
        ),
{
    let s = newest_first(vs);
    let d = dedup_adjacent(s);
    lemma_newest_first(vs);
    lemma_dedup_members(s);
    lemma_dedup_no_adjacent_repeats(s);
    lemma_dedup_keeps_newest_first(s);
    assert forall|i: int| 0 <= i < vs.len() implies #[trigger] lists(d, vs[i]) by {
        assert(lists(s, vs[i]));
        let k = choose|k: int| 0 <= k < s.len() && s[k] == vs[i];
        assert(lists(d, s[k]));
    }
    assert forall|k: int| 0 <= k < d.len() implies #[trigger] lists(vs, d[k]) by {
        let p = choose|p: int| k <= p < s.len() && s[p] == d[k];
        assert(lists(vs, s[p]));
    }
}

/// Removing adjacent repeats keeps a newest-first list newest first.
pub proof fn lemma_dedup_keeps_newest_first(s: Seq<Seq<char>>)
    requires
        is_newest_first(s),
    ensures
        is_newest_first(dedup_adjacent(s)),
    decreases s.len(),
{
    if s.len() > 0 {
        let s0 = s.drop_last();
        assert(is_newest_first(s0)) by {
            assert forall|p: int, q: int| 0 <= p < q < s0.len() implies !key_less(
                version_key(#[trigger] s0[p]),
                version_key(#[trigger] s0[q]),
            ) by {
                assert(s0[p] == s[p] && s0[q] == s[q]);
            }
        }
        lemma_dedup_keeps_newest_first(s0);
        lemma_dedup_members(s0);
        let d0 = dedup_adjacent(s0);
        let d = dedup_adjacent(s);
        assert forall|p: int, q: int| 0 <= p < q < d.len() implies !key_less(
            version_key(#[trigger] d[p]),
            version_key(#[trigger] d[q]),
        ) by {
            if q < d0.len() {
                assert(d[p] == d0[p] && d[q] == d0[q]);
            } else {
                let pp = choose|pp: int| p <= pp < s0.len() && s0[pp] == #[trigger] d0[p];
                assert(d[p] == s[pp]);
                assert(d[q] == s[s.len() - 1]);
            }
        }
    }
}

/// `sort_dedup` applied to its own result changes nothing.
pub proof fn lemma_sort_dedup_idempotent(vs: Seq<Seq<char>>)
    ensures
        dedup_adjacent(newest_first(dedup_adjacent(newest_first(vs)))) == dedup_adjacent(newest_first(vs)),
{
    let d = dedup_adjacent(newest_first(vs));
    lemma_sort_dedup(vs);
    lemma_newest_first_keeps_sorted(d);
    lemma_dedup_of_distinct_neighbours(d);
}

/// A list with no directly repeated element is its own `dedup_adjacent`.
pub proof fn lemma_dedup_of_distinct_neighbours<T>(s: Seq<T>)
    requires
        forall|k: int| 0 <= k < s.len() - 1 ==> #[trigger] s[k] != s[k + 1],
    ensures
        dedup_adjacent(s) == s,
    decreases s.len(),
{
    if s.len() > 0 {
        let s0 = s.drop_last();
        assert forall|k: int| 0 <= k < s0.len() - 1 implies #[trigger] s0[k] != s0[k + 1] by {
            assert(s[k] != s[k + 1]);
        }
        lemma_dedup_of_distinct_neighbours(s0);
        if s.len() >= 2 {
            assert(s[s.len() - 2] != s[s.len() - 1]);
        }
        assert(s0.push(s.last()) =~= s);
    }
}

proof fn lemma_no_separator(s: Seq<char>, seps: Seq<char>)
    requires
        forall|i: int| 0 <= i < s.len() ==> !seps.contains(#[trigger] s[i]),
    ensures
        first_of_any(s, seps) is None,
    decreases s.len(),
{
    if s.len() > 0 {
        let u = s.drop_last();
        assert forall|i: int| 0 <= i < u.len() implies !seps.contains(#[trigger] u[i]) by {
            assert(u[i] == s[i]);
        }
        lemma_no_separator(u, seps);
        assert(!seps.contains(s[s.len() - 1]));
    }
}

proof fn lemma_split_on_dot_append(v: Seq<char>, d: Seq<char>)
    requires
        forall|i: int| 0 <= i < d.len() ==> #[trigger] d[i] != '.',
    ensures
        split_on(v + seq!['.'] + d, '.') == split_on(v, '.').push(d),
    decreases d.len(),
{
    let s = v + seq!['.'] + d;
    if d.len() == 0 {
        assert(s.drop_last() =~= v);
        assert(s.last() == '.');
        assert(d =~= Seq::<char>::empty());
    } else {
        let d0 = d.drop_last();
        assert forall|i: int| 0 <= i < d0.len() implies #[trigger] d0[i] != '.' by {
            assert(d0[i] == d[i]);
        }
        lemma_split_on_dot_append(v, d0);
        assert(s.drop_last() =~= v + seq!['.'] + d0);
        assert(s.last() == d.last());
        assert(d.last() != '.');
        let p = split_on(v, '.').push(d0);
        assert(d0.push(d.last()) =~= d);
        assert(p.last() == d0);
        assert(p.update(p.len() - 1, p.last().push(d.last())) =~= split_on(v, '.').push(d));
    }
}

/// A patch release is newer than the release it extends: for a plain
/// release `v` (no `-`, `+` or `_`), the key of `v.n` is the key of `v` with
/// `n` appended, and it is above the key of `v` (`8.10.2` is newer than
/// `8.10`).
pub proof fn lemma_patch_release_key(v: Seq<char>, n: u32)
    requires
        forall|i: int| 0 <= i < v.len() ==> #[trigger] v[i] != '-' && v[i] != '+' && v[i] != '_',
    ensures
        version_key(v + seq!['.'] + decimal(n as nat)) == (1int, version_key(v).1.push(n)),
        key_less(version_key(v), version_key(v + seq!['.'] + decimal(n as nat))),
        !key_less(version_key(v + seq!['.'] + decimal(n as nat)), version_key(v)),
{
    let d = decimal(n as nat);
    let w = v + seq!['.'] + d;
    let seps = release_separators();
    lemma_decimal_digits(n as nat);
    lemma_parse_decimal(n);
    assert forall|i: int| 0 <= i < v.len() implies !seps.contains(#[trigger] v[i]) by {
        if seps.contains(v[i]) {
            let k = choose|k: int| 0 <= k < seps.len() && seps[k] == v[i];
            assert(seps[0] == '-' && seps[1] == '+' && seps[2] == '_');
        }
    }
    assert forall|i: int| 0 <= i < w.len() implies !seps.contains(#[trigger] w[i]) by {
        if i < v.len() {
            assert(w[i] == v[i]);
        } else if i > v.len() {
            assert(w[i] == d[i - v.len() - 1]);
            assert(is_digit(d[i - v.len() - 1]));
        }
        if seps.contains(w[i]) {
            let k = choose|k: int| 0 <= k < seps.len() && seps[k] == w[i];
            assert(seps[0] == '-' && seps[1] == '+' && seps[2] == '_');
        }
    }
    lemma_no_separator(v, seps);
    lemma_no_separator(w, seps);
    assert forall|i: int| 0 <= i < d.len() implies #[trigger] d[i] != '.' by {
        assert(is_digit(d[i]));
    }
    lemma_split_on_dot_append(v, d);
    let p = split_on(v, '.');
    assert(p.push(d).drop_last() =~= p);
    assert(parsed_numbers(p.push(d)) == parsed_numbers(p).push(n));
    let kv = version_key(v);
    let kw = version_key(w);
    assert(kw == (1int, kv.1.push(n)));
    assert(kv.1 =~= kw.1.take(kv.1.len() as int));
    lemma_key_less_cases(kv, kw);
}

/// After sorting newest first, a patch release `v.n` of a plain release `v`
/// never comes after `v`.
pub proof fn lemma_patch_release_sorts_first(vs: Seq<Seq<char>>, v: Seq<char>, n: u32)
    requires
        forall|i: int| 0 <= i < v.len() ==> #[trigger] v[i] != '-' && v[i] != '+' && v[i] != '_',
    ensures
        forall|p: int, q: int| 0 <= p < q < newest_first(vs).len() && #[trigger] newest_first(vs)[p] == v
            ==> #[trigger] newest_first(vs)[q] != v + seq!['.'] + decimal(n as nat),
{
    lemma_newest_first(vs);
    lemma_patch_release_key(v, n);
}

} // verus!
