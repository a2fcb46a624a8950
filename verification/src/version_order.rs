//! Version sort keys and the stable newest-first order on them.
//!
//! A version's key is a pair: a release flag (`1` for a plain release, `0`
//! when a pre-release separator occurs) and the numbers of the dotted base.
//! Keys compare like Rust tuples `(i32, Vec<u32>)`: first the flag, then the
//! numbers lexicographically.
use vstd::prelude::*;
use crate::numbers::{parse_u32_spec, parse_u32_range};

verus! {

/// The mathematical form of a version key.
pub type KeyView = (int, Seq<u32>);

/// The view of an executable key.
pub open spec fn key_view(k: (i32, Vec<u32>)) -> KeyView {
    (k.0 as int, k.1@)
}

/// `str::split(c)`: the pieces of `s` between occurrences of `c`.
pub open spec fn split_on(s: Seq<char>, c: char) -> Seq<Seq<char>>
    decreases s.len(),
{
    if s.len() == 0 {
        seq![Seq::empty()]
    } else {
        let p = split_on(s.drop_last(), c);
        if s.last() == c {
            p.push(Seq::empty())
        } else {
            p.update(p.len() - 1, p.last().push(s.last()))
        }
    }
}

/// `split_on` always yields at least one piece.
pub proof fn lemma_split_on_nonempty(s: Seq<char>, c: char)
    ensures
        split_on(s, c).len() >= 1,
    decreases s.len(),
{
    if s.len() > 0 {
        lemma_split_on_nonempty(s.drop_last(), c);
    }
}

/// The values of the pieces that parse as `u32`, in order
/// (`filter_map(|p| p.parse().ok())`).
pub open spec fn parsed_numbers(pieces: Seq<Seq<char>>) -> Seq<u32>
    decreases pieces.len(),
{
    if pieces.len() == 0 {
        Seq::empty()
    } else {
        let p = parsed_numbers(pieces.drop_last());
        match parse_u32_spec(pieces.last()) {
            Some(v) => p.push(v),
            None => p,
        }
    }
}

/// Index of the first character of `s` that is one of `seps`
/// (the split point of `str::split_once` with a character set).
pub open spec fn first_of_any(s: Seq<char>, seps: Seq<char>) -> Option<int>
    decreases s.len(),
{
    if s.len() == 0 {
        None
    } else {
        match first_of_any(s.drop_last(), seps) {
            Some(i) => Some(i),
            None => if seps.contains(s.last()) {
                Some(s.len() - 1)
            } else {
                None
            },
        }
    }
}

/// The key of version `v`, where `seps` are the characters that start a
/// pre-release or build suffix.
pub open spec fn key_with(v: Seq<char>, seps: Seq<char>) -> KeyView {
    match first_of_any(v, seps) {
        Some(i) => (0, parsed_numbers(split_on(v.take(i), '.'))),
        None => (1, parsed_numbers(split_on(v, '.'))),
    }
}

/// Whether `seps` holds `c`.
fn holds_char(seps: &Vec<char>, c: char) -> (r: bool)
    ensures
        r == seps@.contains(c),
{
    let mut i: usize = 0;
    while i < seps.len()
        invariant
            i <= seps@.len(),
            forall|k: int| 0 <= k < i ==> seps@[k] != c,
        decreases seps@.len() - i,
    {
        if seps[i] == c {
            return true;
        }
        i = i + 1;
    }
    false
}

/// The numbers of the dotted pieces of `v[0..end]` that parse as `u32`.
fn dotted_numbers(v: &Vec<char>, end: usize) -> (r: Vec<u32>)
    requires
        end <= v@.len(),
    ensures
        r@ == parsed_numbers(split_on(v@.take(end as int), '.')),
{
    let mut out: Vec<u32> = Vec::new();
    let mut piece_start: usize = 0;
    let mut j: usize = 0;
    assert(v@.take(0) =~= Seq::<char>::empty());
    assert(split_on(v@.take(0), '.').drop_last() =~= Seq::<Seq<char>>::empty());
    while j < end
        invariant
            piece_start <= j <= end <= v@.len(),
            split_on(v@.take(j as int), '.').len() >= 1,
            split_on(v@.take(j as int), '.').last() == v@.subrange(piece_start as int, j as int),
            out@ == parsed_numbers(split_on(v@.take(j as int), '.').drop_last()),
        decreases end - j,
    {
        let ghost s0 = split_on(v@.take(j as int), '.');
        let ghost t1 = v@.take(j + 1);
        assert(t1.drop_last() =~= v@.take(j as int));
        assert(t1.last() == v@[j as int]);
        if v[j] == '.' {
            let parsed = parse_u32_range(v, piece_start, j);
            assert(s0 =~= s0.drop_last().push(s0.last()));
            if let Some(n) = parsed {
                out.push(n);
            }
            piece_start = j + 1;
            assert(split_on(t1, '.').drop_last() =~= s0);
            assert(v@.subrange(piece_start as int, j + 1) =~= Seq::<char>::empty());
        } else {
            assert(split_on(t1, '.').drop_last() =~= s0.drop_last());
            assert(v@.subrange(piece_start as int, j + 1) =~= v@.subrange(
                piece_start as int,
                j as int,
            ).push(v@[j as int]));
        }
        j = j + 1;
    }
    let ghost s0 = split_on(v@.take(end as int), '.');
    assert(s0 =~= s0.drop_last().push(s0.last()));
    let parsed = parse_u32_range(v, piece_start, end);
    if let Some(n) = parsed {
        out.push(n);
    }
    out
}

/// The key of `v`, with `seps` the characters that start a suffix.
pub fn key_with_exec(v: &Vec<char>, seps: &Vec<char>) -> (r: (i32, Vec<u32>))
    ensures
        key_view(r) == key_with(v@, seps@),
{
    let mut i: usize = 0;
    assert(v@.take(0) =~= Seq::<char>::empty());
    while i < v.len()
        invariant
            i <= v@.len(),
            first_of_any(v@.take(i as int), seps@) is None,
        decreases v@.len() - i,
    {
        let ghost t1 = v@.take(i + 1);
        assert(t1.drop_last() =~= v@.take(i as int));
        if holds_char(seps, v[i]) {
            proof {
                lemma_first_of_any_extends(v@, seps@, i + 1);
            }
            let parts = dotted_numbers(v, i);
            return (0, parts);
        }
        i = i + 1;
    }
    assert(v@.take(v@.len() as int) =~= v@);
    let parts = dotted_numbers(v, v.len());
    (1, parts)
}

/// A first separator found in a prefix is the first separator of the whole.
pub proof fn lemma_first_of_any_extends(s: Seq<char>, seps: Seq<char>, k: int)
    requires
        0 <= k <= s.len(),
        first_of_any(s.take(k), seps) is Some,
    ensures
        first_of_any(s, seps) == first_of_any(s.take(k), seps),
    decreases s.len() - k,
{
    if k < s.len() {
        assert(s.take(k + 1).drop_last() =~= s.take(k));
        lemma_first_of_any_extends(s, seps, k + 1);
    } else {
        assert(s.take(k) =~= s);
    }
}


/// `a[i..] < b[i..]` in the lexicographic order of `Vec<u32>`.
pub open spec fn lex_less_from(a: Seq<u32>, b: Seq<u32>, i: int) -> bool
    decreases a.len() - i,
{
    if i >= a.len() {
        i < b.len()
    } else if i >= b.len() {
        false
    } else if a[i] < b[i] {
        true
    } else if a[i] > b[i] {
        false
    } else {
        lex_less_from(a, b, i + 1)
    }
}

/// The lexicographic order of `Vec<u32>`.
pub open spec fn lex_less(a: Seq<u32>, b: Seq<u32>) -> bool {
    lex_less_from(a, b, 0)
}

/// The order of keys: by release flag, then by numbers.
pub open spec fn key_less(a: KeyView, b: KeyView) -> bool {
    a.0 < b.0 || (a.0 == b.0 && lex_less(a.1, b.1))
}

proof fn lemma_lex_irreflexive(a: Seq<u32>, i: int)
    requires
        0 <= i,
    ensures
        !lex_less_from(a, a, i),
    decreases a.len() - i,
{
    if i < a.len() {
        lemma_lex_irreflexive(a, i + 1);
    }
}

proof fn lemma_lex_transitive(a: Seq<u32>, b: Seq<u32>, c: Seq<u32>, i: int)
    requires
        0 <= i,
        lex_less_from(a, b, i),
        lex_less_from(b, c, i),
    ensures
        lex_less_from(a, c, i),
    decreases a.len() - i,
{
    if i < a.len() && i < b.len() && i < c.len() && a[i] == b[i] && b[i] == c[i] {
        lemma_lex_transitive(a, b, c, i + 1);
    }
}

proof fn lemma_lex_total(a: Seq<u32>, b: Seq<u32>, i: int)
    requires
        0 <= i <= a.len(),
        i <= b.len(),
        !lex_less_from(a, b, i),
        !lex_less_from(b, a, i),
    ensures
        a.len() == b.len(),
        forall|k: int| i <= k < a.len() ==> a[k] == b[k],
    decreases a.len() - i,
{
    if i < a.len() && i < b.len() {
        lemma_lex_total(a, b, i + 1);
    }
}

/// `key_less` is a strict total order on keys.
pub proof fn lemma_key_order(a: KeyView, b: KeyView, c: KeyView)
    ensures
        !key_less(a, a),
        key_less(a, b) ==> !key_less(b, a),
        key_less(a, b) && key_less(b, c) ==> key_less(a, c),
        !key_less(a, b) && !key_less(b, a) ==> a == b,
{
    lemma_lex_irreflexive(a.1, 0);
    if key_less(a, b) && key_less(b, a) {
        lemma_lex_transitive(a.1, b.1, a.1, 0);
    }
    if key_less(a, b) && key_less(b, c) && a.0 == b.0 && b.0 == c.0 {
        lemma_lex_transitive(a.1, b.1, c.1, 0);
    }
    if !key_less(a, b) && !key_less(b, a) {
        lemma_lex_total(a.1, b.1, 0);
        assert(a.1 =~= b.1);
    }
}

/// `a` and `b` agree before `j`, and at `j` either `a` has ended while `b`
/// goes on, or both go on and `a[j] < b[j]`.
pub open spec fn below_at(a: Seq<u32>, b: Seq<u32>, j: int) -> bool {
    &&& 0 <= j <= a.len()
    &&& j <= b.len()
    &&& forall|k: int| 0 <= k < j ==> a[k] == b[k]
    &&& (j == a.len() && j < b.len()) || (j < a.len() && j < b.len() && a[j] < b[j])
}

proof fn lemma_lex_from_below_at(a: Seq<u32>, b: Seq<u32>, i: int)
    requires
        0 <= i <= a.len(),
        i <= b.len(),
        forall|k: int| 0 <= k < i ==> a[k] == b[k],
    ensures
        lex_less_from(a, b, i) <==> exists|j: int| i <= j && #[trigger] below_at(a, b, j),
    decreases a.len() - i,
{
    if i < a.len() && i < b.len() && a[i] == b[i] {
        lemma_lex_from_below_at(a, b, i + 1);
        if exists|j: int| i <= j && #[trigger] below_at(a, b, j) {
            let j = choose|j: int| i <= j && #[trigger] below_at(a, b, j);
            if j == i {
                assert(false);
            }
            assert(i + 1 <= j && below_at(a, b, j));
        }
    } else if i < a.len() && i < b.len() {
        if a[i] < b[i] {
            assert(below_at(a, b, i));
        } else {
            if exists|j: int| i <= j && #[trigger] below_at(a, b, j) {
                let j = choose|j: int| i <= j && #[trigger] below_at(a, b, j);
                if j > i {
                    assert(a[i] == b[i]);
                }
            }
        }
    } else if i == a.len() && i < b.len() {
        assert(below_at(a, b, i));
    } else {
        if exists|j: int| i <= j && #[trigger] below_at(a, b, j) {
            let j = choose|j: int| i <= j && #[trigger] below_at(a, b, j);
            assert(j == i);
        }
    }
}

/// The number order of version keys is the lexicographic order of number
/// lists: `a` is below `b` exactly when, at the first position where they
/// differ, `a` has ended while `b` goes on, or `a` has the smaller number.
/// So a list is below each of its proper extensions (`8.10` is older than
/// `8.10.2`).
pub proof fn lemma_lex_less_first_difference(a: Seq<u32>, b: Seq<u32>)
    ensures
        lex_less(a, b) <==> exists|j: int| #[trigger] below_at(a, b, j),
{
    lemma_lex_from_below_at(a, b, 0);
}

/// Keys compare first by release flag (a plain release, `1`, is above a
/// pre-release, `0`), then by numbers; with equal flags, a proper prefix of
/// a number list is below the list, and a smaller number at the first
/// difference makes a list smaller.
pub proof fn lemma_key_less_cases(a: KeyView, b: KeyView)
    ensures
        a.0 < b.0 ==> key_less(a, b) && !key_less(b, a),
        a.0 == b.0 && a.1.len() < b.1.len() && a.1 == b.1.take(a.1.len() as int) ==> key_less(a, b) && !key_less(b, a),
        forall|j: int| #![trigger a.1[j], b.1[j]] a.0 == b.0 && 0 <= j < a.1.len() && j < b.1.len()
            && (forall|k: int| 0 <= k < j ==> a.1[k] == b.1[k]) && a.1[j] < b.1[j] ==> key_less(a, b) && !key_less(b, a),
{
    lemma_key_order(a, b, a);
    lemma_lex_less_first_difference(a.1, b.1);
    lemma_lex_less_first_difference(b.1, a.1);
    if a.0 == b.0 && a.1.len() < b.1.len() && a.1 == b.1.take(a.1.len() as int) {
        let n = a.1.len() as int;
        assert(forall|k: int| 0 <= k < n ==> a.1[k] == b.1[k]);
        assert(a.1.len() - n == a.1.len() - n);
    }
    assert forall|j: int| #![trigger a.1[j], b.1[j]] a.0 == b.0 && 0 <= j < a.1.len() && j < b.1.len()
        && (forall|k: int| 0 <= k < j ==> a.1[k] == b.1[k]) && a.1[j] < b.1[j] implies key_less(a, b) && !key_less(b, a) by {
        assert(a.1[j] < b.1[j]);
    }
}

/// `a < b` for executable keys.
pub fn key_less_exec(a: &(i32, Vec<u32>), b: &(i32, Vec<u32>)) -> (r: bool)
    ensures
        r == key_less(key_view(*a), key_view(*b)),
{
    if a.0 != b.0 {
        return a.0 < b.0;
    }
    let mut i: usize = 0;
    while i < a.1.len() && i < b.1.len()
        invariant
            i <= a.1@.len(),
            i <= b.1@.len(),
            a.0 == b.0,
            lex_less(a.1@, b.1@) == lex_less_from(a.1@, b.1@, i as int),
        decreases a.1@.len() - i,
    {
        if a.1[i] < b.1[i] {
            return true;
        }
        if a.1[i] > b.1[i] {
            return false;
        }
        i = i + 1;
    }
    i < b.1.len()
}

/// In the newest-first stable order of `keys`, the element at index `i`
/// comes before the one at index `j`: its key is greater, or the keys are
/// equal and `i` came first.
pub open spec fn precedes(keys: Seq<KeyView>, i: int, j: int) -> bool {
    key_less(keys[j], keys[i]) || (keys[i] == keys[j] && i < j)
}

/// `x` occurs in `o`.
pub open spec fn lists<A>(o: Seq<A>, x: A) -> bool {
    exists|k: int| 0 <= k < o.len() && o[k] == x
}

/// `o` lists the indices of `keys` in newest-first stable order.
pub open spec fn is_sort_order(keys: Seq<KeyView>, o: Seq<int>) -> bool {
    &&& o.len() == keys.len()
    &&& forall|k: int| 0 <= k < o.len() ==> 0 <= #[trigger] o[k] < keys.len()
    &&& forall|j: int| 0 <= j < keys.len() ==> #[trigger] lists(o, j)
    &&& forall|p: int, q: int| 0 <= p < q < o.len() ==> precedes(keys, #[trigger] o[p], #[trigger] o[q])
}

/// The newest-first stable order of the indices of `keys`.
pub open spec fn sort_order(keys: Seq<KeyView>) -> Seq<int> {
    choose|o: Seq<int>| is_sort_order(keys, o)
}

/// `items` in newest-first stable order of `keys`: what a stable sort by
/// descending key returns.
pub open spec fn sorted_newest_first<T>(items: Seq<T>, keys: Seq<KeyView>) -> Seq<T> {
    Seq::new(items.len(), |k: int| items[sort_order(keys)[k]])
}

/// `precedes` is a strict total order on the indices.
pub proof fn lemma_precedes_order(keys: Seq<KeyView>, i: int, j: int, l: int)
    requires
        0 <= i < keys.len(),
        0 <= j < keys.len(),
        0 <= l < keys.len(),
    ensures
        !precedes(keys, i, i),
        precedes(keys, i, j) ==> !precedes(keys, j, i),
        precedes(keys, i, j) && precedes(keys, j, l) ==> precedes(keys, i, l),
        i != j ==> precedes(keys, i, j) || precedes(keys, j, i),
{
    lemma_key_order(keys[i], keys[j], keys[l]);
    lemma_key_order(keys[j], keys[i], keys[l]);
    lemma_key_order(keys[l], keys[j], keys[i]);
    lemma_key_order(keys[i], keys[l], keys[j]);
    lemma_key_order(keys[j], keys[l], keys[i]);
    lemma_key_order(keys[l], keys[i], keys[j]);
}

/// There is only one newest-first stable order of given keys.
pub proof fn lemma_sort_order_unique(keys: Seq<KeyView>, o1: Seq<int>, o2: Seq<int>)
    requires
        is_sort_order(keys, o1),
        is_sort_order(keys, o2),
    ensures
        o1 == o2,
{
    if o1 != o2 {
        assert(!(o1 =~= o2));
        let k = choose|k: int| 0 <= k < o1.len() && o1[k] != o2[k];
        lemma_first_difference(o1, o2, k);
        let f = choose|f: int| 0 <= f <= k && o1[f] != o2[f] && forall|g: int| 0 <= g < f ==> o1[g] == o2[g];
        let a = o1[f];
        let b = o2[f];
        assert(lists(o2, a));
        assert(lists(o1, b));
        let pa = choose|p: int| 0 <= p < o2.len() && o2[p] == a;
        let pb = choose|p: int| 0 <= p < o1.len() && o1[p] == b;
        lemma_precedes_order(keys, a, b, a);
        lemma_precedes_order(keys, b, a, b);
        if pa < f {
            assert(o1[pa] == o2[pa]);
            assert(precedes(keys, o1[pa], o1[f]));
        }
        if pb < f {
            assert(o1[pb] == o2[pb]);
            assert(precedes(keys, o2[pb], o2[f]));
        }
        assert(precedes(keys, o2[f], o2[pa]));
        assert(precedes(keys, o1[f], o1[pb]));
    }
}

proof fn lemma_first_difference(o1: Seq<int>, o2: Seq<int>, k: int)
    requires
        0 <= k < o1.len(),
        o1.len() == o2.len(),
        o1[k] != o2[k],
    ensures
        exists|f: int| 0 <= f <= k && o1[f] != o2[f] && forall|g: int| 0 <= g < f ==> o1[g] == o2[g],
    decreases k,
{
    if exists|g: int| 0 <= g < k && o1[g] != o2[g] {
        let g = choose|g: int| 0 <= g < k && o1[g] != o2[g];
        lemma_first_difference(o1, o2, g);
    } else {
        assert(forall|g: int| 0 <= g < k ==> o1[g] == o2[g]);
    }
}

/// Sorts `items` newest first by `keys`, keeping items with equal keys in
/// their original order (`sort_by_key` with a reversed key).
pub fn stable_sort_newest_first(items: &[String], keys: &Vec<(i32, Vec<u32>)>) -> (r: Vec<String>)
    requires
        items@.len() == keys@.len(),
    ensures
        is_sort_order(keys@.map_values(|k: (i32, Vec<u32>)| key_view(k)), sort_order(keys@.map_values(|k: (i32, Vec<u32>)| key_view(k)))),
        r.deep_view() == sorted_newest_first(items.deep_view(), keys@.map_values(|k: (i32, Vec<u32>)| key_view(k))),
{
    let ghost kv = keys@.map_values(|k: (i32, Vec<u32>)| key_view(k));
    let n = items.len();
    let mut order: Vec<usize> = Vec::new();
    let mut i: usize = 0;
    while i < n
        invariant
            n == items@.len() == keys@.len() == kv.len(),
            kv == keys@.map_values(|k: (i32, Vec<u32>)| key_view(k)),
            i <= n,
            order@.len() == i,
            forall|k: int| 0 <= k < i ==> #[trigger] order@[k] < i,
            forall|j: usize| j < i ==> #[trigger] lists(order@, j),
            forall|p: int, q: int| 0 <= p < q < i ==> precedes(kv, #[trigger] order@[p] as int, #[trigger] order@[q] as int),
        decreases n - i,
    {
        // Find the first position whose key is strictly older than key i.
        let mut pos: usize = 0;
        while pos < order.len() && !key_less_exec(&keys[order[pos]], &keys[i])
            invariant
                n == items@.len() == keys@.len() == kv.len(),
                kv == keys@.map_values(|k: (i32, Vec<u32>)| key_view(k)),
                i < n,
                order@.len() == i,
                pos <= i,
                forall|k: int| 0 <= k < i ==> #[trigger] order@[k] < i,
                forall|k: int| 0 <= k < pos ==> !key_less(kv[#[trigger] order@[k] as int], kv[i as int]),
            decreases i - pos,
        {
            pos = pos + 1;
        }
        let ghost old_order = order@;
        proof {
            assert forall|k: int| 0 <= k < pos implies precedes(kv, #[trigger] old_order[k] as int, i as int) by {
                lemma_key_order(kv[old_order[k] as int], kv[i as int], kv[i as int]);
            }
            if pos < i {
                assert(key_less(kv[old_order[pos as int] as int], kv[i as int]));
                assert forall|k: int| pos <= k < i implies precedes(kv, i as int, #[trigger] old_order[k] as int) by {
                    if k > pos {
                        assert(precedes(kv, old_order[pos as int] as int, old_order[k] as int));
                        lemma_key_order(kv[old_order[k] as int], kv[old_order[pos as int] as int], kv[i as int]);
                    }
                }
            }
        }
        order.insert(pos, i);
        proof {
            let no = order@;
            assert(no == old_order.insert(pos as int, i));
            assert forall|k: int| 0 <= k < i + 1 implies #[trigger] no[k] < i + 1 by {
                if k < pos {
                    assert(no[k] == old_order[k]);
                } else if k > pos {
                    assert(no[k] == old_order[k - 1]);
                }
            }
            assert forall|j: usize| j < i + 1 implies #[trigger] lists(no, j) by {
                if j == i {
                    assert(no[pos as int] == j);
                } else {
                    assert(lists(old_order, j));
                    let k0 = choose|k: int| 0 <= k < old_order.len() && old_order[k] == j;
                    if k0 < pos {
                        assert(no[k0] == j);
                    } else {
                        assert(no[k0 + 1] == j);
                    }
                }
            }
            assert forall|p: int, q: int| 0 <= p < q < i + 1 implies precedes(kv, #[trigger] no[p] as int, #[trigger] no[q] as int) by {
                if q < pos {
                    assert(no[p] == old_order[p] && no[q] == old_order[q]);
                } else if q == pos {
                    assert(no[p] == old_order[p]);
                } else if p < pos {
                    assert(no[p] == old_order[p] && no[q] == old_order[q - 1]);
                } else if p == pos {
                    assert(no[q] == old_order[q - 1]);
                } else {
                    assert(no[p] == old_order[p - 1] && no[q] == old_order[q - 1]);
                }
            }
        }
        i = i + 1;
    }
    let ghost go = order@.map_values(|x: usize| x as int);
    proof {
        assert forall|j: int| 0 <= j < n implies #[trigger] lists(go, j) by {
            assert(lists(order@, j as usize));
            let k0 = choose|k: int| 0 <= k < order@.len() && order@[k] == j as usize;
            assert(go[k0] == j);
        }
        assert forall|p: int, q: int| 0 <= p < q < go.len() implies precedes(kv, #[trigger] go[p], #[trigger] go[q]) by {
            assert(precedes(kv, order@[p] as int, order@[q] as int));
        }
        assert(is_sort_order(kv, go));
        lemma_sort_order_unique(kv, go, sort_order(kv));
    }
    let mut out: Vec<String> = Vec::new();
    let mut k: usize = 0;
    while k < n
        invariant
            n == items@.len() == order@.len(),
            go == order@.map_values(|x: usize| x as int),
            go == sort_order(kv),
            forall|m: int| 0 <= m < n ==> #[trigger] order@[m] < n,
            k <= n,
            out@.len() == k,
            forall|m: int| 0 <= m < k ==> (#[trigger] out@[m])@ == items@[go[m]]@,
        decreases n - k,
    {
        out.push(items[order[k]].clone());
        k = k + 1;
    }
    assert(out.deep_view() =~= sorted_newest_first(items.deep_view(), kv));
    out
}


/// `s` with each run of equal adjacent elements collapsed to one
/// (`Vec::dedup`).
pub open spec fn dedup_adjacent<T>(s: Seq<T>) -> Seq<T>
    decreases s.len(),
{
    if s.len() == 0 {
        s
    } else {
        let d = dedup_adjacent(s.drop_last());
        if s.len() >= 2 && s[s.len() - 2] == s.last() {
            d
        } else {
            d.push(s.last())
        }
    }
}

/// `Vec::dedup` on strings.
pub fn dedup_strings(v: &Vec<String>) -> (r: Vec<String>)
    ensures
        r.deep_view() == dedup_adjacent(v.deep_view()),
{
    let ghost dv = v.deep_view();
    let mut out: Vec<String> = Vec::new();
    let mut i: usize = 0;
    assert(dv.take(0) =~= Seq::<Seq<char>>::empty());
    assert(out.deep_view() =~= Seq::<Seq<char>>::empty());
    while i < v.len()
        invariant
            dv == v.deep_view(),
            i <= v@.len(),
            out.deep_view() == dedup_adjacent(dv.take(i as int)),
        decreases v@.len() - i,
    {
        let ghost t1 = dv.take(i + 1);
        assert(t1.drop_last() =~= dv.take(i as int));
        let keep = i == 0 || v[i] != v[i - 1];
        if keep {
            out.push(v[i].clone());
            assert(out.deep_view() =~= dedup_adjacent(dv.take(i as int)).push(dv[i as int]));
        }
        i = i + 1;
    }
    assert(dv.take(v@.len() as int) =~= dv);
    out
}

/// Every element of `dedup_adjacent(s)` is an element of `s` at an earlier
/// or equal position, and every element of `s` survives.
pub proof fn lemma_dedup_members<T>(s: Seq<T>)
    ensures
        dedup_adjacent(s).len() <= s.len(),
        forall|k: int| 0 <= k < dedup_adjacent(s).len() ==> exists|p: int|
            k <= p < s.len() && s[p] == #[trigger] dedup_adjacent(s)[k],
        forall|p: int| 0 <= p < s.len() ==> #[trigger] lists(dedup_adjacent(s), s[p]),
        s.len() > 0 ==> dedup_adjacent(s).len() > 0 && dedup_adjacent(s).last() == s.last(),
    decreases s.len(),
{
    if s.len() > 0 {
        let s0 = s.drop_last();
        let d0 = dedup_adjacent(s0);
        let d = dedup_adjacent(s);
        lemma_dedup_members(s0);
        assert forall|k: int| 0 <= k < d.len() implies exists|p: int|
            k <= p < s.len() && s[p] == #[trigger] d[k] by {
            if k < d0.len() {
                let p = choose|p: int| k <= p < s0.len() && s0[p] == d0[k];
                assert(s[p] == d[k]);
            } else {
                assert(s[s.len() - 1] == d[k]);
            }
        }
        assert forall|p: int| 0 <= p < s.len() implies #[trigger] lists(d, s[p]) by {
            if p < s.len() - 1 {
                assert(s0[p] == s[p]);
                assert(lists(d0, s0[p]));
                let k = choose|k: int| 0 <= k < d0.len() && d0[k] == s0[p];
                assert(d[k] == s[p]);
            } else {
                assert(d[d.len() - 1] == s[p]);
            }
        }
    }
}

/// No two adjacent elements of `dedup_adjacent(s)` are equal.
pub proof fn lemma_dedup_no_adjacent_repeats<T>(s: Seq<T>)
    ensures
        forall|k: int| 0 <= k < dedup_adjacent(s).len() - 1 ==> #[trigger] dedup_adjacent(s)[k]
            != dedup_adjacent(s)[k + 1],
    decreases s.len(),
{
    if s.len() > 0 {
        let s0 = s.drop_last();
        lemma_dedup_no_adjacent_repeats(s0);
        lemma_dedup_members(s0);
        let d0 = dedup_adjacent(s0);
        let d = dedup_adjacent(s);
        assert forall|k: int| 0 <= k < d.len() - 1 implies #[trigger] d[k] != d[k + 1] by {
            if k + 1 < d0.len() {
                assert(d[k] == d0[k] && d[k + 1] == d0[k + 1]);
            } else {
                assert(d0.last() == s0.last());
            }
        }
    }
}


/// The first position from `p` on in `o` whose key is older than that of
/// index `x`, or `o.len()`.
spec fn first_older(keys: Seq<KeyView>, o: Seq<int>, x: int, p: int) -> int
    decreases o.len() - p,
{
    if p < 0 || p >= o.len() {
        p
    } else if key_less(keys[o[p]], keys[x]) {
        p
    } else {
        first_older(keys, o, x, p + 1)
    }
}

proof fn lemma_first_older(keys: Seq<KeyView>, o: Seq<int>, x: int, p: int)
    requires
        0 <= p <= o.len(),
    ensures
        p <= first_older(keys, o, x, p) <= o.len(),
        forall|k: int| p <= k < first_older(keys, o, x, p) ==> !key_less(keys[#[trigger] o[k]], keys[x]),
        first_older(keys, o, x, p) < o.len() ==> key_less(keys[o[first_older(keys, o, x, p)]], keys[x]),
    decreases o.len() - p,
{
    if p < o.len() && !key_less(keys[o[p]], keys[x]) {
        lemma_first_older(keys, o, x, p + 1);
    }
}

/// Every list of keys has a newest-first stable order.
pub proof fn lemma_sort_order_exists(keys: Seq<KeyView>)
    ensures
        is_sort_order(keys, sort_order(keys)),
    decreases keys.len(),
{
    let n = keys.len();
    if n == 0 {
        let e = Seq::<int>::empty();
        assert(is_sort_order(keys, e));
    } else {
        let k0 = keys.drop_last();
        lemma_sort_order_exists(k0);
        let o0 = sort_order(k0);
        let x = n - 1;
        lemma_first_older(keys, o0, x, 0);
        let pos = first_older(keys, o0, x, 0);
        let o = o0.insert(pos, x);
        assert forall|k: int| 0 <= k < o0.len() implies #[trigger] keys[o0[k]] == k0[o0[k]] by {}
        assert forall|k: int| 0 <= k < pos implies precedes(keys, #[trigger] o0[k], x) by {
            lemma_key_order(keys[o0[k]], keys[x], keys[x]);
        }
        if pos < x {
            assert forall|k: int| pos <= k < x implies precedes(keys, x, #[trigger] o0[k]) by {
                if k > pos {
                    assert(precedes(k0, o0[pos], o0[k]));
                    lemma_key_order(keys[o0[k]], keys[o0[pos]], keys[x]);
                }
            }
        }
        assert forall|k: int| 0 <= k < o.len() implies 0 <= #[trigger] o[k] < n by {
            if k < pos {
                assert(o[k] == o0[k]);
            } else if k > pos {
                assert(o[k] == o0[k - 1]);
            }
        }
        assert forall|j: int| 0 <= j < n implies #[trigger] lists(o, j) by {
            if j == x {
                assert(o[pos] == j);
            } else {
                assert(lists(o0, j));
                let k = choose|k: int| 0 <= k < o0.len() && o0[k] == j;
                if k < pos {
                    assert(o[k] == j);
                } else {
                    assert(o[k + 1] == j);
                }
            }
        }
        assert forall|p: int, q: int| 0 <= p < q < o.len() implies precedes(keys, #[trigger] o[p], #[trigger] o[q]) by {
            if q < pos {
                assert(o[p] == o0[p] && o[q] == o0[q]);
                assert(precedes(k0, o0[p], o0[q]));
            } else if q == pos {
                assert(o[p] == o0[p]);
            } else if p < pos {
                assert(o[p] == o0[p] && o[q] == o0[q - 1]);
                assert(precedes(k0, o0[p], o0[q - 1]));
            } else if p == pos {
                assert(o[q] == o0[q - 1]);
            } else {
                assert(o[p] == o0[p - 1] && o[q] == o0[q - 1]);
                assert(precedes(k0, o0[p - 1], o0[q - 1]));
            }
        }
        assert(is_sort_order(keys, o));
    }
}

/// What sorting newest first guarantees, for any items and keys: the result
/// is the items permuted, it runs from newest to oldest key, and items with
/// equal keys keep their original relative order.
pub proof fn lemma_sorted_newest_first<T>(items: Seq<T>, keys: Seq<KeyView>)
    requires
        items.len() == keys.len(),
    ensures
        sorted_newest_first(items, keys).len() == items.len(),
        forall|k: int| #![trigger sorted_newest_first(items, keys)[k]]
            0 <= k < items.len() ==> 0 <= sort_order(keys)[k] < items.len()
            && sorted_newest_first(items, keys)[k] == items[sort_order(keys)[k]],
        forall|i: int| 0 <= i < items.len() ==> #[trigger] lists(sorted_newest_first(items, keys), items[i]),
        forall|p: int, q: int| 0 <= p < q < items.len() ==> !key_less(
            #[trigger] keys[sort_order(keys)[p]],
            #[trigger] keys[sort_order(keys)[q]],
        ),
        forall|p: int, q: int| 0 <= p < q < items.len() && keys[sort_order(keys)[p]] == keys[sort_order(keys)[q]]
            ==> #[trigger] sort_order(keys)[p] < #[trigger] sort_order(keys)[q],
{
    lemma_sort_order_exists(keys);
    let o = sort_order(keys);
    let r = sorted_newest_first(items, keys);
    assert forall|i: int| 0 <= i < items.len() implies #[trigger] lists(r, items[i]) by {
        assert(lists(o, i));
        let k = choose|k: int| 0 <= k < o.len() && o[k] == i;
        assert(r[k] == items[i]);
    }
    assert forall|p: int, q: int| 0 <= p < q < items.len() implies !key_less(
        #[trigger] keys[o[p]],
        #[trigger] keys[o[q]],
    ) by {
        assert(precedes(keys, o[p], o[q]));
        lemma_key_order(keys[o[p]], keys[o[q]], keys[o[q]]);
    }
    assert forall|p: int, q: int| 0 <= p < q < items.len() && keys[o[p]] == keys[o[q]] implies #[trigger] o[p] < #[trigger] o[q] by {
        assert(precedes(keys, o[p], o[q]));
        lemma_key_order(keys[o[p]], keys[o[q]], keys[o[q]]);
    }
}

} // verus!
