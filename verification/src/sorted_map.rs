//! A map from strings to values that keeps its entries in ascending key
//! order, as `BTreeMap<String, V>` does.
use vstd::prelude::*;
use crate::text::chars_of;

verus! {

/// `a[i..] < b[i..]`, comparing characters by code point.
pub open spec fn str_less_from(a: Seq<char>, b: Seq<char>, i: int) -> bool
    decreases a.len() - i,
{
    if i >= a.len() {
        i < b.len()
    } else if i >= b.len() {
        false
    } else if a[i] < b[i] {
        true
    } else if a[i] > b[i] {
        false
    } else {
        str_less_from(a, b, i + 1)
    }
}

/// The order of `String`: lexicographic by code point (the byte order of
/// UTF-8 agrees with it).
pub open spec fn str_less(a: Seq<char>, b: Seq<char>) -> bool {
    str_less_from(a, b, 0)
}

proof fn lemma_str_irreflexive(a: Seq<char>, i: int)
    requires
        0 <= i,
    ensures
        !str_less_from(a, a, i),
    decreases a.len() - i,
{
    if i < a.len() {
        lemma_str_irreflexive(a, i + 1);
    }
}

proof fn lemma_str_transitive(a: Seq<char>, b: Seq<char>, c: Seq<char>, i: int)
    requires
        0 <= i,
        str_less_from(a, b, i),
        str_less_from(b, c, i),
    ensures
        str_less_from(a, c, i),
    decreases a.len() - i,
{
    if i < a.len() && i < b.len() && i < c.len() && a[i] == b[i] && b[i] == c[i] {
        lemma_str_transitive(a, b, c, i + 1);
    }
}

proof fn lemma_str_total(a: Seq<char>, b: Seq<char>, i: int)
    requires
        0 <= i <= a.len(),
        i <= b.len(),
        !str_less_from(a, b, i),
        !str_less_from(b, a, i),
    ensures
        a.len() == b.len(),
        forall|k: int| i <= k < a.len() ==> a[k] == b[k],
    decreases a.len() - i,
{
    if i < a.len() && i < b.len() {
        lemma_str_total(a, b, i + 1);
    }
}

/// `str_less` is a strict total order.
pub proof fn lemma_str_order(a: Seq<char>, b: Seq<char>, c: Seq<char>)
    ensures
        !str_less(a, a),
        str_less(a, b) ==> !str_less(b, a),
        str_less(a, b) && str_less(b, c) ==> str_less(a, c),
        !str_less(a, b) && !str_less(b, a) ==> a == b,
{
    lemma_str_irreflexive(a, 0);
    if str_less(a, b) && str_less(b, a) {
        lemma_str_transitive(a, b, a, 0);
    }
    if str_less(a, b) && str_less(b, c) {
        lemma_str_transitive(a, b, c, 0);
    }
    if !str_less(a, b) && !str_less(b, a) {
        lemma_str_total(a, b, 0);
        assert(a =~= b);
    }
}

/// `a < b` for strings.
pub fn str_less_exec(a: &str, b: &str) -> (r: bool)
    ensures
        r == str_less(a@, b@),
{
    let x = chars_of(a);
    let y = chars_of(b);
    let mut i: usize = 0;
    while i < x.len() && i < y.len()
        invariant
            x@ == a@,
            y@ == b@,
            i <= x@.len(),
            i <= y@.len(),
            str_less(a@, b@) == str_less_from(a@, b@, i as int),
        decreases x@.len() - i,
    {
        if x[i] < y[i] {
            return true;
        }
        if x[i] > y[i] {
            return false;
        }
        i = i + 1;
    }
    i < y.len()
}

/// The map that inserting `s`'s pairs one after another builds: a later
/// pair with the same key replaces an earlier one.
pub open spec fn pairs_to_map<V>(s: Seq<(Seq<char>, V)>) -> Map<Seq<char>, V>
    decreases s.len(),
{
    if s.len() == 0 {
        Map::empty()
    } else {
        pairs_to_map(s.drop_last()).insert(s.last().0, s.last().1)
    }
}

/// The keys of `s` strictly increase.
pub open spec fn keys_increasing<V>(s: Seq<(Seq<char>, V)>) -> bool {
    forall|p: int, q: int| 0 <= p < q < s.len() ==> str_less(#[trigger] s[p].0, #[trigger] s[q].0)
}

/// What `pairs_to_map` holds: the keys of `s`, each with the value of its
/// last pair.
pub proof fn lemma_pairs_to_map<V>(s: Seq<(Seq<char>, V)>)
    ensures
        forall|k: Seq<char>| #[trigger] pairs_to_map(s).contains_key(k) <==> exists|i: int|
            0 <= i < s.len() && s[i].0 == k,
        forall|i: int| 0 <= i < s.len() && (forall|j: int| i < j < s.len() ==> s[j].0 != s[i].0)
            ==> #[trigger] pairs_to_map(s)[s[i].0] == s[i].1,
    decreases s.len(),
{
    if s.len() > 0 {
        let s0 = s.drop_last();
        lemma_pairs_to_map(s0);
        assert forall|k: Seq<char>| #[trigger] pairs_to_map(s).contains_key(k) <==> exists|i: int|
            0 <= i < s.len() && s[i].0 == k by {
            if pairs_to_map(s0).contains_key(k) {
                let i = choose|i: int| 0 <= i < s0.len() && s0[i].0 == k;
                assert(s[i].0 == k);
            }
            if exists|i: int| 0 <= i < s.len() && s[i].0 == k {
                let i = choose|i: int| 0 <= i < s.len() && s[i].0 == k;
                if i < s.len() - 1 {
                    assert(s0[i].0 == k);
                }
            }
        }
        assert forall|i: int| 0 <= i < s.len() && (forall|j: int| i < j < s.len() ==> s[j].0 != s[i].0)
            implies #[trigger] pairs_to_map(s)[s[i].0] == s[i].1 by {
            if i < s.len() - 1 {
                assert(s0[i] == s[i]);
                assert forall|j: int| i < j < s0.len() implies s0[j].0 != s0[i].0 by {
                    assert(s0[j] == s[j]);
                }
                assert(pairs_to_map(s0)[s0[i].0] == s0[i].1);
                assert(s.last().0 != s[i].0);
                assert(pairs_to_map(s) == pairs_to_map(s0).insert(s.last().0, s.last().1));
            }
        }
    }
}

/// A map from strings to values, iterated in ascending key order.
pub struct SortedMap<V> {
    entries: Vec<(String, V)>,
}

/// The entries of a sorted map as key views and values.
pub open spec fn entry_views<V>(e: Seq<(String, V)>) -> Seq<(Seq<char>, V)> {
    e.map_values(|p: (String, V)| (p.0@, p.1))
}

impl<V> SortedMap<V> {
    #[verifier::type_invariant]
    spec fn entries_sorted(self) -> bool {
        keys_increasing(entry_views(self.entries@))
    }

    /// The entries, in ascending key order.
    pub closed spec fn entries_view(self) -> Seq<(Seq<char>, V)> {
        entry_views(self.entries@)
    }

    /// The map that the entries form.
    pub open spec fn view(self) -> Map<Seq<char>, V> {
        pairs_to_map(self.entries_view())
    }

    /// The empty map.
    pub fn new() -> (r: Self)
        ensures
            r.entries_view() == Seq::<(Seq<char>, V)>::empty(),
            r@ == Map::<Seq<char>, V>::empty(),
    {
        let r = SortedMap { entries: Vec::new() };
        assert(r.entries_view() =~= Seq::<(Seq<char>, V)>::empty());
        r
    }

    /// The entries, in ascending key order.
    pub fn entries(&self) -> (r: &Vec<(String, V)>)
        ensures
            entry_views(r@) == self.entries_view(),
            keys_increasing(self.entries_view()),
    {
        proof {
            use_type_invariant(self);
        }
        &self.entries
    }

    /// The number of keys.
    pub fn len(&self) -> (r: usize)
        ensures
            r == self.entries_view().len(),
    {
        self.entries.len()
    }

    /// The value stored under `key`.
    pub fn get(&self, key: &str) -> (r: Option<&V>)
        ensures
            r matches Some(v) ==> self@.contains_key(key@) && *v == self@[key@],
            r is None ==> !self@.contains_key(key@),
    {
        proof {
            use_type_invariant(self);
            lemma_pairs_to_map(self.entries_view());
        }
        let ghost ev = self.entries_view();
        let mut i: usize = 0;
        while i < self.entries.len()
            invariant
                ev == self.entries_view(),
                ev.len() == self.entries@.len(),
                keys_increasing(ev),
                i <= ev.len(),
                forall|j: int| 0 <= j < i ==> ev[j].0 != key@,
            decreases ev.len() - i,
        {
            if !str_less_exec(self.entries[i].0.as_str(), key) && !str_less_exec(key, self.entries[i].0.as_str()) {
                proof {
                    lemma_pairs_to_map(ev);
                    lemma_str_order(ev[i as int].0, key@, key@);
                    assert forall|j: int| i < j < ev.len() implies ev[j].0 != ev[i as int].0 by {
                        lemma_str_order(ev[i as int].0, ev[j].0, ev[j].0);
                    }
                }
                return Some(&self.entries[i].1);
            }
            proof {
                lemma_str_order(ev[i as int].0, key@, key@);
            }
            i = i + 1;
        }
        None
    }

    /// Inserts `value` under `key`, replacing any value stored there.
    pub fn insert(&mut self, key: String, value: V)
        ensures
            final(self)@ == old(self)@.insert(key@, value),
    {
        proof {
            use_type_invariant(&*self);
        }
        let ghost ev = self.entries_view();
        let mut pos: usize = 0;
        while pos < self.entries.len() && str_less_exec(self.entries[pos].0.as_str(), key.as_str())
            invariant
                ev == self.entries_view(),
                ev.len() == self.entries@.len(),
                keys_increasing(ev),
                pos <= ev.len(),
                forall|j: int| 0 <= j < pos ==> str_less(ev[j].0, key@),
            decreases ev.len() - pos,
        {
            pos = pos + 1;
        }
        proof {
            lemma_pairs_to_map(ev);
        }
        let same = pos < self.entries.len() && !str_less_exec(key.as_str(), self.entries[pos].0.as_str());
        if same {
            let ghost k0 = ev[pos as int].0;
            proof {
                lemma_str_order(k0, key@, key@);
            }
            let mut entries: Vec<(String, V)> = Vec::new();
            std::mem::swap(&mut entries, &mut self.entries);
            entries[pos] = (key, value);
            let ghost nv = entry_views(entries@);
            proof {
                assert(nv =~= ev.update(pos as int, (k0, value)));
                assert forall|p: int, q: int| 0 <= p < q < nv.len() implies str_less(#[trigger] nv[p].0, #[trigger] nv[q].0) by {
                    assert(nv[p].0 == ev[p].0 && nv[q].0 == ev[q].0);
                }
                lemma_pairs_to_map(nv);
                lemma_unique_keys(ev);
                lemma_unique_keys(nv);
                assert(pairs_to_map(nv) =~= pairs_to_map(ev).insert(k0, value)) by {
                    assert forall|k: Seq<char>| #[trigger] pairs_to_map(nv).contains_key(k) <==> pairs_to_map(ev).insert(k0, value).contains_key(k) by {
                        if exists|i: int| 0 <= i < ev.len() && ev[i].0 == k {
                            let i = choose|i: int| 0 <= i < ev.len() && ev[i].0 == k;
                            assert(nv[i].0 == k);
                        }
                        if exists|i: int| 0 <= i < nv.len() && nv[i].0 == k {
                            let i = choose|i: int| 0 <= i < nv.len() && nv[i].0 == k;
                            assert(ev[i].0 == k);
                        }
                    }
                    assert forall|k: Seq<char>| #[trigger] pairs_to_map(nv).contains_key(k) implies pairs_to_map(nv)[k] == pairs_to_map(ev).insert(k0, value)[k] by {
                        let i = choose|i: int| 0 <= i < nv.len() && nv[i].0 == k;
                        assert(pairs_to_map(nv)[nv[i].0] == nv[i].1);
                        if i != pos {
                            assert(pairs_to_map(ev)[ev[i].0] == ev[i].1);
                        }
                    }
                }
            }
            self.entries = entries;
        } else {
            let ghost kn = key@;
            let mut entries: Vec<(String, V)> = Vec::new();
            std::mem::swap(&mut entries, &mut self.entries);
            entries.insert(pos, (key, value));
            let ghost nv = entry_views(entries@);
            proof {
                assert(nv =~= ev.insert(pos as int, (kn, value)));
                if pos < ev.len() {
                    lemma_str_order(kn, ev[pos as int].0, ev[pos as int].0);
                }
                assert forall|p: int, q: int| 0 <= p < q < nv.len() implies str_less(#[trigger] nv[p].0, #[trigger] nv[q].0) by {
                    if q < pos {
                        assert(nv[p] == ev[p] && nv[q] == ev[q]);
                    } else if q == pos {
                        assert(nv[p] == ev[p]);
                    } else if p < pos {
                        assert(nv[p] == ev[p] && nv[q] == ev[q - 1]);
                        lemma_str_order(ev[p].0, kn, ev[pos as int].0);
                        if q - 1 > pos {
                            lemma_str_order(ev[p].0, ev[pos as int].0, ev[q - 1].0);
                        }
                    } else if p == pos {
                        assert(nv[q] == ev[q - 1]);
                        if q - 1 > pos {
                            lemma_str_order(kn, ev[pos as int].0, ev[q - 1].0);
                        }
                    } else {
                        assert(nv[p] == ev[p - 1] && nv[q] == ev[q - 1]);
                    }
                }
                lemma_pairs_to_map(nv);
                lemma_unique_keys(ev);
                lemma_unique_keys(nv);
                assert(pairs_to_map(nv) =~= pairs_to_map(ev).insert(kn, value)) by {
                    assert forall|k: Seq<char>| #[trigger] pairs_to_map(nv).contains_key(k) <==> pairs_to_map(ev).insert(kn, value).contains_key(k) by {
                        if k == kn {
                            assert(nv[pos as int].0 == k);
                        }
                        if exists|i: int| 0 <= i < ev.len() && ev[i].0 == k {
                            let i = choose|i: int| 0 <= i < ev.len() && ev[i].0 == k;
                            if i < pos {
                                assert(nv[i].0 == k);
                            } else {
                                assert(nv[i + 1].0 == k);
                            }
                        }
                        if exists|i: int| 0 <= i < nv.len() && nv[i].0 == k {
                            let i = choose|i: int| 0 <= i < nv.len() && nv[i].0 == k;
                            if i < pos {
                                assert(ev[i].0 == k);
                            } else if i > pos {
                                assert(ev[i - 1].0 == k);
                            }
                        }
                    }
                    assert forall|k: Seq<char>| #[trigger] pairs_to_map(nv).contains_key(k) implies pairs_to_map(nv)[k] == pairs_to_map(ev).insert(kn, value)[k] by {
                        let i = choose|i: int| 0 <= i < nv.len() && nv[i].0 == k;
                        assert(pairs_to_map(nv)[nv[i].0] == nv[i].1);
                        if i < pos {
                            assert(pairs_to_map(ev)[ev[i].0] == ev[i].1);
                        } else if i > pos {
                            assert(pairs_to_map(ev)[ev[i - 1].0] == ev[i - 1].1);
                        }
                    }
                }
            }
            self.entries = entries;
        }
    }
}

/// In a sequence with increasing keys no key repeats.
pub proof fn lemma_unique_keys<V>(s: Seq<(Seq<char>, V)>)
    requires
        keys_increasing(s),
    ensures
        forall|i: int, j: int| 0 <= i < s.len() && 0 <= j < s.len() && i != j ==> s[i].0 != s[j].0,
{
    assert forall|i: int, j: int| 0 <= i < s.len() && 0 <= j < s.len() && i != j implies s[i].0 != s[j].0 by {
        lemma_str_order(s[i].0, s[j].0, s[j].0);
        if i < j {
            assert(str_less(s[i].0, s[j].0));
        } else {
            assert(str_less(s[j].0, s[i].0));
            lemma_str_order(s[j].0, s[i].0, s[i].0);
        }
    }
}

} // verus!
