//! A map from strings to values, kept as a vector of entries sorted by key
//! in the lexicographic order. Keyed histogram storage and every serialized
//! object use it, which is what makes serialization deterministic.

use vstd::prelude::*;

use crate::json::{
    lex_lt, lemma_lex_asymmetric, lemma_lex_connected, lemma_lex_irreflexive, lemma_lex_transitive,
    str_lex_cmp, str_lex_eq,
};

verus! {

/// Does some entry of `s` carry the key `k`?
pub open spec fn assoc_has_key<V>(s: Seq<(Seq<char>, V)>, k: Seq<char>) -> bool {
    exists|i: int| 0 <= i < s.len() && s[i].0 == k
}

/// Are the keys of `s` strictly sorted?
pub open spec fn assoc_sorted<V>(s: Seq<(Seq<char>, V)>) -> bool {
    forall|i: int, j: int| 0 <= i < j < s.len() ==> lex_lt(s[i].0, s[j].0)
}

/// The map that a sequence of entries stands for; an earlier entry wins over
/// a later one with the same key.
pub open spec fn assoc_map<V>(s: Seq<(Seq<char>, V)>) -> Map<Seq<char>, V>
    decreases s.len(),
{
    if s.len() == 0 {
        Map::empty()
    } else {
        assoc_map(s.drop_first()).insert(s[0].0, s[0].1)
    }
}

/// Entry insertion into a sorted sequence: before the first larger key, or
/// in place of an equal one.
pub open spec fn assoc_insert<V>(s: Seq<(Seq<char>, V)>, k: Seq<char>, v: V) -> Seq<
    (Seq<char>, V),
>
    decreases s.len(),
{
    if s.len() == 0 {
        seq![(k, v)]
    } else if lex_lt(k, s[0].0) {
        seq![(k, v)] + s
    } else if k == s[0].0 {
        seq![(k, v)] + s.drop_first()
    } else {
        seq![s[0]] + assoc_insert(s.drop_first(), k, v)
    }
}

pub proof fn lemma_assoc_map_dom<V>(s: Seq<(Seq<char>, V)>, k: Seq<char>)
    ensures
        assoc_map(s).dom().contains(k) <==> assoc_has_key(s, k),
    decreases s.len(),
{
    if s.len() > 0 {
        lemma_assoc_map_dom(s.drop_first(), k);
        if assoc_has_key(s.drop_first(), k) {
            let i = choose|i: int| 0 <= i < s.drop_first().len() && s.drop_first()[i].0 == k;
            assert(s[i + 1].0 == k);
        }
        if s[0].0 != k && assoc_has_key(s, k) {
            let i = choose|i: int| 0 <= i < s.len() && s[i].0 == k;
            assert(s.drop_first()[i - 1].0 == k);
        }
    }
}

/// In a sorted sequence, the map carries each entry to its value.
pub proof fn lemma_assoc_map_at<V>(s: Seq<(Seq<char>, V)>, i: int)
    requires
        assoc_sorted(s),
        0 <= i < s.len(),
    ensures
        assoc_map(s).dom().contains(s[i].0),
        assoc_map(s)[s[i].0] == s[i].1,
    decreases s.len(),
{
    if i == 0 {
    } else {
        assert(s.drop_first()[i - 1] == s[i]);
        lemma_assoc_map_at(s.drop_first(), i - 1);
        lemma_lex_irreflexive(s[0].0);
        assert(s[0].0 != s[i].0);
    }
}

/// What insertion does: the result is sorted, stands for the updated map,
/// and carries exactly the old keys and the new one.
pub proof fn lemma_assoc_insert<V>(s: Seq<(Seq<char>, V)>, k: Seq<char>, v: V)
    requires
        assoc_sorted(s),
    ensures
        assoc_sorted(assoc_insert(s, k, v)),
        assoc_map(assoc_insert(s, k, v)) =~= assoc_map(s).insert(k, v),
        forall|x: Seq<char>|
            assoc_has_key(assoc_insert(s, k, v), x) <==> (x == k || assoc_has_key(s, x)),
        assoc_insert(s, k, v).len() == s.len() + (if assoc_has_key(s, k) {
            0int
        } else {
            1int
        }),
    decreases s.len(),
{
    let r = assoc_insert(s, k, v);
    if s.len() == 0 {
        assert forall|x: Seq<char>| assoc_has_key(r, x) implies (x == k || assoc_has_key(s, x)) by {
            let i = choose|i: int| 0 <= i < r.len() && r[i].0 == x;
        }
        assert(r[0].0 == k);
        assert(r.drop_first() =~= s);
        assert(assoc_map(r) =~= assoc_map(s).insert(k, v));
    } else if lex_lt(k, s[0].0) {
        assert forall|i: int, j: int| 0 <= i < j < r.len() implies lex_lt(r[i].0, r[j].0) by {
            if i == 0 {
                if j > 1 {
                    lemma_lex_transitive(k, s[0].0, s[j - 1].0);
                }
            }
        }
        assert forall|x: Seq<char>| assoc_has_key(r, x) implies (x == k || assoc_has_key(s, x)) by {
            let i = choose|i: int| 0 <= i < r.len() && r[i].0 == x;
            if i > 0 {
                assert(s[i - 1].0 == x);
            }
        }
        assert(r[0].0 == k);
        assert forall|x: Seq<char>| assoc_has_key(s, x) implies assoc_has_key(r, x) by {
            let i = choose|i: int| 0 <= i < s.len() && s[i].0 == x;
            assert(r[i + 1].0 == x);
        }
        if assoc_has_key(s, k) {
            let i = choose|i: int| 0 <= i < s.len() && s[i].0 == k;
            if i > 0 {
                lemma_lex_transitive(k, s[0].0, s[i].0);
            }
            lemma_lex_irreflexive(k);
        }
        assert(r.drop_first() =~= s);
        assert(assoc_map(r) =~= assoc_map(s).insert(k, v));
    } else if k == s[0].0 {
        assert forall|i: int, j: int| 0 <= i < j < r.len() implies lex_lt(r[i].0, r[j].0) by {
            if i == 0 {
                assert(r[j].0 == s[j].0);
            } else {
                assert(r[i].0 == s[i].0 && r[j].0 == s[j].0);
            }
        }
        assert forall|x: Seq<char>| assoc_has_key(r, x) implies (x == k || assoc_has_key(s, x)) by {
            let i = choose|i: int| 0 <= i < r.len() && r[i].0 == x;
            if i > 0 {
                assert(s[i].0 == x);
            }
        }
        assert(r[0].0 == k);
        assert forall|x: Seq<char>| x != k && assoc_has_key(s, x) implies assoc_has_key(r, x) by {
            let i = choose|i: int| 0 <= i < s.len() && s[i].0 == x;
            assert(r[i].0 == x);
        }
        assert(assoc_has_key(s, k)) by {
            assert(s[0].0 == k);
        }
        assert(r.drop_first() =~= s.drop_first());
        assert(assoc_map(r) =~= assoc_map(s).insert(k, v));
    } else {
        lemma_lex_connected(k, s[0].0);
        assert(lex_lt(s[0].0, k));
        lemma_assoc_insert(s.drop_first(), k, v);
        let rr = assoc_insert(s.drop_first(), k, v);
        assert(forall|x: Seq<char>|
            assoc_has_key(rr, x) <==> (x == k || assoc_has_key(s.drop_first(), x))) by {
            assert(forall|x: Seq<char>|
                assoc_has_key(#[trigger] assoc_insert(s.drop_first(), k, v), x) <==> (x == k
                    || assoc_has_key(s.drop_first(), x)));
        }
        assert(r =~= seq![s[0]] + rr);
        assert forall|i: int, j: int| 0 <= i < j < r.len() implies lex_lt(r[i].0, r[j].0) by {
            if i == 0 {
                let x = r[j].0;
                assert(x == rr[j - 1].0);
                assert(assoc_has_key(rr, x)) by {
                    assert(rr[j - 1].0 == x);
                }
                if x != k {
                    assert(assoc_has_key(s.drop_first(), x));
                    let m = choose|m: int|
                        0 <= m < s.drop_first().len() && s.drop_first()[m].0 == x;
                    assert(s[m + 1].0 == x);
                    assert(lex_lt(s[0].0, s[m + 1].0));
                }
            } else {
                assert(r[i].0 == rr[i - 1].0 && r[j].0 == rr[j - 1].0);
            }
        }
        assert forall|x: Seq<char>| assoc_has_key(r, x) implies (x == k || assoc_has_key(s, x)) by {
            let i = choose|i: int| 0 <= i < r.len() && r[i].0 == x;
            if i > 0 {
                assert(assoc_has_key(rr, x)) by {
                    assert(rr[i - 1].0 == x);
                }
                if x != k {
                    assert(assoc_has_key(s.drop_first(), x));
                    let m = choose|m: int|
                        0 <= m < s.drop_first().len() && s.drop_first()[m].0 == x;
                    assert(s[m + 1].0 == x);
                }
            }
        }
        assert forall|x: Seq<char>| x == k || assoc_has_key(s, x) implies assoc_has_key(r, x) by {
            if x == k {
                assert(assoc_has_key(rr, k));
                let m = choose|m: int| 0 <= m < rr.len() && rr[m].0 == k;
                assert(r[m + 1].0 == k);
            } else {
                let i = choose|i: int| 0 <= i < s.len() && s[i].0 == x;
                if i == 0 {
                    assert(r[0].0 == x);
                } else {
                    assert(assoc_has_key(rr, x)) by {
                        assert(s.drop_first()[i - 1].0 == x);
                    }
                    let m = choose|m: int| 0 <= m < rr.len() && rr[m].0 == x;
                    assert(r[m + 1].0 == x);
                }
            }
        }
        lemma_lex_irreflexive(k);
        if assoc_has_key(s, k) {
            let i = choose|i: int| 0 <= i < s.len() && s[i].0 == k;
            assert(s.drop_first()[i - 1].0 == k);
            assert(assoc_has_key(s.drop_first(), k));
        }
        if assoc_has_key(s.drop_first(), k) {
            let i = choose|i: int| 0 <= i < s.drop_first().len() && s.drop_first()[i].0 == k;
            assert(s[i + 1].0 == k);
        }
        assert(r.drop_first() =~= rr);
        assert(assoc_map(r) =~= assoc_map(s).insert(k, v));
    }
}

/// Where insertion lands: splicing at the position that `lower_bound` finds
/// is the same as the recursive insertion.
pub proof fn lemma_assoc_insert_at<V>(s: Seq<(Seq<char>, V)>, k: Seq<char>, v: V, p: int)
    requires
        assoc_sorted(s),
        0 <= p <= s.len(),
        forall|i: int| 0 <= i < p ==> lex_lt(s[i].0, k),
        p < s.len() ==> !lex_lt(s[p].0, k),
    ensures
        p < s.len() && s[p].0 == k ==> assoc_insert(s, k, v) =~= s.update(p, (k, v)),
        !(p < s.len() && s[p].0 == k) ==> assoc_insert(s, k, v) =~= s.subrange(0, p) + seq![
            (k, v),
        ] + s.subrange(p, s.len() as int),
    decreases p,
{
    if p == 0 {
        if s.len() == 0 {
            assert(assoc_insert(s, k, v) =~= s.subrange(0, 0) + seq![(k, v)] + s.subrange(
                0,
                s.len() as int,
            ));
        } else if s[0].0 == k {
            lemma_lex_irreflexive(k);
            assert(assoc_insert(s, k, v) =~= s.update(0, (k, v)));
        } else {
            lemma_lex_connected(k, s[0].0);
            assert(lex_lt(k, s[0].0));
            assert(assoc_insert(s, k, v) =~= s.subrange(0, 0) + seq![(k, v)] + s.subrange(
                0,
                s.len() as int,
            ));
        }
    } else {
        lemma_lex_irreflexive(s[0].0);
        lemma_lex_asymmetric(s[0].0, k);
        assert(!lex_lt(k, s[0].0) && k != s[0].0);
        lemma_assoc_insert_at(s.drop_first(), k, v, p - 1);
        let rr = assoc_insert(s.drop_first(), k, v);
        if p < s.len() && s[p].0 == k {
            assert(s.drop_first()[p - 1] == s[p]);
            assert(assoc_insert(s, k, v) =~= s.update(p, (k, v)));
        } else {
            assert(assoc_insert(s, k, v) =~= s.subrange(0, p) + seq![(k, v)] + s.subrange(
                p,
                s.len() as int,
            ));
        }
    }
}


/// Every entry of an insertion result is the new pair or one of the old
/// entries.
pub proof fn lemma_assoc_insert_entries<V>(s: Seq<(Seq<char>, V)>, k: Seq<char>, v: V)
    ensures
        forall|j: int|
            0 <= j < assoc_insert(s, k, v).len() ==> (#[trigger] assoc_insert(s, k, v)[j] == (k, v)
                || exists|m: int| 0 <= m < s.len() && assoc_insert(s, k, v)[j] == s[m]),
    decreases s.len(),
{
    let r = assoc_insert(s, k, v);
    if s.len() == 0 {
    } else if lex_lt(k, s[0].0) {
        assert forall|j: int| 0 <= j < r.len() implies (r[j] == (k, v) || exists|m: int|
            0 <= m < s.len() && r[j] == s[m]) by {
            if j > 0 {
                assert(r[j] == s[j - 1]);
            }
        }
    } else if k == s[0].0 {
        assert forall|j: int| 0 <= j < r.len() implies (r[j] == (k, v) || exists|m: int|
            0 <= m < s.len() && r[j] == s[m]) by {
            if j > 0 {
                assert(r[j] == s[j]);
            }
        }
    } else {
        lemma_assoc_insert_entries(s.drop_first(), k, v);
        let rr = assoc_insert(s.drop_first(), k, v);
        assert forall|j: int| 0 <= j < r.len() implies (r[j] == (k, v) || exists|m: int|
            0 <= m < s.len() && r[j] == s[m]) by {
            if j == 0 {
                assert(r[0] == s[0]);
            } else {
                assert(r[j] == rr[j - 1]);
                if rr[j - 1] == (k, v) {
                } else {
                    let m = choose|m: int|
                        0 <= m < s.drop_first().len() && rr[j - 1] == s.drop_first()[m];
                    assert(r[j] == s[m + 1]);
                }
            }
        }
    }
}

/// Entries whose values are executable, carried over to their views.
pub open spec fn assoc_views<V: View>(s: Seq<(Seq<char>, V)>) -> Seq<(Seq<char>, V::V)> {
    Seq::new(s.len(), |i: int| (s[i].0, s[i].1@))
}

/// Inserting an entry and taking the views commute.
pub proof fn lemma_assoc_views_insert<V: View>(s: Seq<(Seq<char>, V)>, k: Seq<char>, v: V)
    ensures
        assoc_views(assoc_insert(s, k, v)) =~= assoc_insert(assoc_views(s), k, v@),
    decreases s.len(),
{
    if s.len() == 0 {
    } else if lex_lt(k, s[0].0) {
    } else if k == s[0].0 {
        assert(assoc_views(s).drop_first() =~= assoc_views(s.drop_first()));
    } else {
        lemma_assoc_views_insert(s.drop_first(), k, v);
        assert(assoc_views(s).drop_first() =~= assoc_views(s.drop_first()));
    }
}


/// Two sorted entry sequences that carry the same keys, and agree on the
/// value wherever their keys agree, are one and the same sequence: the
/// sorted form of a map is unique.
pub proof fn lemma_sorted_assoc_unique<V>(s1: Seq<(Seq<char>, V)>, s2: Seq<(Seq<char>, V)>)
    requires
        assoc_sorted(s1),
        assoc_sorted(s2),
        forall|x: Seq<char>| assoc_has_key(s1, x) <==> assoc_has_key(s2, x),
        forall|i: int, j: int|
            0 <= i < s1.len() && 0 <= j < s2.len() && (#[trigger] s1[i]).0 == (
            #[trigger] s2[j]).0 ==> s1[i].1 == s2[j].1,
    ensures
        s1 =~= s2,
    decreases s1.len(),
{
    if s1.len() == 0 {
        if s2.len() > 0 {
            assert(assoc_has_key(s2, s2[0].0));
            assert(assoc_has_key(s1, s2[0].0));
        }
    } else if s2.len() == 0 {
        assert(assoc_has_key(s1, s1[0].0));
        assert(assoc_has_key(s2, s1[0].0));
    } else {
        // The heads carry the same key: each head's key occurs in the
        // other sequence, and anywhere but the front it would be larger.
        assert(assoc_has_key(s2, s1[0].0)) by {
            assert(assoc_has_key(s1, s1[0].0));
        }
        let j = choose|j: int| 0 <= j < s2.len() && s2[j].0 == s1[0].0;
        assert(assoc_has_key(s1, s2[0].0)) by {
            assert(assoc_has_key(s2, s2[0].0));
        }
        let i = choose|i: int| 0 <= i < s1.len() && s1[i].0 == s2[0].0;
        if j > 0 {
            assert(lex_lt(s2[0].0, s1[0].0));
        }
        if i > 0 {
            assert(lex_lt(s1[0].0, s2[0].0));
        }
        lemma_lex_asymmetric(s1[0].0, s2[0].0);
        lemma_lex_irreflexive(s1[0].0);
        if i > 0 && j > 0 {
        } else {
        }
        assert(s1[0].0 == s2[0].0) by {
            if i == 0 {
            } else if j == 0 {
            } else {
                lemma_lex_asymmetric(s2[0].0, s1[0].0);
            }
        }
        assert(s1[0].1 == s2[0].1);
        // The head key does not recur in either tail, so the tails carry
        // the same keys and the induction closes.
        assert forall|x: Seq<char>|
            assoc_has_key(s1.drop_first(), x) implies assoc_has_key(s2.drop_first(), x) by {
            let m = choose|m: int| 0 <= m < s1.drop_first().len() && s1.drop_first()[m].0 == x;
            assert(s1[m + 1].0 == x);
            assert(lex_lt(s1[0].0, x));
            assert(assoc_has_key(s1, x));
            assert(assoc_has_key(s2, x));
            let n = choose|n: int| 0 <= n < s2.len() && s2[n].0 == x;
            lemma_lex_irreflexive(x);
            assert(n != 0);
            assert(s2.drop_first()[n - 1].0 == x);
        }
        assert forall|x: Seq<char>|
            assoc_has_key(s2.drop_first(), x) implies assoc_has_key(s1.drop_first(), x) by {
            let m = choose|m: int| 0 <= m < s2.drop_first().len() && s2.drop_first()[m].0 == x;
            assert(s2[m + 1].0 == x);
            assert(lex_lt(s2[0].0, x));
            assert(assoc_has_key(s2, x));
            assert(assoc_has_key(s1, x));
            let n = choose|n: int| 0 <= n < s1.len() && s1[n].0 == x;
            lemma_lex_irreflexive(x);
            assert(n != 0);
            assert(s1.drop_first()[n - 1].0 == x);
        }
        assert forall|i2: int, j2: int|
            0 <= i2 < s1.drop_first().len() && 0 <= j2 < s2.drop_first().len() && (
            #[trigger] s1.drop_first()[i2]).0 == (#[trigger] s2.drop_first()[j2]).0 implies s1
            .drop_first()[i2].1 == s2.drop_first()[j2].1 by {
            assert(s1.drop_first()[i2] == s1[i2 + 1]);
            assert(s2.drop_first()[j2] == s2[j2 + 1]);
        }
        lemma_sorted_assoc_unique(s1.drop_first(), s2.drop_first());
        assert forall|k: int| 0 <= k < s1.len() implies s1[k] == s2[k] by {
            if k > 0 {
                assert(s1.drop_first()[k - 1] == s2.drop_first()[k - 1]);
            }
        }
    }
}

/// A map from strings to values of type `V`, kept sorted by key.
pub struct SortedMap<V> {
    pub entries: Vec<(String, V)>,
}

impl<V> SortedMap<V> {
    /// The entries, with each key as its character sequence.
    pub open spec fn kv(&self) -> Seq<(Seq<char>, V)> {
        Seq::new(self.entries@.len(), |i: int| (self.entries@[i].0@, self.entries@[i].1))
    }

    /// Keys strictly sorted.
    pub open spec fn wf(&self) -> bool {
        assoc_sorted(self.kv())
    }

    /// The map the entries stand for.
    pub open spec fn map_view(&self) -> Map<Seq<char>, V> {
        assoc_map(self.kv())
    }

    pub fn new() -> (r: Self)
        ensures
            r.kv() == Seq::<(Seq<char>, V)>::empty(),
            r.wf(),
            r.map_view() == Map::<Seq<char>, V>::empty(),
    {
        let r = SortedMap { entries: Vec::new() };
        proof {
            assert(r.kv() =~= Seq::<(Seq<char>, V)>::empty());
            assert(r.map_view() =~= Map::<Seq<char>, V>::empty());
        }
        r
    }

    pub fn len(&self) -> (r: usize)
        ensures
            r == self.kv().len(),
    {
        self.entries.len()
    }

    /// The least position whose key is not below `key`.
    fn lower_bound(&self, key: &str) -> (p: usize)
        requires
            self.wf(),
        ensures
            p <= self.kv().len(),
            forall|i: int| 0 <= i < p ==> lex_lt(self.kv()[i].0, key@),
            p < self.kv().len() ==> !lex_lt(self.kv()[p as int].0, key@),
    {
        let mut i: usize = 0;
        let n = self.entries.len();
        while i < n
            invariant
                self.wf(),
                i <= n,
                n == self.kv().len(),
                forall|j: int| 0 <= j < i ==> lex_lt(self.kv()[j].0, key@),
            decreases n - i,
        {
            let c = str_lex_cmp(self.entries[i].0.as_str(), key);
            if c != -1 {
                proof {
                    if c == 0 {
                        lemma_lex_irreflexive(key@);
                    } else {
                        lemma_lex_asymmetric(key@, self.kv()[i as int].0);
                    }
                }
                return i;
            }
            i = i + 1;
        }
        i
    }

    /// Inserts `key` with `value`, replacing an entry with an equal key.
    pub fn insert(&mut self, key: String, value: V)
        requires
            old(self).wf(),
        ensures
            final(self).wf(),
            final(self).kv() == assoc_insert(old(self).kv(), key@, value),
            final(self).map_view() == old(self).map_view().insert(key@, value),
    {
        let p = self.lower_bound(key.as_str());
        proof {
            lemma_assoc_insert(old(self).kv(), key@, value);
            lemma_assoc_insert_at(old(self).kv(), key@, value, p as int);
        }
        if p < self.entries.len() && str_lex_eq(self.entries[p].0.as_str(), key.as_str()) {
            let _old_entry = self.entries.remove(p);
            self.entries.insert(p, (key, value));
            proof {
                assert(self.kv() =~= old(self).kv().update(p as int, (key@, value)));
            }
        } else {
            self.entries.insert(p, (key, value));
            proof {
                assert(self.kv() =~= old(self).kv().subrange(0, p as int) + seq![(key@, value)]
                    + old(self).kv().subrange(p as int, old(self).kv().len() as int));
            }
        }
    }

    /// The position of `key`, where it is present.
    pub fn find(&self, key: &str) -> (r: Option<usize>)
        requires
            self.wf(),
        ensures
            match r {
                Option::Some(i) => i < self.kv().len() && self.kv()[i as int].0 == key@
                    && self.map_view().dom().contains(key@) && self.map_view()[key@]
                    == self.kv()[i as int].1,
                Option::None => !self.map_view().dom().contains(key@),
            },
    {
        let p = self.lower_bound(key);
        if p < self.entries.len() && str_lex_eq(self.entries[p].0.as_str(), key) {
            proof {
                lemma_assoc_map_at(self.kv(), p as int);
            }
            Option::Some(p)
        } else {
            proof {
                lemma_assoc_map_dom(self.kv(), key@);
                if assoc_has_key(self.kv(), key@) {
                    let i = choose|i: int| 0 <= i < self.kv().len() && self.kv()[i].0 == key@;
                    lemma_lex_irreflexive(key@);
                    if i < p {
                    } else {
                        assert(i > p);
                        assert(lex_lt(self.kv()[p as int].0, self.kv()[i].0));
                        lemma_lex_connected(self.kv()[p as int].0, key@);
                        lemma_lex_transitive(key@, self.kv()[p as int].0, self.kv()[i].0);
                    }
                }
            }
            Option::None
        }
    }

    /// Replaces the value at position `i`, returning the old value.
    pub fn replace_at(&mut self, i: usize, value: V) -> (r: V)
        requires
            old(self).wf(),
            i < old(self).kv().len(),
        ensures
            final(self).wf(),
            r == old(self).kv()[i as int].1,
            final(self).kv() == old(self).kv().update(i as int, (old(self).kv()[i as int].0, value)),
            final(self).map_view() == old(self).map_view().insert(old(self).kv()[i as int].0, value),
    {
        let ghost k = old(self).kv()[i as int].0;
        proof {
            lemma_lex_irreflexive(k);
            lemma_assoc_insert(old(self).kv(), k, value);
            lemma_assoc_insert_at(old(self).kv(), k, value, i as int);
        }
        let entry = self.entries.remove(i);
        let old_value = entry.1;
        self.entries.insert(i, (entry.0, value));
        proof {
            assert(self.kv() =~= old(self).kv().update(i as int, (k, value)));
        }
        old_value
    }
}

} // verus!
