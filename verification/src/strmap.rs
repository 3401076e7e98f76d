//! A map from strings to values that keeps its entries sorted by key.
//!
//! It stands where a hash map keyed by `String` would be used: lookups and
//! inserts behave as on a map, and walking the entries visits the keys in
//! ascending order, which is the order in which XML attributes and kernel
//! limits are written out.

use vstd::prelude::*;
use crate::text::{
    chars_eq, chars_lt, lemma_text_lt_asymmetric, lemma_text_lt_irreflexive, lemma_text_lt_total,
    lemma_text_lt_transitive, str_chars, text_lt,
};

verus! {

broadcast use vstd::string::group_string_axioms;

/// Keys strictly ascending, hence distinct.
pub open spec fn keys_sorted<W>(s: Seq<(Seq<char>, W)>) -> bool {
    forall|i: int, j: int| 0 <= i < j < s.len() ==> text_lt(#[trigger] s[i].0, #[trigger] s[j].0)
}

/// Inserting a key into a sorted entry list: a present key gets the new value,
/// a new key goes before the first larger key.
pub open spec fn map_insert<W>(s: Seq<(Seq<char>, W)>, k: Seq<char>, v: W) -> Seq<(Seq<char>, W)>
    decreases s.len(),
{
    if s.len() == 0 {
        seq![(k, v)]
    } else if s[0].0 == k {
        s.update(0, (k, v))
    } else if text_lt(k, s[0].0) {
        seq![(k, v)] + s
    } else {
        seq![s[0]] + map_insert(s.drop_first(), k, v)
    }
}

/// The value of the first entry with key `k`.
pub open spec fn map_get<W>(s: Seq<(Seq<char>, W)>, k: Seq<char>) -> Option<W>
    decreases s.len(),
{
    if s.len() == 0 {
        None
    } else if s[0].0 == k {
        Some(s[0].1)
    } else {
        map_get(s.drop_first(), k)
    }
}

/// Entries sorted by key, each key once.
#[derive(Debug)]
pub struct StrMap<V: View> {
    entries: Vec<(String, V)>,
}

impl<V: View> View for StrMap<V> {
    type V = Seq<(Seq<char>, V::V)>;

    closed spec fn view(&self) -> Seq<(Seq<char>, V::V)> {
        self.entries@.map_values(|p: (String, V)| (p.0@, p.1@))
    }
}

// ---------------------------------------------------------------------------
// Lemmas on sorted entry lists
// ---------------------------------------------------------------------------

/// Position of the first key that is not smaller than `k`.
pub open spec fn lower_bound<W>(s: Seq<(Seq<char>, W)>, k: Seq<char>, p: int) -> bool {
    &&& 0 <= p <= s.len()
    &&& forall|i: int| 0 <= i < p ==> text_lt(#[trigger] s[i].0, k)
    &&& p < s.len() ==> !text_lt(s[p].0, k)
}

proof fn lemma_insert_at<W>(s: Seq<(Seq<char>, W)>, k: Seq<char>, v: W, p: int)
    requires
        keys_sorted(s),
        lower_bound(s, k, p),
    ensures
        p < s.len() && s[p].0 == k ==> map_insert(s, k, v) == s.update(p, (k, v)),
        !(p < s.len() && s[p].0 == k) ==> map_insert(s, k, v) == s.take(p) + seq![(k, v)] + s.skip(p),
    decreases s.len(),
{
    if s.len() == 0 {
        assert(s.take(p) + seq![(k, v)] + s.skip(p) =~= seq![(k, v)]);
    } else if p == 0 {
        if s[0].0 == k {
        } else {
            lemma_text_lt_total(k, s[0].0);
            assert(s.take(0) + seq![(k, v)] + s.skip(0) =~= seq![(k, v)] + s);
        }
    } else {
        assert(text_lt(s[0].0, k));
        lemma_text_lt_irreflexive(k);
        lemma_text_lt_asymmetric(s[0].0, k);
        let t = s.drop_first();
        assert(keys_sorted(t)) by {
            assert forall|i: int, j: int| 0 <= i < j < t.len() implies text_lt(
                #[trigger] t[i].0,
                #[trigger] t[j].0,
            ) by {
                assert(t[i] == s[i + 1]);
                assert(t[j] == s[j + 1]);
            }
        }
        assert(lower_bound(t, k, p - 1)) by {
            assert forall|i: int| 0 <= i < p - 1 implies text_lt(#[trigger] t[i].0, k) by {
                assert(t[i] == s[i + 1]);
            }
        }
        lemma_insert_at(t, k, v, p - 1);
        if p < s.len() && s[p].0 == k {
            assert(map_insert(s, k, v) =~= s.update(p, (k, v)));
        } else {
            assert(map_insert(s, k, v) =~= s.take(p) + seq![(k, v)] + s.skip(p));
        }
    }
}

proof fn lemma_insert_sorted<W>(s: Seq<(Seq<char>, W)>, k: Seq<char>, v: W, p: int)
    requires
        keys_sorted(s),
        lower_bound(s, k, p),
    ensures
        keys_sorted(map_insert(s, k, v)),
{
    lemma_insert_at(s, k, v, p);
    let r = map_insert(s, k, v);
    if p < s.len() && s[p].0 == k {
        assert forall|i: int, j: int| 0 <= i < j < r.len() implies text_lt(
            #[trigger] r[i].0,
            #[trigger] r[j].0,
        ) by {
            assert(r[i].0 == s[i].0);
            assert(r[j].0 == s[j].0);
        }
    } else {
        if p < s.len() {
            lemma_text_lt_total(k, s[p].0);
        }
        assert forall|i: int, j: int| 0 <= i < j < r.len() implies text_lt(
            #[trigger] r[i].0,
            #[trigger] r[j].0,
        ) by {
            if j < p {
                assert(r[i] == s[i] && r[j] == s[j]);
            } else if j == p {
                assert(r[i] == s[i] && r[j].0 == k);
            } else if i < p {
                assert(r[i] == s[i] && r[j] == s[j - 1]);
                assert(text_lt(s[i].0, k));
                if j - 1 > p {
                    lemma_text_lt_transitive(k, s[p].0, s[j - 1].0);
                }
                lemma_text_lt_transitive(s[i].0, k, s[j - 1].0);
            } else if i == p {
                assert(r[i].0 == k && r[j] == s[j - 1]);
                if j - 1 > p {
                    lemma_text_lt_transitive(k, s[p].0, s[j - 1].0);
                }
            } else {
                assert(r[i] == s[i - 1] && r[j] == s[j - 1]);
            }
        }
    }
}

proof fn lemma_get_skip<W>(s: Seq<(Seq<char>, W)>, k: Seq<char>, i: int)
    requires
        0 <= i <= s.len(),
        forall|j: int| 0 <= j < i ==> (#[trigger] s[j]).0 != k,
    ensures
        map_get(s, k) == map_get(s.skip(i), k),
    decreases i,
{
    if i > 0 {
        lemma_get_skip(s, k, i - 1);
        assert(s.skip(i - 1).drop_first() =~= s.skip(i));
        assert(s.skip(i - 1)[0] == s[i - 1]);
    } else {
        assert(s.skip(0) =~= s);
    }
}

/// Looking a key up after inserting it gives the inserted value; other keys
/// keep their values.
pub proof fn lemma_map_insert_get<W>(s: Seq<(Seq<char>, W)>, k: Seq<char>, v: W, q: Seq<char>)
    ensures
        map_get(map_insert(s, k, v), q) == if q == k {
            Some(v)
        } else {
            map_get(s, q)
        },
    decreases s.len(),
{
    if s.len() == 0 {
        let r = seq![(k, v)];
        assert(map_insert(s, k, v) == r);
        assert(r.drop_first() =~= Seq::<(Seq<char>, W)>::empty());
        assert(map_get(r, q) == if q == k {
            Some(v)
        } else {
            map_get(r.drop_first(), q)
        });
    } else if s[0].0 == k {
        let r = s.update(0, (k, v));
        assert(map_insert(s, k, v) == r);
        assert(r.drop_first() =~= s.drop_first());
        assert(map_get(r, q) == if q == k {
            Some(v)
        } else {
            map_get(r.drop_first(), q)
        });
    } else if text_lt(k, s[0].0) {
        let r = seq![(k, v)] + s;
        assert(map_insert(s, k, v) == r);
        assert(r.drop_first() =~= s);
        assert(r[0] == (k, v));
    } else {
        let r = seq![s[0]] + map_insert(s.drop_first(), k, v);
        assert(map_insert(s, k, v) == r);
        lemma_map_insert_get(s.drop_first(), k, v, q);
        assert(r.drop_first() =~= map_insert(s.drop_first(), k, v));
        assert(r[0] == s[0]);
    }
}

impl<V: View> StrMap<V> {
    #[verifier::type_invariant]
    spec fn inv(self) -> bool {
        keys_sorted(self@)
    }

    /// An empty map.
    pub fn new() -> (m: Self)
        ensures
            m@ == Seq::<(Seq<char>, V::V)>::empty(),
    {
        let m = StrMap { entries: Vec::new() };
        assert(m@ =~= Seq::<(Seq<char>, V::V)>::empty());
        m
    }

    /// Number of entries.
    pub fn len(&self) -> (n: usize)
        ensures
            n == self@.len(),
            keys_sorted(self@),
    {
        proof {
            use_type_invariant(self);
        }
        self.entries.len()
    }

    /// Whether there are no entries.
    pub fn is_empty(&self) -> (b: bool)
        ensures
            b == (self@.len() == 0),
    {
        self.entries.len() == 0
    }

    /// The key of the `i`-th entry in ascending key order.
    pub fn key_at(&self, i: usize) -> (k: &String)
        requires
            i < self@.len(),
        ensures
            k@ == self@[i as int].0,
    {
        &self.entries[i].0
    }

    /// The value of the `i`-th entry in ascending key order.
    pub fn value_at(&self, i: usize) -> (v: &V)
        requires
            i < self@.len(),
        ensures
            v@ == self@[i as int].1,
    {
        &self.entries[i].1
    }

    /// Looks a key up.
    pub fn get_chars(&self, key: &[char]) -> (r: Option<&V>)
        ensures
            match map_get(self@, key@) {
                Some(v) => r matches Some(x) && x@ == v,
                None => r is None,
            },
    {
        let mut i: usize = 0;
        while i < self.entries.len()
            invariant
                i <= self@.len(),
                self@.len() == self.entries@.len(),
                forall|j: int| 0 <= j < i ==> (#[trigger] self@[j]).0 != key@,
            decreases self.entries.len() - i,
        {
            let k = str_chars(self.entries[i].0.as_str());
            if chars_eq(k.as_slice(), key) {
                proof {
                    lemma_get_skip(self@, key@, i as int);
                    assert(self@.skip(i as int)[0] == self@[i as int]);
                }
                return Some(&self.entries[i].1);
            }
            i = i + 1;
        }
        proof {
            lemma_get_skip(self@, key@, i as int);
        }
        None
    }

    /// Looks a key up.
    pub fn get(&self, key: &str) -> (r: Option<&V>)
        ensures
            match map_get(self@, key@) {
                Some(v) => r matches Some(x) && x@ == v,
                None => r is None,
            },
    {
        let k = str_chars(key);
        self.get_chars(k.as_slice())
    }

    /// Whether a key is present.
    pub fn contains_key(&self, key: &str) -> (b: bool)
        ensures
            b == map_get(self@, key@) is Some,
    {
        self.get(key).is_some()
    }

    /// Inserts or replaces the value of a key.
    pub fn insert(&mut self, key: String, value: V)
        ensures
            final(self)@ == map_insert(old(self)@, key@, value@),
    {
        proof {
            use_type_invariant(&*self);
        }
        let mut entries: Vec<(String, V)> = Vec::new();
        std::mem::swap(&mut entries, &mut self.entries);
        let ghost s = entries@.map_values(|p: (String, V)| (p.0@, p.1@));
        assert(keys_sorted(s));
        let kc = str_chars(key.as_str());
        let mut p: usize = 0;
        while p < entries.len()
            invariant
                p <= entries@.len(),
                s == entries@.map_values(|p: (String, V)| (p.0@, p.1@)),
                kc@ == key@,
                forall|i: int| 0 <= i < p ==> text_lt(#[trigger] s[i].0, key@),
            ensures
                p <= entries@.len(),
                forall|i: int| 0 <= i < p ==> text_lt(#[trigger] s[i].0, key@),
                p < entries@.len() ==> !text_lt(s[p as int].0, key@),
            decreases entries.len() - p,
        {
            let ec = str_chars(entries[p].0.as_str());
            if !chars_lt(ec.as_slice(), kc.as_slice()) {
                break;
            }
            p = p + 1;
        }
        proof {
            lemma_insert_at(s, key@, value@, p as int);
            lemma_insert_sorted(s, key@, value@, p as int);
        }
        let mut same = false;
        if p < entries.len() {
            let ec = str_chars(entries[p].0.as_str());
            same = chars_eq(ec.as_slice(), kc.as_slice());
        }
        if same {
            entries.set(p, (key, value));
        } else {
            entries.insert(p, (key, value));
        }
        assert(entries@.map_values(|p: (String, V)| (p.0@, p.1@)) =~= map_insert(s, key@, value@));
        self.entries = entries;
    }
}

} // verus!
