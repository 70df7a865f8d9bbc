//! A map from keys to the list of every value ever inserted under them,
//! backed by an association list.
use vstd::prelude::*;
use vstd::std_specs::cmp::PartialEqSpec;

verus! {

/// Whether `==` on a type is reliable and means structural equality; the
/// contracts below hold under this assumption, which the standard
/// specifications provide for primitive key types.
pub open spec fn eq_structural<K: PartialEq>() -> bool {
    &&& K::obeys_eq_spec()
    &&& forall|a: K, b: K| #[trigger] a.eq_spec(&b) <==> a == b
}

/// Keys with every value inserted under them, in insertion order.
pub struct MultiMap<K, V> where K: PartialEq + Clone {
    entries: Vec<(K, Vec<V>)>,
}

impl<K, V> View for MultiMap<K, V> where K: PartialEq + Clone {
    type V = Seq<(K, Seq<V>)>;

    closed spec fn view(&self) -> Seq<(K, Seq<V>)> {
        self.entries@.map(|i: int, p: (K, Vec<V>)| (p.0, p.1@))
    }
}

/// The values bound to a key: those of the first matching entry, if any.
pub open spec fn mm_lookup<K, V>(s: Seq<(K, Seq<V>)>, key: K) -> Option<Seq<V>>
    decreases s.len(),
{
    if s.len() == 0 {
        None
    } else if s[0].0 == key {
        Some(s[0].1)
    } else {
        mm_lookup(s.drop_first(), key)
    }
}

/// The list with one more value appended to the first entry matching the
/// key.
pub open spec fn mm_append<K, V>(s: Seq<(K, Seq<V>)>, key: K, value: V) -> Seq<(K, Seq<V>)>
    decreases s.len(),
{
    if s.len() == 0 {
        s
    } else if s[0].0 == key {
        seq![(s[0].0, s[0].1.push(value))] + s.drop_first()
    } else {
        seq![s[0]] + mm_append(s.drop_first(), key, value)
    }
}

impl<K, V> MultiMap<K, V> where K: PartialEq + Clone {
    /// An empty map.
    pub fn new() -> (r: MultiMap<K, V>)
        ensures
            r@ == Seq::<(K, Seq<V>)>::empty(),
    {
        let r = MultiMap { entries: Vec::new() };
        proof {
            assert(r@ =~= Seq::<(K, Seq<V>)>::empty());
        }
        r
    }

    /// The values inserted under a key, oldest first.
    pub fn get(&self, key: &K) -> (r: Option<&[V]>)
        requires
            eq_structural::<K>(),
        ensures
            match r {
                Some(v) => mm_lookup(self@, *key) == Some(v@),
                None => mm_lookup(self@, *key) is None,
            },
    {
        let n: usize = self.entries.len();
        let mut i: usize = 0;
        proof {
            assert(self@.skip(0) =~= self@);
        }
        while i < n
            invariant
                eq_structural::<K>(),
                n == self.entries.len(),
                0 <= i <= n,
                mm_lookup(self@, *key) == mm_lookup(self@.skip(i as int), *key),
            decreases n - i,
        {
            if self.entries[i].0 == *key {
                proof {
                    assert(self@.skip(i as int)[0] == self@[i as int]);
                }
                return Some(self.entries[i].1.as_slice());
            }
            proof {
                assert(self@.skip(i as int)[0] == self@[i as int]);
                assert(self@.skip(i as int).drop_first() =~= self@.skip(i as int + 1));
            }
            i += 1;
        }
        proof {
            assert(self@.skip(n as int) =~= Seq::<(K, Seq<V>)>::empty());
        }
        None
    }

    /// Adds a value under a key: appended to the key's list, or opening a
    /// fresh entry with a clone of the key.
    pub fn insert(&mut self, key: &K, value: V)
        requires
            eq_structural::<K>(),
        ensures
            match mm_lookup(old(self)@, *key) {
                Some(_) => final(self)@ == mm_append(old(self)@, *key, value),
                None => exists|ck: K|
                    vstd::pervasive::cloned::<K>(*key, ck) && final(self)@ == old(self)@.push(
                        (ck, seq![value]),
                    ),
            },
    {
        let n: usize = self.entries.len();
        let mut i: usize = 0;
        while i < n
            invariant
                eq_structural::<K>(),
                n == self.entries.len(),
                self == old(self),
                0 <= i <= n,
                forall|j: int| 0 <= j < i ==> (#[trigger] self@[j]).0 != *key,
            decreases n - i,
        {
            proof {
                lemma_mm_lookup_at(self@, *key, i as int);
            }
            if self.entries[i].0 == *key {
                let ghost prev = self@;
                self.entries[i].1.push(value);
                proof {
                    assert(prev[i as int]
                        == (self.entries@[i as int].0, old(self).entries@[i as int].1@));
                    assert(self@ =~= prev.update(
                        i as int,
                        (prev[i as int].0, prev[i as int].1.push(value)),
                    ));
                    lemma_mm_append_at(prev, self@, *key, value, i as int);
                }
                return ;
            }
            i += 1;
        }
        proof {
            lemma_mm_lookup_all_differ(self@, *key);
        }
        let ghost prev = self@;
        let ck = key.clone();
        let mut fresh: Vec<V> = Vec::new();
        fresh.push(value);
        self.entries.push((ck, fresh));
        proof {
            assert(self@ =~= prev.push((ck, seq![value])));
            assert(vstd::pervasive::cloned::<K>(*key, ck));
            assert(mm_lookup(prev, *key) is None);
        }
    }

    /// The entries, in first-insertion order.
    pub fn iter(&self) -> (r: &Vec<(K, Vec<V>)>)
        ensures
            r@.len() == self@.len(),
            forall|j: int| 0 <= j < r@.len() ==> self@[j] == ((#[trigger] r@[j]).0, r@[j].1@),
    {
        &self.entries
    }
}

/// Whether the map binds no key twice. `new` starts that way, `insert`
/// preserves it (see the lemmas below), and under it the entries `iter`
/// exposes pair exactly with what `get` returns.
pub open spec fn mm_keys_distinct<K, V>(s: Seq<(K, Seq<V>)>) -> bool {
    forall|i: int, j: int| 0 <= i < j < s.len() ==> (#[trigger] s[i]).0 != (#[trigger] s[j]).0
}

/// Under distinct keys, every entry is what the lookup returns for its
/// key: the pairing `iter` exposes agrees with `get`.
pub proof fn lemma_mm_distinct_entry_lookup<K, V>(s: Seq<(K, Seq<V>)>, j: int)
    requires
        mm_keys_distinct(s),
        0 <= j < s.len(),
    ensures
        mm_lookup(s, s[j].0) == Some(s[j].1),
    decreases j,
{
    if j > 0 {
        assert forall|i2: int, j2: int|
            0 <= i2 < j2 < s.drop_first().len() implies (#[trigger] s.drop_first()[i2]).0 != (
        #[trigger] s.drop_first()[j2]).0 by {
            assert(s.drop_first()[i2] == s[i2 + 1]);
            assert(s.drop_first()[j2] == s[j2 + 1]);
        }
        assert(s.drop_first()[j - 1] == s[j]);
        lemma_mm_distinct_entry_lookup(s.drop_first(), j - 1);
    }
}

/// A lookup misses exactly when no entry carries the key.
pub proof fn lemma_mm_lookup_none<K, V>(s: Seq<(K, Seq<V>)>, key: K)
    ensures
        (mm_lookup(s, key) is None) <==> (forall|l: int|
            0 <= l < s.len() ==> (#[trigger] s[l]).0 != key),
    decreases s.len(),
{
    if s.len() > 0 {
        lemma_mm_lookup_none(s.drop_first(), key);
        if s[0].0 != key {
            assert forall|l: int| 1 <= l < s.len() implies (#[trigger] s[l]).0
                == s.drop_first()[l - 1].0 by {}
        }
    }
}

/// `mm_append` keeps every key where it was, so it keeps keys distinct.
pub proof fn lemma_mm_append_keys<K, V>(s: Seq<(K, Seq<V>)>, key: K, value: V)
    ensures
        mm_append(s, key, value).len() == s.len(),
        forall|l: int|
            0 <= l < s.len() ==> (#[trigger] mm_append(s, key, value)[l]).0 == s[l].0,
        mm_keys_distinct(s) ==> mm_keys_distinct(mm_append(s, key, value)),
    decreases s.len(),
{
    let u = mm_append(s, key, value);
    if s.len() == 0 {
    } else if s[0].0 == key {
        assert forall|l: int| 0 <= l < s.len() implies (#[trigger] u[l]).0 == s[l].0 by {
            if l > 0 {
                assert(u[l] == s.drop_first()[l - 1]);
            }
        }
    } else {
        lemma_mm_append_keys(s.drop_first(), key, value);
        assert forall|l: int| 0 <= l < s.len() implies (#[trigger] u[l]).0 == s[l].0 by {
            if l > 0 {
                assert(u[l] == mm_append(s.drop_first(), key, value)[l - 1]);
                assert(s.drop_first()[l - 1] == s[l]);
            }
        }
    }
}

/// Appending an entry under a key no other entry carries keeps keys
/// distinct.
pub proof fn lemma_mm_push_fresh_keeps_distinct<K, V>(s: Seq<(K, Seq<V>)>, ck: K, value: V)
    requires
        mm_keys_distinct(s),
        forall|l: int| 0 <= l < s.len() ==> (#[trigger] s[l]).0 != ck,
    ensures
        mm_keys_distinct(s.push((ck, seq![value]))),
{
    let u = s.push((ck, seq![value]));
    assert forall|i: int, j: int| 0 <= i < j < u.len() implies (#[trigger] u[i]).0 != (
    #[trigger] u[j]).0 by {
        assert(u[i] == s[i]);
        if j < s.len() {
            assert(u[j] == s[j]);
        }
    }
}

/// When no earlier key matches, the lookup is decided at position `i`.
proof fn lemma_mm_lookup_at<K, V>(s: Seq<(K, Seq<V>)>, key: K, i: int)
    requires
        0 <= i <= s.len(),
        forall|j: int| 0 <= j < i ==> (#[trigger] s[j]).0 != key,
    ensures
        i < s.len() && s[i].0 == key ==> mm_lookup(s, key) == Some(s[i].1),
    decreases i,
{
    if i > 0 {
        lemma_mm_lookup_at(s.drop_first(), key, i - 1);
    }
}

/// When no key matches at all, the lookup misses.
proof fn lemma_mm_lookup_all_differ<K, V>(s: Seq<(K, Seq<V>)>, key: K)
    requires
        forall|j: int| 0 <= j < s.len() ==> (#[trigger] s[j]).0 != key,
    ensures
        mm_lookup(s, key) is None,
    decreases s.len(),
{
    if s.len() > 0 {
        lemma_mm_lookup_all_differ(s.drop_first(), key);
    }
}

/// Appending to the first matching entry in place realises `mm_append`.
proof fn lemma_mm_append_at<K, V>(
    prev: Seq<(K, Seq<V>)>,
    cur: Seq<(K, Seq<V>)>,
    key: K,
    value: V,
    i: int,
)
    requires
        0 <= i < prev.len(),
        prev[i].0 == key,
        forall|j: int| 0 <= j < i ==> (#[trigger] prev[j]).0 != key,
        cur == prev.update(i, (prev[i].0, prev[i].1.push(value))),
    ensures
        cur == mm_append(prev, key, value),
    decreases i,
{
    if i == 0 {
        assert(cur =~= seq![(prev[0].0, prev[0].1.push(value))] + prev.drop_first());
    } else {
        assert(cur.drop_first() =~= prev.drop_first().update(
            i - 1,
            (prev[i].0, prev[i].1.push(value)),
        ));
        lemma_mm_append_at(prev.drop_first(), cur.drop_first(), key, value, i - 1);
        assert(cur =~= seq![prev[0]] + mm_append(prev.drop_first(), key, value));
    }
}

} // verus!
