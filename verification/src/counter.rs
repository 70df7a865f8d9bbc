//! A multiset of string keys with signed counts, kept in first-insertion
//! order. The extension folding rule counts files per extension with it.
use vstd::prelude::*;
use crate::text::str_eq;

verus! {

/// Counts per string key, in the order the keys first appeared.
pub struct Counter {
    entries: Vec<(String, i32)>,
}

impl View for Counter {
    type V = Seq<(Seq<char>, int)>;

    closed spec fn view(&self) -> Seq<(Seq<char>, int)> {
        self.entries@.map(|i: int, p: (String, i32)| (p.0@, p.1 as int))
    }
}

/// The count bound to a key, if the key is present.
pub open spec fn cnt_lookup(s: Seq<(Seq<char>, int)>, key: Seq<char>) -> Option<int>
    decreases s.len(),
{
    if s.len() == 0 {
        None
    } else if s[0].0 == key {
        Some(s[0].1)
    } else {
        cnt_lookup(s.drop_first(), key)
    }
}

/// The counts after adding `delta` to a key: the key's count changes in
/// place, or a fresh key is appended with count `delta`.
pub open spec fn cnt_update(s: Seq<(Seq<char>, int)>, key: Seq<char>, delta: int) -> Seq<
    (Seq<char>, int),
>
    decreases s.len(),
{
    if s.len() == 0 {
        seq![(key, delta)]
    } else if s[0].0 == key {
        seq![(key, s[0].1 + delta)] + s.drop_first()
    } else {
        seq![s[0]] + cnt_update(s.drop_first(), key, delta)
    }
}

impl Counter {
    /// An empty counter.
    pub fn new() -> (r: Counter)
        ensures
            r@ == Seq::<(Seq<char>, int)>::empty(),
    {
        let r = Counter { entries: Vec::new() };
        proof {
            assert(r@ =~= Seq::<(Seq<char>, int)>::empty());
        }
        r
    }

    /// Adds one to a key's count.
    pub fn inc(&mut self, k: &String)
        requires
            match cnt_lookup(old(self)@, k@) {
                Some(c) => c < i32::MAX,
                None => true,
            },
        ensures
            final(self)@ == cnt_update(old(self)@, k@, 1),
    {
        proof {
            lemma_cnt_lookup_in_range(self@, k@);
        }
        self.with_delta(k, 1);
    }

    /// Takes one from a key's count.
    pub fn dec(&mut self, k: &String)
        requires
            match cnt_lookup(old(self)@, k@) {
                Some(c) => c > i32::MIN,
                None => true,
            },
        ensures
            final(self)@ == cnt_update(old(self)@, k@, -1),
    {
        proof {
            lemma_cnt_lookup_in_range(self@, k@);
        }
        self.with_delta(k, -1);
    }

    fn with_delta(&mut self, k: &String, delta: i32)
        requires
            match cnt_lookup(old(self)@, k@) {
                Some(cc) => i32::MIN <= cc + delta && cc + delta <= i32::MAX,
                None => true,
            },
        ensures
            final(self)@ == cnt_update(old(self)@, k@, delta as int),
    {
        let n: usize = self.entries.len();
        let mut i: usize = 0;
        while i < n
            invariant
                n == self.entries.len(),
                0 <= i <= n,
                self == old(self),
                match cnt_lookup(old(self)@, k@) {
                    Some(cc) => i32::MIN <= cc + delta && cc + delta <= i32::MAX,
                    None => true,
                },
                forall|j: int| 0 <= j < i ==> self@[j].0 != k@,
            decreases n - i,
        {
            proof {
                lemma_cnt_lookup_at(self@, k@, i as int);
            }
            if str_eq(self.entries[i].0.as_str(), k.as_str()) {
                let ghost prev = self@;
                let c: i32 = self.entries[i].1;
                proof {
                    assert(prev[i as int] == (self.entries@[i as int].0@, self.entries@[i as int].1 as int));
                    assert(cnt_lookup(prev, k@) == Some(c as int));
                }
                self.entries[i].1 = c + delta;
                proof {
                    assert(self@ =~= prev.update(i as int, (k@, c + delta as int)));
                    lemma_cnt_update_at(prev, self@, k@, delta as int, i as int);
                }
                return ;
            }
            i += 1;
        }
        let ghost prev = self@;
        self.entries.push((k.clone(), delta));
        proof {
            assert(self@ =~= prev.push((k@, delta as int)));
            lemma_cnt_update_append(prev, k@, delta as int);
        }
    }

    /// The count bound to a key.
    pub fn get(&self, k: &String) -> (r: Option<i32>)
        ensures
            match r {
                Some(v) => cnt_lookup(self@, k@) == Some(v as int),
                None => cnt_lookup(self@, k@) is None,
            },
    {
        let n: usize = self.entries.len();
        let mut i: usize = 0;
        proof {
            assert(self@.skip(0) =~= self@);
        }
        while i < n
            invariant
                n == self.entries.len(),
                0 <= i <= n,
                cnt_lookup(self@, k@) == cnt_lookup(self@.skip(i as int), k@),
            decreases n - i,
        {
            if str_eq(self.entries[i].0.as_str(), k.as_str()) {
                proof {
                    assert(self@.skip(i as int)[0] == self@[i as int]);
                }
                return Some(self.entries[i].1);
            }
            proof {
                assert(self@.skip(i as int)[0] == self@[i as int]);
                assert(self@.skip(i as int).drop_first() =~= self@.skip(i as int + 1));
            }
            i += 1;
        }
        proof {
            assert(self@.skip(n as int) =~= Seq::<(Seq<char>, int)>::empty());
        }
        None
    }

    /// The keys and their counts, in first-insertion order.
    pub fn iter(&self) -> (r: &Vec<(String, i32)>)
        ensures
            r@.len() == self@.len(),
            forall|j: int|
                0 <= j < r@.len() ==> self@[j] == (#[trigger] r@[j].0@, r@[j].1 as int),
    {
        &self.entries
    }

    /// Forgets every count.
    pub fn clear(&mut self)
        ensures
            final(self)@ == Seq::<(Seq<char>, int)>::empty(),
    {
        self.entries.clear();
        proof {
            assert(self@ =~= Seq::<(Seq<char>, int)>::empty());
        }
    }
}

/// How `cnt_update` changes lookups: the touched key gains `delta` (from 0
/// when absent), every other key is untouched.
pub proof fn lemma_cnt_update_lookup(
    s: Seq<(Seq<char>, int)>,
    key: Seq<char>,
    delta: int,
    key2: Seq<char>,
)
    ensures
        cnt_lookup(cnt_update(s, key, delta), key2) == (if key2 == key {
            Some(
                (match cnt_lookup(s, key) {
                    Some(c) => c,
                    None => 0,
                }) + delta,
            )
        } else {
            cnt_lookup(s, key2)
        }),
    decreases s.len(),
{
    let u = cnt_update(s, key, delta);
    if s.len() == 0 {
        assert(u.len() == 1);
        assert(u[0] == (key, delta));
        assert(u.drop_first() =~= Seq::<(Seq<char>, int)>::empty());
        if key2 == key {
            assert(cnt_lookup(u, key2) == Some(delta));
        } else {
            assert(cnt_lookup(u, key2) == cnt_lookup(u.drop_first(), key2));
        }
    } else if s[0].0 == key {
        assert(u[0] == (key, s[0].1 + delta));
        assert(u.drop_first() =~= s.drop_first());
        if key2 == key {
            assert(cnt_lookup(u, key2) == Some(s[0].1 + delta));
            assert(cnt_lookup(s, key) == Some(s[0].1));
        } else {
            assert(cnt_lookup(u, key2) == cnt_lookup(s.drop_first(), key2));
            assert(cnt_lookup(s, key2) == cnt_lookup(s.drop_first(), key2));
        }
    } else {
        lemma_cnt_update_lookup(s.drop_first(), key, delta, key2);
        assert(u[0] == s[0]);
        assert(u.drop_first() =~= cnt_update(s.drop_first(), key, delta));
        if s[0].0 == key2 {
            assert(cnt_lookup(u, key2) == Some(s[0].1));
            assert(cnt_lookup(s, key2) == Some(s[0].1));
        } else {
            assert(cnt_lookup(u, key2) == cnt_lookup(u.drop_first(), key2));
            assert(cnt_lookup(s, key2) == cnt_lookup(s.drop_first(), key2));
        }
    }
}

/// `cnt_update` with a positive delta keeps every count within moved
/// bounds: entries between 1 and `b` become entries between 1 and `b + 1`.
pub proof fn lemma_cnt_update_bounds(s: Seq<(Seq<char>, int)>, key: Seq<char>, b: int)
    requires
        0 <= b,
        forall|l: int| 0 <= l < s.len() ==> 1 <= (#[trigger] s[l]).1 <= b,
    ensures
        forall|l: int|
            0 <= l < cnt_update(s, key, 1).len() ==> 1 <= (#[trigger] cnt_update(s, key, 1)[l]).1
                <= b + 1,
    decreases s.len(),
{
    let u = cnt_update(s, key, 1);
    if s.len() == 0 {
        assert(u =~= seq![(key, 1int)]);
    } else if s[0].0 == key {
        assert(u =~= seq![(key, s[0].1 + 1)] + s.drop_first());
        assert forall|l: int| 0 <= l < u.len() implies 1 <= (#[trigger] u[l]).1 <= b + 1 by {
            if l > 0 {
                assert(u[l] == s[l]);
            }
        }
    } else {
        lemma_cnt_update_bounds(s.drop_first(), key, b);
        assert(u =~= seq![s[0]] + cnt_update(s.drop_first(), key, 1));
        assert forall|l: int| 0 <= l < u.len() implies 1 <= (#[trigger] u[l]).1 <= b + 1 by {
            if l > 0 {
                assert(u[l] == cnt_update(s.drop_first(), key, 1)[l - 1]);
            }
        }
    }
}

/// Every count a `Counter` view holds fits in an `i32`, and so does the
/// result of looking one up.
proof fn lemma_cnt_lookup_in_range(s: Seq<(Seq<char>, int)>, key: Seq<char>)
    requires
        forall|j: int| 0 <= j < s.len() ==> i32::MIN <= (#[trigger] s[j]).1 <= i32::MAX,
    ensures
        match cnt_lookup(s, key) {
            Some(c) => i32::MIN <= c <= i32::MAX,
            None => true,
        },
    decreases s.len(),
{
    if s.len() > 0 && s[0].0 != key {
        lemma_cnt_lookup_in_range(s.drop_first(), key);
    }
}

/// When no earlier key matches, the lookup is decided at position `i`.
proof fn lemma_cnt_lookup_at(s: Seq<(Seq<char>, int)>, key: Seq<char>, i: int)
    requires
        0 <= i <= s.len(),
        forall|j: int| 0 <= j < i ==> s[j].0 != key,
    ensures
        i < s.len() && s[i].0 == key ==> cnt_lookup(s, key) == Some(s[i].1),
    decreases i,
{
    if i > 0 {
        lemma_cnt_lookup_at(s.drop_first(), key, i - 1);
    }
}

/// Changing the first matching count in place realises `cnt_update`.
proof fn lemma_cnt_update_at(
    prev: Seq<(Seq<char>, int)>,
    cur: Seq<(Seq<char>, int)>,
    key: Seq<char>,
    delta: int,
    i: int,
)
    requires
        0 <= i < prev.len(),
        prev[i].0 == key,
        forall|j: int| 0 <= j < i ==> prev[j].0 != key,
        cur == prev.update(i, (key, prev[i].1 + delta)),
    ensures
        cur == cnt_update(prev, key, delta),
    decreases i,
{
    if i == 0 {
        assert(cur =~= seq![(key, prev[0].1 + delta)] + prev.drop_first());
    } else {
        assert(cur.drop_first() =~= prev.drop_first().update(i - 1, (key, prev[i].1 + delta)));
        lemma_cnt_update_at(prev.drop_first(), cur.drop_first(), key, delta, i - 1);
        assert(cur =~= seq![prev[0]] + cnt_update(prev.drop_first(), key, delta));
    }
}

/// Appending a fresh key realises `cnt_update`.
proof fn lemma_cnt_update_append(prev: Seq<(Seq<char>, int)>, key: Seq<char>, delta: int)
    requires
        forall|j: int| 0 <= j < prev.len() ==> prev[j].0 != key,
    ensures
        prev.push((key, delta)) == cnt_update(prev, key, delta),
    decreases prev.len(),
{
    if prev.len() == 0 {
        assert(prev.push((key, delta)) =~= seq![(key, delta)]);
    } else {
        lemma_cnt_update_append(prev.drop_first(), key, delta);
        assert(prev.push((key, delta)) =~= seq![prev[0]] + prev.drop_first().push((key, delta)));
    }
}

} // verus!
