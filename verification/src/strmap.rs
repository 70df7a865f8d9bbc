//! A string-keyed lookup table backed by an association list, with an exact
//! first-match lookup specification. Configuration tables (glyphs, icons,
//! colours) are instances of it.
use vstd::prelude::*;
use crate::text::str_eq;

verus! {

/// A table of string keys and string values.
pub struct StringMap {
    entries: Vec<(String, String)>,
}

impl View for StringMap {
    type V = Seq<(Seq<char>, Seq<char>)>;

    closed spec fn view(&self) -> Seq<(Seq<char>, Seq<char>)> {
        self.entries@.map(|i: int, p: (String, String)| (p.0@, p.1@))
    }
}

/// The value bound to a key in an association list: the first pair whose key
/// matches, if any.
pub open spec fn str_lookup(s: Seq<(Seq<char>, Seq<char>)>, key: Seq<char>) -> Option<Seq<char>>
    decreases s.len(),
{
    if s.len() == 0 {
        None
    } else if s[0].0 == key {
        Some(s[0].1)
    } else {
        str_lookup(s.drop_first(), key)
    }
}

/// An association list with the binding for `key` replaced, or appended when
/// the key is absent.
pub open spec fn str_store(
    s: Seq<(Seq<char>, Seq<char>)>,
    key: Seq<char>,
    value: Seq<char>,
) -> Seq<(Seq<char>, Seq<char>)>
    decreases s.len(),
{
    if s.len() == 0 {
        seq![(key, value)]
    } else if s[0].0 == key {
        seq![(key, value)] + s.drop_first()
    } else {
        seq![s[0]] + str_store(s.drop_first(), key, value)
    }
}

impl StringMap {
    /// An empty table.
    pub fn new() -> (r: StringMap)
        ensures
            r@ == Seq::<(Seq<char>, Seq<char>)>::empty(),
    {
        let r = StringMap { entries: Vec::new() };
        proof {
            assert(r@ =~= Seq::<(Seq<char>, Seq<char>)>::empty());
        }
        r
    }

    /// Looks a key up; returns the first matching binding.
    pub fn get(&self, key: &str) -> (r: Option<&String>)
        ensures
            match r {
                Some(v) => str_lookup(self@, key@) == Some(v@),
                None => str_lookup(self@, key@) is None,
            },
    {
        let n: usize = self.entries.len();
        let mut i: usize = 0;
        proof {
            assert(self@.skip(0) =~= self@);
        }
        while i < n
            invariant
                n == self.entries.len(),
                0 <= i <= n,
                str_lookup(self@, key@) == str_lookup(self@.skip(i as int), key@),
        decreases n - i,
        {
            if str_eq(self.entries[i].0.as_str(), key) {
                proof {
                    assert(self@.skip(i as int)[0] == self@[i as int]);
                }
                return Some(&self.entries[i].1);
            }
            proof {
                assert(self@.skip(i as int)[0] == self@[i as int]);
                assert(self@.skip(i as int).drop_first() =~= self@.skip(i as int + 1));
            }
            i += 1;
        }
        proof {
            assert(self@.skip(n as int) =~= Seq::<(Seq<char>, Seq<char>)>::empty());
        }
        None
    }

    /// Binds a key to a value, replacing an existing binding in place.
    pub fn set(&mut self, key: String, value: String)
        ensures
            final(self)@ == str_store(old(self)@, key@, value@),
    {
        let n: usize = self.entries.len();
        let mut i: usize = 0;
        while i < n
            invariant
                n == self.entries.len(),
                0 <= i <= n,
                self == old(self),
                forall|j: int| 0 <= j < i ==> self@[j].0 != key@,
            decreases n - i,
        {
            if str_eq(self.entries[i].0.as_str(), key.as_str()) {
                let ghost prev = self@;
                let ghost kview = key@;
                let ghost vview = value@;
                self.entries[i] = (key, value);
                proof {
                    assert(self@ =~= prev.update(i as int, (kview, vview)));
                    lemma_str_store_at(prev, self@, kview, vview, i as int);
                }
                return ;
            }
            i += 1;
        }
        let ghost prev = self@;
        self.entries.push((key, value));
        proof {
            assert(self@ =~= prev.push((key@, value@)));
            lemma_str_store_append(prev, key@, value@);
        }
    }
}

/// A successful lookup returns one of the list's values.
pub proof fn lemma_str_lookup_is_value(
    s: Seq<(Seq<char>, Seq<char>)>,
    key: Seq<char>,
    value: Seq<char>,
)
    requires
        str_lookup(s, key) == Some(value),
    ensures
        exists|j: int| 0 <= j < s.len() && (#[trigger] s[j]).1 == value,
    decreases s.len(),
{
    if s.len() > 0 {
        if s[0].0 == key {
            assert(s[0].1 == value);
        } else {
            lemma_str_lookup_is_value(s.drop_first(), key, value);
            let j = choose|j: int|
                0 <= j < s.drop_first().len() && (#[trigger] s.drop_first()[j]).1 == value;
            assert(s[j + 1].1 == value);
        }
    }
}

/// Replacing the first matching binding in place realises `str_store`.
proof fn lemma_str_store_at(
    prev: Seq<(Seq<char>, Seq<char>)>,
    cur: Seq<(Seq<char>, Seq<char>)>,
    key: Seq<char>,
    value: Seq<char>,
    i: int,
)
    requires
        0 <= i < prev.len(),
        prev[i].0 == key,
        forall|j: int| 0 <= j < i ==> prev[j].0 != key,
        cur == prev.update(i, (key, value)),
    ensures
        cur == str_store(prev, key, value),
    decreases i,
{
    if i == 0 {
        assert(cur =~= seq![(key, value)] + prev.drop_first());
    } else {
        assert(cur.drop_first() =~= prev.drop_first().update(i - 1, (key, value)));
        lemma_str_store_at(prev.drop_first(), cur.drop_first(), key, value, i - 1);
        assert(cur =~= seq![prev[0]] + str_store(prev.drop_first(), key, value));
    }
}

/// Appending a fresh key realises `str_store`.
proof fn lemma_str_store_append(
    prev: Seq<(Seq<char>, Seq<char>)>,
    key: Seq<char>,
    value: Seq<char>,
)
    requires
        forall|j: int| 0 <= j < prev.len() ==> prev[j].0 != key,
    ensures
        prev.push((key, value)) == str_store(prev, key, value),
    decreases prev.len(),
{
    if prev.len() == 0 {
        assert(prev.push((key, value)) =~= seq![(key, value)]);
    } else {
        lemma_str_store_append(prev.drop_first(), key, value);
        assert(prev.push((key, value)) =~= seq![prev[0]] + prev.drop_first().push((key, value)));
    }
}

} // verus!
