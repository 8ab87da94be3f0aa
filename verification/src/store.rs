//! A small map from strings to values, kept as a vector of entries; what
//! the session, challenge and rate-limit tables are built on.
use vstd::prelude::*;

verus! {

/// The value of the last entry with key `k`.
pub open spec fn lookup<V>(s: Seq<(String, V)>, k: Seq<char>) -> Option<V>
    decreases s.len(),
{
    if s.len() == 0 {
        None
    } else if s.last().0@ == k {
        Some(s.last().1)
    } else {
        lookup(s.drop_last(), k)
    }
}

proof fn lemma_lookup_absent<V>(s: Seq<(String, V)>, k: Seq<char>)
    requires
        forall|j: int| 0 <= j < s.len() ==> (#[trigger] s[j]).0@ != k,
    ensures
        lookup(s, k) is None,
    decreases s.len(),
{
    if s.len() > 0 {
        lemma_lookup_absent(s.drop_last(), k);
    }
}

proof fn lemma_lookup_remove<V>(s: Seq<(String, V)>, i: int, k: Seq<char>)
    requires
        0 <= i < s.len(),
        s[i].0@ != k,
    ensures
        lookup(s.remove(i), k) == lookup(s, k),
    decreases s.len(),
{
    if i < s.len() - 1 {
        lemma_lookup_remove(s.drop_last(), i, k);
        assert(s.remove(i).drop_last() =~= s.drop_last().remove(i));
        assert(s.remove(i).last() == s.last());
    } else {
        assert(s.remove(i) =~= s.drop_last());
    }
}

/// The keys of the entries, in order.
pub open spec fn key_seq<V>(s: Seq<(String, V)>) -> Seq<Seq<char>> {
    s.map_values(|e: (String, V)| e.0@)
}

/// A key has a value exactly when some entry carries it.
proof fn lemma_lookup_some<V>(s: Seq<(String, V)>, k: Seq<char>)
    ensures
        lookup(s, k) is Some <==> key_seq(s).contains(k),
    decreases s.len(),
{
    if s.len() > 0 {
        lemma_lookup_some(s.drop_last(), k);
        assert(key_seq(s.drop_last()) =~= key_seq(s).drop_last());
        if key_seq(s).contains(k) && s.last().0@ != k {
            let j = choose|j: int| 0 <= j < key_seq(s).len() && key_seq(s)[j] == k;
            assert(j < s.len() - 1);
            assert(key_seq(s.drop_last())[j] == k);
        }
        if s.last().0@ == k {
            assert(key_seq(s)[s.len() - 1] == k);
        }
    }
}

/// Removing an entry keeps the keys distinct.
proof fn lemma_remove_distinct<V>(s: Seq<(String, V)>, i: int)
    requires
        0 <= i < s.len(),
        key_seq(s).no_duplicates(),
    ensures
        key_seq(s.remove(i)).no_duplicates(),
{
    let r = s.remove(i);
    assert forall|a: int, b: int| 0 <= a < key_seq(r).len() && 0 <= b < key_seq(r).len() && a != b implies key_seq(
        r,
    )[a] != key_seq(r)[b] by {
        let a0 = if a < i { a } else { a + 1 };
        let b0 = if b < i { b } else { b + 1 };
        assert(key_seq(r)[a] == key_seq(s)[a0]);
        assert(key_seq(r)[b] == key_seq(s)[b0]);
    }
}

/// A map from strings to values.
pub struct KeyedVec<V> {
    entries: Vec<(String, V)>,
}

impl<V> KeyedVec<V> {
    /// The value stored under `k`, if any.
    pub closed spec fn value(&self, k: Seq<char>) -> Option<V> {
        lookup(self.entries@, k)
    }

    /// No two entries carry the same key.
    #[verifier::type_invariant]
    spec fn distinct_keys(self) -> bool {
        key_seq(self.entries@).no_duplicates()
    }

    /// The keys that have a value.
    pub open spec fn keys(&self) -> Set<Seq<char>> {
        Set::new(|k: Seq<char>| self.value(k) is Some)
    }

    /// The number of keys that have a value.
    pub fn len(&self) -> (r: usize)
        ensures
            self.keys().finite(),
            r == self.keys().len(),
    {
        proof {
            use_type_invariant(self);
            let ks = key_seq(self.entries@);
            assert forall|k: Seq<char>| self.keys().contains(k) == ks.to_set().contains(k) by {
                lemma_lookup_some(self.entries@, k);
            }
            assert(self.keys() =~= ks.to_set());
            ks.unique_seq_to_set();
            vstd::seq_lib::seq_to_set_is_finite(ks);
        }
        self.entries.len()
    }

    /// An empty map.
    pub fn new() -> (r: Self)
        ensures
            forall|x: Seq<char>| #[trigger] r.value(x) is None,
    {
        KeyedVec { entries: Vec::new() }
    }

    /// The value under `k`.
    pub fn get(&self, k: &str) -> (r: Option<&V>)
        ensures
            match r {
                Some(v) => self.value(k@) == Some(*v),
                None => self.value(k@) is None,
            },
    {
        let ghost s = self.entries@;
        let key = k.to_owned();
        let mut i = self.entries.len();
        assert(s.subrange(0, i as int) =~= s);
        while i > 0
            invariant
                i <= s.len(),
                s == self.entries@,
                key@ == k@,
                lookup(s, k@) == lookup(s.subrange(0, i as int), k@),
            decreases i,
        {
            assert(s.subrange(0, i as int).drop_last() =~= s.subrange(0, i - 1));
            if self.entries[i - 1].0 == key {
                return Some(&self.entries[i - 1].1);
            }
            i = i - 1;
        }
        assert(s.subrange(0, 0) =~= Seq::<(String, V)>::empty());
        None
    }

    /// Removes `k` (nothing if absent).
    pub fn remove(&mut self, k: &str)
        ensures
            forall|x: Seq<char>| #[trigger] final(self).value(x) == if x == k@ {
                None
            } else {
                old(self).value(x)
            },
    {
        proof {
            use_type_invariant(&*self);
        }
        let ghost s0 = self.entries@;
        let mut entries: Vec<(String, V)> = Vec::new();
        std::mem::swap(&mut entries, &mut self.entries);
        let key = k.to_owned();
        let mut i = entries.len();
        while i > 0
            invariant
                i <= entries@.len(),
                key@ == k@,
                key_seq(entries@).no_duplicates(),
                forall|j: int| i <= j < entries@.len() ==> (#[trigger] entries@[j]).0@ != k@,
                forall|x: Seq<char>| x != k@ ==> #[trigger] lookup(entries@, x) == lookup(s0, x),
            decreases i,
        {
            i = i - 1;
            if entries[i].0 == key {
                let ghost before = entries@;
                proof {
                    assert forall|x: Seq<char>| x != k@ implies #[trigger] lookup(before.remove(i as int), x)
                        == lookup(s0, x) by {
                        lemma_lookup_remove(before, i as int, x);
                    }
                    lemma_remove_distinct(before, i as int);
                }
                entries.remove(i);
                assert forall|j: int| i <= j < entries@.len() implies (#[trigger] entries@[j]).0@ != k@ by {
                    assert(entries@[j] == before[j + 1]);
                }
            }
        }
        proof {
            lemma_lookup_absent(entries@, k@);
        }
        self.entries = entries;
    }

    /// Sets `k` to `v`, replacing any earlier value.
    pub fn insert(&mut self, k: String, v: V)
        ensures
            forall|x: Seq<char>| #[trigger] final(self).value(x) == if x == k@ {
                Some(v)
            } else {
                old(self).value(x)
            },
    {
        self.remove(k.as_str());
        proof {
            use_type_invariant(&*self);
        }
        let ghost mid = *self;
        let ghost kv = k@;
        let ghost before = self.entries@;
        assert forall|x: Seq<char>| lookup(before, x) == if x == kv {
            None
        } else {
            old(self).value(x)
        } by {
            assert(mid.value(x) == lookup(before, x));
        }
        proof {
            lemma_lookup_some(before, kv);
        }
        let ghost kk = k;
        let ghost vv = v;
        let mut entries: Vec<(String, V)> = Vec::new();
        std::mem::swap(&mut entries, &mut self.entries);
        entries.push((k, v));
        assert(entries@.drop_last() =~= before);
        assert(entries@.last() == (kk, vv));
        assert(key_seq(entries@) =~= key_seq(before).push(kv));
        assert(key_seq(entries@).no_duplicates()) by {
            let ks = key_seq(entries@);
            assert forall|a: int, b: int| 0 <= a < ks.len() && 0 <= b < ks.len() && a != b implies ks[a]
                != ks[b] by {
                if a < before.len() && b < before.len() {
                    assert(ks[a] == key_seq(before)[a]);
                    assert(ks[b] == key_seq(before)[b]);
                } else if a < before.len() {
                    assert(ks[a] == key_seq(before)[a]);
                } else if b < before.len() {
                    assert(ks[b] == key_seq(before)[b]);
                }
            }
        }
        self.entries = entries;
        assert forall|x: Seq<char>| #[trigger] self.value(x) == if x == kv {
            Some(vv)
        } else {
            old(self).value(x)
        } by {
            assert(self.value(x) == lookup(self.entries@, x));
            let e = self.entries@;
            assert(e.len() > 0);
            assert(e.last().0@ == kv);
            if x != kv {
                assert(lookup(e, x) == lookup(e.drop_last(), x));
            }
        }
    }
}

} // verus!
