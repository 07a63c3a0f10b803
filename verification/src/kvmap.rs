//! A small association map from string keys to values, viewed as a
//! mathematical `Map` over character sequences. Keys are unique; an insert
//! replaces the value stored under an existing key.
use crate::strutil::str_eq;
use vstd::prelude::*;

verus! {

/// A map from `String` keys to values, stored as a vector of entries with
/// pairwise distinct keys.
#[derive(Debug)]
pub struct KvMap<V> {
    entries: Vec<(String, V)>,
}

impl<V: View> View for KvMap<V> {
    type V = Map<Seq<char>, V::V>;

    closed spec fn view(&self) -> Map<Seq<char>, V::V> {
        map_of(self.entries@)
    }
}

/// The mathematical map an entry sequence denotes: later entries win.
pub closed spec fn map_of<V: View>(s: Seq<(String, V)>) -> Map<Seq<char>, V::V>
    decreases s.len(),
{
    if s.len() == 0 {
        Map::empty()
    } else {
        map_of(s.drop_last()).insert(s.last().0@, s.last().1@)
    }
}

/// The key sequence of an entry sequence.
pub closed spec fn keys_of<V>(s: Seq<(String, V)>) -> Seq<Seq<char>> {
    Seq::new(s.len(), |i: int| s[i].0@)
}

proof fn lemma_map_of_dom<V: View>(s: Seq<(String, V)>)
    ensures
        map_of(s).dom() =~= keys_of(s).to_set(),
    decreases s.len(),
{
    if s.len() == 0 {
        assert(keys_of::<V>(s).to_set() =~= Set::empty());
    } else {
        lemma_map_of_dom(s.drop_last());
        assert(keys_of(s.drop_last()) =~= keys_of(s).drop_last());
        assert forall|k: Seq<char>| keys_of(s).to_set().contains(k) implies map_of(
            s,
        ).dom().contains(k) by {
            let i = choose|i: int| 0 <= i < keys_of(s).len() && keys_of(s)[i] == k;
            if i < s.len() - 1 {
                assert(keys_of(s).drop_last()[i] == k);
                assert(keys_of(s).drop_last().to_set().contains(k));
            }
        }
        assert forall|k: Seq<char>| map_of(s).dom().contains(k) implies keys_of(
            s,
        ).to_set().contains(k) by {
            if k == s.last().0@ {
                assert(keys_of(s)[s.len() - 1] == k);
            } else {
                let i = choose|i: int|
                    0 <= i < keys_of(s.drop_last()).len() && keys_of(s.drop_last())[i] == k;
                assert(keys_of(s)[i] == k);
            }
        }
    }
}

proof fn lemma_map_of_at<V: View>(s: Seq<(String, V)>, i: int)
    requires
        keys_of(s).no_duplicates(),
        0 <= i < s.len(),
    ensures
        map_of(s).contains_key(s[i].0@),
        map_of(s)[s[i].0@] == s[i].1@,
    decreases s.len(),
{
    if i == s.len() - 1 {
    } else {
        assert(keys_of(s.drop_last()) =~= keys_of(s).drop_last());
        assert(keys_of(s).drop_last().no_duplicates());
        lemma_map_of_at(s.drop_last(), i);
        assert(keys_of(s)[i] == s[i].0@ && keys_of(s)[s.len() - 1] == s.last().0@);
        assert(s[i].0@ != s.last().0@);
    }
}

impl<V: View> KvMap<V> {
    /// Well-formedness: the stored keys are pairwise distinct. Constructors
    /// establish it and every method keeps it.
    pub closed spec fn wf(&self) -> bool {
        keys_of(self.entries@).no_duplicates()
    }

    /// The number of entries.
    pub closed spec fn spec_len(&self) -> nat {
        self.entries@.len()
    }

    /// The keys, in insertion order.
    pub closed spec fn spec_keys(&self) -> Seq<Seq<char>> {
        keys_of(self.entries@)
    }

    /// Create an empty map.
    pub fn new() -> (r: Self)
        ensures
            r@ == Map::<Seq<char>, V::V>::empty(),
            r.spec_len() == 0,
            r.wf(),
    {
        KvMap { entries: Vec::new() }
    }

    /// The number of entries. Also lets a caller observe that the stored
    /// keys are distinct and are exactly the domain of the denoted map.
    pub fn len(&self) -> (r: usize)
        requires
            self.wf(),
        ensures
            r == self.spec_len(),
            self.spec_keys().no_duplicates(),
            self.spec_keys().to_set() =~= self@.dom(),
            self.spec_keys().len() == self.spec_len(),
    {
        proof {
            lemma_map_of_dom(self.entries@);
        }
        self.entries.len()
    }

    /// Whether the map holds no entry.
    pub fn is_empty(&self) -> (r: bool)
        requires
            self.wf(),
        ensures
            r == (self@ =~= Map::<Seq<char>, V::V>::empty()),
            r == (self.spec_len() == 0),
    {
        proof {
            lemma_map_of_dom(self.entries@);
            if self.entries@.len() > 0 {
                assert(self.spec_keys()[0] == self.entries@[0].0@);
                assert(self@.dom().contains(self.entries@[0].0@));
            } else {
                assert(self@.dom() =~= Set::empty());
            }
        }
        self.entries.len() == 0
    }

    /// Position of a key among the entries, if it is present.
    fn find(&self, key: &str) -> (r: Option<usize>)
        requires
            self.wf(),
        ensures
            match r {
                Some(i) => i < self.spec_len() && self.spec_keys()[i as int] == key@
                    && self@.contains_key(key@),
                None => !self@.contains_key(key@),
            },
    {
        proof {
            lemma_map_of_dom(self.entries@);
        }
        let n = self.entries.len();
        let mut i: usize = 0;
        while i < n
            invariant
                0 <= i <= n,
                n == self.entries@.len(),
                forall|j: int| 0 <= j < i ==> self.spec_keys()[j] != key@,
            decreases n - i,
        {
            if str_eq(self.entries[i].0.as_str(), key) {
                proof {
                    lemma_map_of_dom(self.entries@);
                    assert(self.spec_keys()[i as int] == self.entries@[i as int].0@);
                    assert(self.spec_keys()[i as int] == key@);
                    assert(self.spec_keys().to_set().contains(key@));
                    assert(self@.contains_key(key@));
                }
                return Some(i);
            }
            proof {
                assert(self.spec_keys()[i as int] == self.entries@[i as int].0@);
            }
            i = i + 1;
        }
        proof {
            lemma_map_of_dom(self.entries@);
            if self@.contains_key(key@) {
                let j = choose|j: int|
                    0 <= j < self.spec_keys().len() && self.spec_keys()[j] == key@;
                assert(false);
            }
        }
        None
    }

    /// Whether a key is present.
    pub fn contains_key(&self, key: &str) -> (r: bool)
        requires
            self.wf(),
        ensures
            r == self@.contains_key(key@),
    {
        match self.find(key) {
            Some(_) => true,
            None => false,
        }
    }

    /// Look a key up.
    pub fn get<'a>(&'a self, key: &str) -> (r: Option<&'a V>)
        requires
            self.wf(),
        ensures
            match r {
                Some(v) => self@.contains_key(key@) && v@ == self@[key@],
                None => !self@.contains_key(key@),
            },
    {
        match self.find(key) {
            Some(i) => {
                proof {
                    lemma_map_of_at(self.entries@, i as int);
                }
                Some(&self.entries[i].1)
            },
            None => None,
        }
    }

    /// Insert a value under a key, replacing any previous value.
    pub fn insert(&mut self, key: String, value: V)
        requires
            old(self).wf(),
        ensures
            final (self)@ == old(self)@.insert(key@, value@),
            final (self).spec_len() <= old(self).spec_len() + 1,
            final (self).wf(),
    {
        let found = self.find(key.as_str());
        match found {
            Some(i) => {
                let ghost s0 = self.entries@;
                self.entries.set(i, (key, value));
                proof {
                    lemma_insert_at(s0, i as int, self.entries@[i as int]);
                    assert(keys_of(self.entries@) =~= keys_of(s0));
                }
            },
            None => {
                let ghost s0 = self.entries@;
                self.entries.push((key, value));
                proof {
                    assert(self.entries@.drop_last() =~= s0);
                    lemma_map_of_dom(s0);
                    assert(keys_of(self.entries@) =~= keys_of(s0).push(
                        self.entries@.last().0@,
                    ));
                    assert(keys_of(self.entries@).drop_last() =~= keys_of(s0));
                }
            },
        }
    }

    /// Insert a value under a key only when the key is absent.
    pub fn insert_if_absent(&mut self, key: String, value: V)
        requires
            old(self).wf(),
        ensures
            final (self)@ == if old(self)@.contains_key(key@) {
                old(self)@
            } else {
                old(self)@.insert(key@, value@)
            },
            final (self).wf(),
    {
        let present = self.contains_key(key.as_str());
        if !present {
            self.insert(key, value);
        }
    }

    /// The key stored at an entry position.
    pub fn key_at(&self, i: usize) -> (r: &String)
        requires
            self.wf(),
            i < self.spec_len(),
        ensures
            r@ == self.spec_keys()[i as int],
            self@.contains_key(r@),
    {
        proof {
            lemma_map_of_dom(self.entries@);
            assert(self.spec_keys().to_set().contains(self.spec_keys()[i as int]));
        }
        &self.entries[i].0
    }

    /// The value stored at an entry position.
    pub fn val_at(&self, i: usize) -> (r: &V)
        requires
            self.wf(),
            i < self.spec_len(),
        ensures
            r@ == self@[self.spec_keys()[i as int]],
            self@.contains_key(self.spec_keys()[i as int]),
    {
        proof {
            lemma_map_of_at(self.entries@, i as int);
        }
        &self.entries[i].1
    }
}

proof fn lemma_insert_at<V: View>(s: Seq<(String, V)>, i: int, entry: (String, V))
    requires
        keys_of(s).no_duplicates(),
        0 <= i < s.len(),
        entry.0@ == s[i].0@,
    ensures
        map_of(s.update(i, entry)) =~= map_of(s).insert(entry.0@, entry.1@),
    decreases s.len(),
{
    let t = s.update(i, entry);
    if i == s.len() - 1 {
        assert(t.drop_last() =~= s.drop_last());
    } else {
        assert(t.drop_last() =~= s.drop_last().update(i, entry));
        assert(keys_of(s.drop_last()) =~= keys_of(s).drop_last());
        assert(keys_of(s).drop_last().no_duplicates());
        assert(s.drop_last()[i] == s[i]);
        lemma_insert_at(s.drop_last(), i, entry);
        assert(t.last() == s.last());
        // the overwritten key differs from the final entry's key
        assert(keys_of(s)[i] == s[i].0@ && keys_of(s)[s.len() - 1] == s.last().0@);
        assert(s[i].0@ != s.last().0@);
        assert(map_of(t) =~= map_of(s.drop_last()).insert(entry.0@, entry.1@).insert(
            s.last().0@,
            s.last().1@,
        ));
    }
}

} // verus!
