//! Key-value storage of a node: song titles to values.
//!
//! The entries are kept in insertion order with no key repeated; the store
//! stands for the finite map from keys to values.

use vstd::prelude::*;

verus! {

/// A key-value pair as plain text.
pub type Pair = (String, String);

/// The map that a sequence of pairs describes when they are written in
/// order: a later pair overrides an earlier one with the same key.
pub open spec fn pairs_map(s: Seq<Pair>) -> Map<Seq<char>, Seq<char>>
    decreases s.len(),
{
    if s.len() == 0 {
        Map::empty()
    } else {
        pairs_map(s.drop_last()).insert(s.last().0@, s.last().1@)
    }
}

/// No key occurs twice.
pub open spec fn keys_unique(s: Seq<Pair>) -> bool {
    forall|i: int, j: int| 0 <= i < j < s.len() ==> (#[trigger] s[i]).0@ != (#[trigger] s[j]).0@
}

/// The index of the pair whose key is `k`, or -1.
pub open spec fn index_of(s: Seq<Pair>, k: Seq<char>) -> int
    decreases s.len(),
{
    if s.len() == 0 {
        -1
    } else if s.last().0@ == k {
        s.len() - 1
    } else {
        index_of(s.drop_last(), k)
    }
}

/// Where a key sits in a sequence of unique keys, and what the map holds.
pub proof fn lemma_index_of(s: Seq<Pair>, k: Seq<char>)
    requires
        keys_unique(s),
    ensures
        -1 <= index_of(s, k) < s.len(),
        index_of(s, k) >= 0 ==> s[index_of(s, k)].0@ == k,
        index_of(s, k) == -1 ==> forall|i: int| 0 <= i < s.len() ==> (#[trigger] s[i]).0@ != k,
        forall|i: int| 0 <= i < s.len() && (#[trigger] s[i]).0@ == k ==> i == index_of(s, k),
        pairs_map(s).contains_key(k) <==> index_of(s, k) >= 0,
        index_of(s, k) >= 0 ==> pairs_map(s)[k] == s[index_of(s, k)].1@,
    decreases s.len(),
{
    if s.len() > 0 {
        let t = s.drop_last();
        assert(keys_unique(t));
        lemma_index_of(t, k);
        if s.last().0@ != k {
            assert forall|i: int| 0 <= i < s.len() && (#[trigger] s[i]).0@ == k implies i
                == index_of(s, k) by {
                assert(i < s.len() - 1);
                assert(t[i] == s[i]);
            }
        }
    }
}

/// Replacing the value of an existing key updates the map.
pub proof fn lemma_update(s: Seq<Pair>, i: int, p: Pair)
    requires
        keys_unique(s),
        0 <= i < s.len(),
        p.0@ == s[i].0@,
    ensures
        keys_unique(s.update(i, p)),
        pairs_map(s.update(i, p)) == pairs_map(s).insert(p.0@, p.1@),
    decreases s.len(),
{
    let u = s.update(i, p);
    assert forall|a: int, b: int| 0 <= a < b < u.len() implies (#[trigger] u[a]).0@ != (
    #[trigger] u[b]).0@ by {
        assert(u[a].0@ == s[a].0@);
        assert(u[b].0@ == s[b].0@);
    }
    if i == s.len() - 1 {
        assert(u.drop_last() =~= s.drop_last());
        assert(pairs_map(s).insert(p.0@, p.1@) =~= pairs_map(s.drop_last()).insert(p.0@, p.1@));
    } else {
        assert(keys_unique(s.drop_last()));
        lemma_update(s.drop_last(), i, p);
        assert(u.drop_last() =~= s.drop_last().update(i, p));
        assert(s.last().0@ != p.0@);
        assert(pairs_map(u) =~= pairs_map(s).insert(p.0@, p.1@));
    }
}

/// Appending a pair with a new key keeps keys unique.
pub proof fn lemma_push(s: Seq<Pair>, p: Pair)
    requires
        keys_unique(s),
        !pairs_map(s).contains_key(p.0@),
    ensures
        keys_unique(s.push(p)),
        pairs_map(s.push(p)) == pairs_map(s).insert(p.0@, p.1@),
{
    lemma_index_of(s, p.0@);
    let u = s.push(p);
    assert(u.drop_last() =~= s);
    assert forall|a: int, b: int| 0 <= a < b < u.len() implies (#[trigger] u[a]).0@ != (
    #[trigger] u[b]).0@ by {
        if b == s.len() {
            assert(u[a] == s[a]);
        } else {
            assert(u[a] == s[a]);
            assert(u[b] == s[b]);
        }
    }
}

/// Removing the pair of a key removes the key from the map.
pub proof fn lemma_remove(s: Seq<Pair>, i: int)
    requires
        keys_unique(s),
        0 <= i < s.len(),
    ensures
        keys_unique(s.remove(i)),
        pairs_map(s.remove(i)) == pairs_map(s).remove(s[i].0@),
    decreases s.len(),
{
    let u = s.remove(i);
    assert forall|a: int, b: int| 0 <= a < b < u.len() implies (#[trigger] u[a]).0@ != (
    #[trigger] u[b]).0@ by {
        if a < i {
            assert(u[a] == s[a]);
        } else {
            assert(u[a] == s[a + 1]);
        }
        if b < i {
            assert(u[b] == s[b]);
        } else {
            assert(u[b] == s[b + 1]);
        }
    }
    let k = s[i].0@;
    if i == s.len() - 1 {
        assert(u =~= s.drop_last());
        lemma_index_of(s.drop_last(), k);
        assert(pairs_map(u) =~= pairs_map(s).remove(k));
    } else {
        let t = s.drop_last();
        assert(keys_unique(t));
        lemma_remove(t, i);
        assert(u.drop_last() =~= t.remove(i));
        assert(u.last() == s.last());
        assert(s.last().0@ != k);
        assert(pairs_map(u) =~= pairs_map(s).remove(k));
    }
}

/// Writing pairs one after another into a map.
pub open spec fn write_all(m: Map<Seq<char>, Seq<char>>, s: Seq<Pair>) -> Map<Seq<char>, Seq<char>>
    decreases s.len(),
{
    if s.len() == 0 {
        m
    } else {
        write_all(m, s.drop_last()).insert(s.last().0@, s.last().1@)
    }
}

/// Writing pairs one after another into a map gives the map overridden by
/// what the pairs describe.
pub proof fn lemma_write_all(m: Map<Seq<char>, Seq<char>>, s: Seq<Pair>)
    ensures
        write_all(m, s) == m.union_prefer_right(pairs_map(s)),
    decreases s.len(),
{
    if s.len() == 0 {
        assert(m.union_prefer_right(pairs_map(s)) =~= m);
    } else {
        lemma_write_all(m, s.drop_last());
        assert(write_all(m, s) =~= m.union_prefer_right(pairs_map(s)));
    }
}

/// The keys of a sequence of pairs.
pub open spec fn keys_of(s: Seq<Pair>) -> Set<Seq<char>> {
    Set::new(|k: Seq<char>| exists|i: int| 0 <= i < s.len() && (#[trigger] s[i]).0@ == k)
}

/// The keys of the map a sequence of pairs describes are its keys.
pub proof fn lemma_pairs_map_keys(s: Seq<Pair>, k: Seq<char>)
    ensures
        pairs_map(s).contains_key(k) == keys_of(s).contains(k),
    decreases s.len(),
{
    if s.len() > 0 {
        let t = s.drop_last();
        lemma_pairs_map_keys(t, k);
        if keys_of(t).contains(k) {
            let j = choose|j: int| 0 <= j < t.len() && (#[trigger] t[j]).0@ == k;
            assert(s[j] == t[j]);
        }
        if keys_of(s).contains(k) && s.last().0@ != k {
            let j = choose|j: int| 0 <= j < s.len() && (#[trigger] s[j]).0@ == k;
            assert(j != s.len() - 1);
            assert(t[j] == s[j]);
        }
        if s.last().0@ == k {
            assert(s[s.len() - 1].0@ == k);
        }
    }
}

/// Copy a string, keeping its text.
pub fn copy_string(s: &String) -> (r: String)
    ensures
        r == *s,
{
    s.clone()
}

/// Copy a sequence of pairs.
pub fn copy_pairs(v: &Vec<Pair>) -> (r: Vec<Pair>)
    ensures
        r@ == v@,
{
    let mut r: Vec<Pair> = Vec::new();
    let mut i: usize = 0;
    while i < v.len()
        invariant
            0 <= i <= v.len(),
            r@ == v@.take(i as int),
        decreases v.len() - i,
    {
        let p = (v[i].0.clone(), v[i].1.clone());
        r.push(p);
        assert(r@ =~= v@.take(i + 1));
        i = i + 1;
    }
    assert(v@.take(v.len() as int) =~= v@);
    r
}

/// Local key-value storage.
pub struct Store {
    entries: Vec<Pair>,
}

impl Store {
    /// The entries, in the order in which their keys were first stored.
    pub closed spec fn pairs(&self) -> Seq<Pair> {
        self.entries@
    }

    /// The map from keys to values.
    pub open spec fn view(&self) -> Map<Seq<char>, Seq<char>> {
        pairs_map(self.pairs())
    }

    /// Well-formedness: no key is stored twice.
    pub open spec fn wf(&self) -> bool {
        keys_unique(self.pairs())
    }

    /// An empty store.
    pub fn new() -> (r: Store)
        ensures
            r.wf(),
            r.pairs() == Seq::<Pair>::empty(),
            r@ == Map::<Seq<char>, Seq<char>>::empty(),
    {
        Store { entries: Vec::new() }
    }

    /// Number of keys.
    pub fn len(&self) -> (r: usize)
        ensures
            r == self.pairs().len(),
    {
        self.entries.len()
    }

    /// The entries, in order.
    pub fn entries(&self) -> (r: &Vec<Pair>)
        ensures
            r@ == self.pairs(),
    {
        &self.entries
    }

    /// Copy of the entries, in order.
    pub fn to_pairs(&self) -> (r: Vec<Pair>)
        ensures
            r@ == self.pairs(),
    {
        copy_pairs(&self.entries)
    }

    /// Position of a key.
    fn find(&self, key: &str) -> (r: Option<usize>)
        requires
            self.wf(),
        ensures
            match r {
                Some(i) => i == index_of(self.pairs(), key@) && i < self.pairs().len(),
                None => index_of(self.pairs(), key@) == -1,
            },
    {
        proof {
            lemma_index_of(self.entries@, key@);
        }
        let wanted = key_string_view(key);
        let mut i: usize = 0;
        while i < self.entries.len()
            invariant
                0 <= i <= self.entries@.len(),
                wanted@ == key@,
                keys_unique(self.entries@),
                -1 <= index_of(self.entries@, key@) < self.entries@.len(),
                index_of(self.entries@, key@) >= 0 ==> self.entries@[index_of(self.entries@, key@)].0@
                    == key@,
                forall|j: int|
                    0 <= j < self.entries@.len() && (#[trigger] self.entries@[j]).0@ == key@ ==> j
                        == index_of(self.entries@, key@),
                forall|j: int| 0 <= j < i ==> (#[trigger] self.entries@[j]).0@ != key@,
            decreases self.entries.len() - i,
        {
            if self.entries[i].0 == wanted {
                return Some(i);
            }
            i = i + 1;
        }
        None
    }

    /// The value stored under a key.
    pub fn get(&self, key: &str) -> (r: Option<String>)
        requires
            self.wf(),
        ensures
            match r {
                Some(v) => self@.contains_key(key@) && self@[key@] == v@,
                None => !self@.contains_key(key@),
            },
    {
        proof {
            lemma_index_of(self.entries@, key@);
        }
        match self.find(key) {
            Some(i) => Some(self.entries[i].1.clone()),
            None => None,
        }
    }

    /// Store a value under a key, replacing any earlier value.
    pub fn insert(&mut self, key: String, value: String)
        requires
            old(self).wf(),
        ensures
            final(self).wf(),
            final(self)@ == old(self)@.insert(key@, value@),
    {
        proof {
            lemma_index_of(self.entries@, key@);
        }
        match self.find(key.as_str()) {
            Some(i) => {
                proof {
                    lemma_update(self.entries@, i as int, (key, value));
                }
                self.entries.set(i, (key, value));
            },
            None => {
                proof {
                    lemma_push(self.entries@, (key, value));
                }
                self.entries.push((key, value));
            },
        }
    }

    /// Remove a key; returns the value it had.
    pub fn remove(&mut self, key: &str) -> (r: Option<String>)
        requires
            old(self).wf(),
        ensures
            final(self).wf(),
            final(self)@ == old(self)@.remove(key@),
            match r {
                Some(v) => old(self)@.contains_key(key@) && old(self)@[key@] == v@,
                None => !old(self)@.contains_key(key@),
            },
    {
        proof {
            lemma_index_of(self.entries@, key@);
        }
        match self.find(key) {
            Some(i) => {
                proof {
                    lemma_remove(self.entries@, i as int);
                }
                let p = self.entries.remove(i);
                Some(p.1)
            },
            None => {
                assert(self@.remove(key@) =~= self@);
                None
            },
        }
    }

    /// Remove every key.
    pub fn clear(&mut self)
        ensures
            final(self).wf(),
            final(self)@ == Map::<Seq<char>, Seq<char>>::empty(),
    {
        self.entries = Vec::new();
    }

    /// Write pairs in order, each replacing any earlier value of its key.
    pub fn write_all(&mut self, pairs: Vec<Pair>)
        requires
            old(self).wf(),
        ensures
            final(self).wf(),
            final(self)@ == write_all(old(self)@, pairs@),
    {
        let ghost start = self@;
        let mut i: usize = 0;
        let n = pairs.len();
        while i < n
            invariant
                0 <= i <= n,
                n == pairs@.len(),
                self.wf(),
                self@ == write_all(start, pairs@.take(i as int)),
            decreases n - i,
        {
            let k = pairs[i].0.clone();
            let v = pairs[i].1.clone();
            self.insert(k, v);
            assert(pairs@.take(i + 1).drop_last() =~= pairs@.take(i as int));
            i = i + 1;
        }
        assert(pairs@.take(n as int) =~= pairs@);
    }

    /// Remove the key of every pair.
    pub fn remove_keys_of(&mut self, pairs: &Vec<Pair>)
        requires
            old(self).wf(),
        ensures
            final(self).wf(),
            final(self)@ == old(self)@.remove_keys(keys_of(pairs@)),
    {
        let ghost start = self@;
        let mut i: usize = 0;
        let n = pairs.len();
        assert(keys_of(pairs@.take(0)) =~= Set::<Seq<char>>::empty());
        assert(start.remove_keys(Set::<Seq<char>>::empty()) =~= start);
        while i < n
            invariant
                0 <= i <= n,
                n == pairs@.len(),
                self.wf(),
                self@ == start.remove_keys(keys_of(pairs@.take(i as int))),
            decreases n - i,
        {
            let _ = self.remove(pairs[i].0.as_str());
            let ghost k = pairs@[i as int].0@;
            assert(keys_of(pairs@.take(i + 1)) =~= keys_of(pairs@.take(i as int)).insert(k)) by {
                assert forall|x: Seq<char>| keys_of(pairs@.take(i + 1)).contains(x) implies keys_of(
                    pairs@.take(i as int),
                ).insert(k).contains(x) by {
                    let j = choose|j: int|
                        0 <= j < pairs@.take(i + 1).len() && (#[trigger] pairs@.take(i + 1)[j]).0@
                            == x;
                    if j < i {
                        assert(pairs@.take(i as int)[j] == pairs@.take(i + 1)[j]);
                    }
                }
                assert forall|x: Seq<char>| keys_of(pairs@.take(i as int)).insert(k).contains(
                    x,
                ) implies keys_of(pairs@.take(i + 1)).contains(x) by {
                    if x == k {
                        assert(pairs@.take(i + 1)[i as int].0@ == x);
                    } else {
                        let j = choose|j: int|
                            0 <= j < pairs@.take(i as int).len() && (#[trigger] pairs@.take(
                                i as int,
                            )[j]).0@ == x;
                        assert(pairs@.take(i + 1)[j] == pairs@.take(i as int)[j]);
                    }
                }
            }
            assert(self@ =~= start.remove_keys(keys_of(pairs@.take(i + 1))));
            i = i + 1;
        }
        assert(pairs@.take(n as int) =~= pairs@);
    }
}

/// A view of a `&str` as an owned `String` for comparisons.
fn key_string_view(key: &str) -> (r: String)
    ensures
        r@ == key@,
{
    key.to_owned()
}

} // verus!
