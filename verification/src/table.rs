//! A small association table: keys of the library's own choosing, at most one value for each.

use vstd::prelude::*;
use crate::bytes::{copy_slice, same_bytes};
use crate::model::views;

verus! {

/// A key that can be told apart from others by what it holds.
pub trait Key: View + Sized {
    /// Whether two keys hold the same.
    fn same(&self, other: &Self) -> (r: bool)
        ensures
            r == (self@ == other@),
    ;

    /// An owned copy.
    fn copied(&self) -> (k: Self)
        ensures
            k@ == self@,
    ;
}

impl Key for Vec<u8> {
    fn same(&self, other: &Vec<u8>) -> (r: bool) {
        same_bytes(self.as_slice(), other.as_slice())
    }

    fn copied(&self) -> (k: Vec<u8>) {
        copy_slice(self.as_slice())
    }
}

impl Key for String {
    fn same(&self, other: &String) -> (r: bool) {
        *self == *other
    }

    fn copied(&self) -> (k: String) {
        self.clone()
    }
}

impl Key for i64 {
    fn same(&self, other: &i64) -> (r: bool) {
        *self == *other
    }

    fn copied(&self) -> (k: i64) {
        *self
    }
}

impl Key for u64 {
    fn same(&self, other: &u64) -> (r: bool) {
        *self == *other
    }

    fn copied(&self) -> (k: u64) {
        *self
    }
}

impl Key for usize {
    fn same(&self, other: &usize) -> (r: bool) {
        *self == *other
    }

    fn copied(&self) -> (k: usize) {
        *self
    }
}

/// The keys of `s` are all different.
pub open spec fn distinct_keys<A, B>(s: Seq<(A, B)>) -> bool {
    forall|i: int, j: int| 0 <= i < j < s.len() ==> (#[trigger] s[i]).0 != (#[trigger] s[j]).0
}

/// The map that a list of pairs with distinct keys spells out.
pub open spec fn map_of<A, B>(s: Seq<(A, B)>) -> Map<A, B> {
    Map::new(
        |k: A| exists|i: int| 0 <= i < s.len() && (#[trigger] s[i]).0 == k,
        |k: A|
            {
                let i = choose|i: int| 0 <= i < s.len() && (#[trigger] s[i]).0 == k;
                s[i].1
            },
    )
}

pub proof fn lemma_map_of_at<A, B>(s: Seq<(A, B)>, i: int)
    requires
        distinct_keys(s),
        0 <= i < s.len(),
    ensures
        map_of(s).contains_key(s[i].0),
        map_of(s)[s[i].0] == s[i].1,
{
    let k = s[i].0;
    let j = choose|j: int| 0 <= j < s.len() && (#[trigger] s[j]).0 == k;
    assert(s[i].0 == k);
    if i < j {
        assert(s[i].0 != s[j].0);
    } else if j < i {
        assert(s[j].0 != s[i].0);
    }
}

pub proof fn lemma_map_of_push<A, B>(s: Seq<(A, B)>, x: (A, B))
    requires
        distinct_keys(s),
        !map_of(s).contains_key(x.0),
    ensures
        distinct_keys(s.push(x)),
        map_of(s.push(x)) == map_of(s).insert(x.0, x.1),
{
    let t = s.push(x);
    assert(distinct_keys(t)) by {
        assert forall|i: int, j: int| 0 <= i < j < t.len() implies (#[trigger] t[i]).0 != (
        #[trigger] t[j]).0 by {
            if j == s.len() {
                lemma_map_of_at(s, i);
            } else {
                assert(s[i].0 != s[j].0);
            }
        }
    }
    let m = map_of(t);
    let n = map_of(s).insert(x.0, x.1);
    assert forall|k: A| (#[trigger] m.dom().contains(k)) == n.dom().contains(k) && (
    m.dom().contains(k) ==> m[k] == n[k]) by {
        if m.contains_key(k) {
            let i = choose|i: int| 0 <= i < t.len() && (#[trigger] t[i]).0 == k;
            lemma_map_of_at(t, i);
            if i < s.len() {
                assert(s[i].0 == k);
                lemma_map_of_at(s, i);
            }
        }
        if map_of(s).contains_key(k) {
            let i = choose|i: int| 0 <= i < s.len() && (#[trigger] s[i]).0 == k;
            assert(t[i].0 == k);
        }
        assert(t[s.len() as int].0 == x.0);
    }
    assert(m =~= n);
}

pub proof fn lemma_map_of_update<A, B>(s: Seq<(A, B)>, i: int, v: B)
    requires
        distinct_keys(s),
        0 <= i < s.len(),
    ensures
        distinct_keys(s.update(i, (s[i].0, v))),
        map_of(s.update(i, (s[i].0, v))) == map_of(s).insert(s[i].0, v),
{
    let t = s.update(i, (s[i].0, v));
    assert forall|a: int, b: int| 0 <= a < b < t.len() implies (#[trigger] t[a]).0 != (
    #[trigger] t[b]).0 by {
        assert(s[a].0 != s[b].0);
    }
    let m = map_of(t);
    let n = map_of(s).insert(s[i].0, v);
    assert forall|k: A| (#[trigger] m.dom().contains(k)) == n.dom().contains(k) && (
    m.dom().contains(k) ==> m[k] == n[k]) by {
        if m.contains_key(k) {
            let j = choose|j: int| 0 <= j < t.len() && (#[trigger] t[j]).0 == k;
            lemma_map_of_at(t, j);
            lemma_map_of_at(s, j);
            if j != i && k == s[i].0 {
                assert(s[i].0 != s[j].0 || s[j].0 != s[i].0);
                assert(j < i ==> s[j].0 != s[i].0);
                assert(i < j ==> s[i].0 != s[j].0);
            }
        }
        if map_of(s).contains_key(k) {
            let j = choose|j: int| 0 <= j < s.len() && (#[trigger] s[j]).0 == k;
            assert(t[j].0 == k);
        }
        assert(t[i].0 == s[i].0);
    }
    assert(m =~= n);
}

pub proof fn lemma_map_of_remove<A, B>(s: Seq<(A, B)>, i: int)
    requires
        distinct_keys(s),
        0 <= i < s.len(),
    ensures
        distinct_keys(s.remove(i)),
        map_of(s.remove(i)) == map_of(s).remove(s[i].0),
{
    let t = s.remove(i);
    assert forall|a: int, b: int| 0 <= a < b < t.len() implies (#[trigger] t[a]).0 != (
    #[trigger] t[b]).0 by {
        let x = if a < i {
            a
        } else {
            a + 1
        };
        let y = if b < i {
            b
        } else {
            b + 1
        };
        assert(s[x].0 != s[y].0);
    }
    let m = map_of(t);
    let n = map_of(s).remove(s[i].0);
    assert forall|k: A| (#[trigger] m.dom().contains(k)) == n.dom().contains(k) && (
    m.dom().contains(k) ==> m[k] == n[k]) by {
        if m.contains_key(k) {
            let j = choose|j: int| 0 <= j < t.len() && (#[trigger] t[j]).0 == k;
            lemma_map_of_at(t, j);
            let y = if j < i {
                j
            } else {
                j + 1
            };
            lemma_map_of_at(s, y);
            assert(y < i ==> s[y].0 != s[i].0);
            assert(i < y ==> s[i].0 != s[y].0);
        }
        if n.contains_key(k) {
            let j = choose|j: int| 0 <= j < s.len() && (#[trigger] s[j]).0 == k;
            let y = if j < i {
                j
            } else {
                j - 1
            };
            assert(t[y].0 == k);
        }
    }
    assert(m =~= n);
}

pub proof fn lemma_map_of_len<A, B>(s: Seq<(A, B)>)
    requires
        distinct_keys(s),
    ensures
        map_of(s).dom().finite(),
        map_of(s).dom().len() == s.len(),
    decreases s.len(),
{
    if s.len() == 0 {
        assert(map_of(s).dom() =~= Set::empty());
    } else {
        let i = s.len() - 1;
        lemma_map_of_remove(s, i);
        lemma_map_of_at(s, i);
        lemma_map_of_len(s.remove(i));
        let d = map_of(s).dom();
        assert(map_of(s.remove(i)).dom() =~= d.remove(s[i].0));
        assert(d =~= d.remove(s[i].0).insert(s[i].0));
    }
}

/// A table of values by key.
pub struct Table<K: Key, V: View> {
    entries: Vec<(K, V)>,
}

impl<K: Key, V: View> View for Table<K, V> {
    type V = Map<K::V, V::V>;

    closed spec fn view(&self) -> Map<K::V, V::V> {
        map_of(self.pairs())
    }
}

impl<K: Key, V: View> Table<K, V> {
    /// The pairs in the order in which they are kept.
    pub closed spec fn pairs(&self) -> Seq<(K::V, V::V)> {
        views(self.entries@)
    }

    #[verifier::type_invariant]
    spec fn keys_differ(&self) -> bool {
        distinct_keys(self.pairs())
    }

    pub fn new() -> (t: Table<K, V>)
        ensures
            t@ == Map::<K::V, V::V>::empty(),
    {
        let t: Table<K, V> = Table { entries: Vec::new() };
        assert(t@ =~= Map::empty());
        t
    }

    /// How many keys there are.
    pub fn len(&self) -> (n: usize)
        ensures
            n == self@.dom().len(),
            n == self.pairs().len(),
            self@.dom().finite(),
            distinct_keys(self.pairs()),
            self@ == map_of(self.pairs()),
    {
        proof {
            use_type_invariant(self);
            lemma_map_of_len(self.pairs());
        }
        self.entries.len()
    }

    fn position(&self, k: &K) -> (r: Option<usize>)
        ensures
            match r {
                Some(i) => i < self.entries@.len() && self.entries@[i as int].0@ == k@,
                None => !self@.contains_key(k@),
            },
    {
        let mut i: usize = 0;
        while i < self.entries.len()
            invariant
                i <= self.entries@.len(),
                forall|j: int| 0 <= j < i ==> (#[trigger] self.pairs()[j]).0 != k@,
            decreases self.entries@.len() - i,
        {
            assert(self.pairs()[i as int].0 == self.entries@[i as int].0@);
            if self.entries[i].0.same(k) {
                return Some(i);
            }
            i = i + 1;
        }
        None
    }

    /// The value of `k`.
    pub fn get(&self, k: &K) -> (r: Option<&V>)
        ensures
            match r {
                Some(v) => self@.contains_key(k@) && v@ == self@[k@],
                None => !self@.contains_key(k@),
            },
    {
        match self.position(k) {
            Some(i) => {
                proof {
                    use_type_invariant(self);
                    lemma_map_of_at(self.pairs(), i as int);
                }
                Some(&self.entries[i].1)
            },
            None => None,
        }
    }

    pub fn contains(&self, k: &K) -> (r: bool)
        ensures
            r == self@.contains_key(k@),
    {
        self.get(k).is_some()
    }

    /// Sets the value of `k` and hands back the value it had.
    pub fn insert(&mut self, k: K, v: V) -> (r: Option<V>)
        ensures
            final(self)@ == old(self)@.insert(k@, v@),
            match r {
                Some(p) => old(self)@.contains_key(k@) && p@ == old(self)@[k@],
                None => !old(self)@.contains_key(k@),
            },
    {
        let found: Option<usize> = self.position(&k);
        let ghost before = self.pairs();
        proof {
            use_type_invariant(&*self);
        }
        let mut entries: Vec<(K, V)> = Vec::new();
        std::mem::swap(&mut entries, &mut self.entries);
        let prev: Option<V> = match found {
            Some(i) => {
                let (key, prev) = entries.remove(i);
                entries.insert(i, (key, v));
                proof {
                    lemma_map_of_at(before, i as int);
                    lemma_map_of_update(before, i as int, v@);
                    assert(views(entries@) =~= before.update(i as int, (before[i as int].0, v@)));
                }
                Some(prev)
            },
            None => {
                entries.push((k, v));
                proof {
                    lemma_map_of_push(before, (k@, v@));
                    assert(views(entries@) =~= before.push((k@, v@)));
                }
                None
            },
        };
        *self = Table { entries };
        prev
    }

    /// Takes the pair at `i` out.
    fn take_at(&mut self, i: usize) -> (r: (K, V))
        requires
            i < old(self).pairs().len(),
        ensures
            final(self).pairs() == old(self).pairs().remove(i as int),
            final(self)@ == old(self)@.remove(old(self).pairs()[i as int].0),
            old(self)@.contains_key(old(self).pairs()[i as int].0),
            r.0@ == old(self).pairs()[i as int].0,
            r.1@ == old(self).pairs()[i as int].1,
            r.1@ == old(self)@[r.0@],
    {
        let ghost before = self.pairs();
        proof {
            use_type_invariant(&*self);
            lemma_map_of_at(before, i as int);
            lemma_map_of_remove(before, i as int);
        }
        let mut entries: Vec<(K, V)> = Vec::new();
        std::mem::swap(&mut entries, &mut self.entries);
        let r = entries.remove(i);
        assert(views(entries@) =~= before.remove(i as int));
        *self = Table { entries };
        r
    }

    /// Takes `k` and its value out.
    pub fn remove(&mut self, k: &K) -> (r: Option<V>)
        ensures
            final(self)@ == old(self)@.remove(k@),
            match r {
                Some(p) => old(self)@.contains_key(k@) && p@ == old(self)@[k@],
                None => !old(self)@.contains_key(k@),
            },
    {
        match self.position(k) {
            Some(i) => {
                let (key, v) = self.take_at(i);
                Some(v)
            },
            None => {
                assert(self@ =~= self@.remove(k@));
                None
            },
        }
    }

    /// Forgets every key.
    pub fn clear(&mut self)
        ensures
            final(self)@ == Map::<K::V, V::V>::empty(),
    {
        *self = Table::new();
    }

    /// The pair at `i`.
    pub fn pair(&self, i: usize) -> (r: (&K, &V))
        requires
            i < self.pairs().len(),
        ensures
            r.0@ == self.pairs()[i as int].0,
            r.1@ == self.pairs()[i as int].1,
            self@.contains_key(r.0@),
            self@[r.0@] == r.1@,
    {
        proof {
            use_type_invariant(self);
            lemma_map_of_at(self.pairs(), i as int);
        }
        let e = &self.entries[i];
        (&e.0, &e.1)
    }

    /// Takes the pair at `i` out and says what is left.
    pub fn remove_at(&mut self, i: usize)
        requires
            i < old(self).pairs().len(),
        ensures
            final(self).pairs() == old(self).pairs().remove(i as int),
            final(self)@ == old(self)@.remove(old(self).pairs()[i as int].0),
    {
        let gone = self.take_at(i);
    }
}

} // verus!
