//! Association maps keyed by outpoints and by transaction hashes, modeled
//! as mathematical `Map`s. Entries are kept in a vector with unique keys;
//! lookups are by linear scan, which keeps every operation fully specified.

use vstd::prelude::*;
use crate::chain::{OutPoint, outpoint_eq, bytes_eq};

verus! {

/// The mathematical contents of an entry list: later entries win, though
/// with unique keys no entry shadows another.
pub open spec fn map_of<V>(s: Seq<(OutPoint, V)>) -> Map<(Seq<u8>, u32), V>
    decreases s.len(),
{
    if s.len() == 0 {
        Map::empty()
    } else {
        map_of(s.drop_last()).insert(s.last().0.key(), s.last().1)
    }
}

pub open spec fn keys_unique<V>(s: Seq<(OutPoint, V)>) -> bool {
    forall|i: int, j: int|
        0 <= i < j < s.len() ==> (#[trigger] s[i]).0.key() != (#[trigger] s[j]).0.key()
}

pub proof fn lemma_map_of_index<V>(s: Seq<(OutPoint, V)>, i: int)
    requires
        keys_unique(s),
        0 <= i < s.len(),
    ensures
        map_of(s).dom().contains(s[i].0.key()),
        map_of(s)[s[i].0.key()] == s[i].1,
    decreases s.len(),
{
    if i < s.len() - 1 {
        assert forall|i1: int, j1: int| 0 <= i1 < j1 < s.drop_last().len() implies (#[trigger] s.drop_last()[i1]).0.key()
            != (#[trigger] s.drop_last()[j1]).0.key() by {
            assert(s.drop_last()[i1] == s[i1]);
            assert(s.drop_last()[j1] == s[j1]);
        }
        lemma_map_of_index(s.drop_last(), i);
        assert(s.drop_last()[i] == s[i]);
        assert(s[i].0.key() != s[s.len() - 1].0.key());
    }
}

pub proof fn lemma_map_of_absent<V>(s: Seq<(OutPoint, V)>, k: (Seq<u8>, u32))
    requires
        forall|i: int| 0 <= i < s.len() ==> (#[trigger] s[i]).0.key() != k,
    ensures
        !map_of(s).dom().contains(k),
    decreases s.len(),
{
    if s.len() > 0 {
        assert forall|i: int| 0 <= i < s.drop_last().len() implies (#[trigger] s.drop_last()[i]).0.key()
            != k by {
            assert(s.drop_last()[i] == s[i]);
        }
        lemma_map_of_absent(s.drop_last(), k);
    }
}

pub proof fn lemma_map_of_push<V>(s: Seq<(OutPoint, V)>, e: (OutPoint, V))
    ensures
        map_of(s.push(e)) == map_of(s).insert(e.0.key(), e.1),
{
    assert(s.push(e).drop_last() =~= s);
    assert(s.push(e).last() == e);
}

pub proof fn lemma_remove_keeps_unique<V>(s: Seq<(OutPoint, V)>, i: int)
    requires
        keys_unique(s),
        0 <= i < s.len(),
    ensures
        keys_unique(s.remove(i)),
        forall|j: int|
            0 <= j < s.remove(i).len() ==> (#[trigger] s.remove(i)[j]).0.key() != s[i].0.key(),
{
    let t = s.remove(i);
    assert forall|i1: int, j1: int| 0 <= i1 < j1 < t.len() implies (#[trigger] t[i1]).0.key()
        != (#[trigger] t[j1]).0.key() by {
        let a = if i1 < i {
            i1
        } else {
            i1 + 1
        };
        let b = if j1 < i {
            j1
        } else {
            j1 + 1
        };
        assert(t[i1] == s[a]);
        assert(t[j1] == s[b]);
    }
    assert forall|j: int| 0 <= j < t.len() implies (#[trigger] t[j]).0.key() != s[i].0.key() by {
        let a = if j < i {
            j
        } else {
            j + 1
        };
        assert(t[j] == s[a]);
    }
}

pub proof fn lemma_map_of_remove<V>(s: Seq<(OutPoint, V)>, i: int)
    requires
        keys_unique(s),
        0 <= i < s.len(),
    ensures
        map_of(s.remove(i)) == map_of(s).remove(s[i].0.key()),
    decreases s.len(),
{
    let k = s[i].0.key();
    if i == s.len() - 1 {
        assert(s.remove(i) =~= s.drop_last());
        assert forall|j: int| 0 <= j < s.drop_last().len() implies (#[trigger] s.drop_last()[j]).0.key()
            != k by {
            assert(s.drop_last()[j] == s[j]);
        }
        lemma_map_of_absent(s.drop_last(), k);
        assert(map_of(s.drop_last()).insert(k, s[i].1).remove(k) =~= map_of(s.drop_last()));
    } else {
        assert forall|i1: int, j1: int| 0 <= i1 < j1 < s.drop_last().len() implies (#[trigger] s.drop_last()[i1]).0.key()
            != (#[trigger] s.drop_last()[j1]).0.key() by {
            assert(s.drop_last()[i1] == s[i1]);
            assert(s.drop_last()[j1] == s[j1]);
        }
        assert(s.drop_last()[i] == s[i]);
        lemma_map_of_remove(s.drop_last(), i);
        assert(s.remove(i).drop_last() =~= s.drop_last().remove(i));
        assert(s.remove(i).last() == s.last());
        assert(s.last().0.key() != k);
        assert(map_of(s.drop_last()).remove(k).insert(s.last().0.key(), s.last().1) =~= map_of(
            s.drop_last(),
        ).insert(s.last().0.key(), s.last().1).remove(k));
    }
}

/// A map from outpoints to values of type `V`.
pub struct OutMap<V> {
    pub entries: Vec<(OutPoint, V)>,
}

impl<V> View for OutMap<V> {
    type V = Map<(Seq<u8>, u32), V>;

    open spec fn view(&self) -> Map<(Seq<u8>, u32), V> {
        map_of(self.entries@)
    }
}

impl<V> OutMap<V> {
    pub open spec fn wf(&self) -> bool {
        keys_unique(self.entries@)
    }

    pub fn new() -> (r: Self)
        ensures
            r.wf(),
            r@ == Map::<(Seq<u8>, u32), V>::empty(),
            r.entries@.len() == 0,
    {
        OutMap { entries: Vec::new() }
    }

    pub fn len(&self) -> (r: usize)
        ensures
            r == self.entries@.len(),
    {
        self.entries.len()
    }

    fn find(&self, key: &OutPoint) -> (r: Option<usize>)
        ensures
            match r {
                Some(i) => i < self.entries@.len() && self.entries@[i as int].0.key()
                    == key.key(),
                None => forall|i: int|
                    0 <= i < self.entries@.len() ==> (#[trigger] self.entries@[i]).0.key()
                        != key.key(),
            },
    {
        let mut i: usize = 0;
        while i < self.entries.len()
            invariant
                0 <= i <= self.entries@.len(),
                forall|j: int|
                    0 <= j < i ==> (#[trigger] self.entries@[j]).0.key() != key.key(),
            decreases self.entries@.len() - i,
        {
            if outpoint_eq(&self.entries[i].0, key) {
                return Some(i);
            }
            i = i + 1;
        }
        None
    }

    pub fn contains_key(&self, key: &OutPoint) -> (r: bool)
        requires
            self.wf(),
        ensures
            r == self@.dom().contains(key.key()),
    {
        match self.find(key) {
            Some(i) => {
                proof {
                    lemma_map_of_index(self.entries@, i as int);
                }
                true
            },
            None => {
                proof {
                    lemma_map_of_absent(self.entries@, key.key());
                }
                false
            },
        }
    }

    pub fn get(&self, key: &OutPoint) -> (r: Option<&V>)
        requires
            self.wf(),
        ensures
            match r {
                Some(v) => self@.dom().contains(key.key()) && *v == self@[key.key()],
                None => !self@.dom().contains(key.key()),
            },
    {
        match self.find(key) {
            Some(i) => {
                proof {
                    lemma_map_of_index(self.entries@, i as int);
                }
                Some(&self.entries[i].1)
            },
            None => {
                proof {
                    lemma_map_of_absent(self.entries@, key.key());
                }
                None
            },
        }
    }

    /// Insert `value` under `key`, replacing any existing entry.
    pub fn insert(&mut self, key: OutPoint, value: V)
        requires
            old(self).wf(),
        ensures
            final(self).wf(),
            final(self)@ == old(self)@.insert(key.key(), value),
            final(self).entries@.len() <= old(self).entries@.len() + 1,
    {
        let ghost s0 = self.entries@;
        match self.find(&key) {
            Some(i) => {
                let _ = self.entries.remove(i);
                proof {
                    lemma_map_of_remove(s0, i as int);
                    lemma_remove_keeps_unique(s0, i as int);
                    lemma_map_of_push(self.entries@, (key, value));
                    assert(map_of(s0).remove(key.key()).insert(key.key(), value) =~= map_of(
                        s0,
                    ).insert(key.key(), value));
                }
                let ghost s1 = self.entries@;
                self.entries.push((key, value));
                proof {
                    assert forall|i1: int, j1: int|
                        0 <= i1 < j1 < self.entries@.len() implies (#[trigger] self.entries@[i1]).0.key()
                        != (#[trigger] self.entries@[j1]).0.key() by {
                        if j1 < self.entries@.len() - 1 {
                            assert(self.entries@[i1] == s1[i1]);
                            assert(self.entries@[j1] == s1[j1]);
                        } else {
                            assert(self.entries@[i1] == s1[i1]);
                        }
                    }
                }
            },
            None => {
                self.entries.push((key, value));
                proof {
                    lemma_map_of_push(s0, (key, value));
                    assert forall|i1: int, j1: int|
                        0 <= i1 < j1 < self.entries@.len() implies (#[trigger] self.entries@[i1]).0.key()
                        != (#[trigger] self.entries@[j1]).0.key() by {
                        if j1 < self.entries@.len() - 1 {
                            assert(self.entries@[i1] == s0[i1]);
                            assert(self.entries@[j1] == s0[j1]);
                        } else {
                            assert(self.entries@[i1] == s0[i1]);
                        }
                    }
                }
            },
        }
    }

    /// Remove the entry under `key`, returning its value if one was there.
    pub fn take(&mut self, key: &OutPoint) -> (r: Option<V>)
        requires
            old(self).wf(),
        ensures
            final(self).wf(),
            match r {
                Some(v) => old(self)@.dom().contains(key.key()) && v == old(self)@[key.key()]
                    && final(self)@ == old(self)@.remove(key.key()),
                None => !old(self)@.dom().contains(key.key()) && *final(self) == *old(self),
            },
    {
        let ghost s0 = self.entries@;
        match self.find(key) {
            Some(i) => {
                proof {
                    lemma_map_of_index(s0, i as int);
                    lemma_map_of_remove(s0, i as int);
                    lemma_remove_keeps_unique(s0, i as int);
                }
                let (_, v) = self.entries.remove(i);
                Some(v)
            },
            None => {
                proof {
                    lemma_map_of_absent(s0, key.key());
                }
                None
            },
        }
    }

    /// Remove the entry under `key` if one is there.
    pub fn remove(&mut self, key: &OutPoint)
        requires
            old(self).wf(),
        ensures
            final(self).wf(),
            final(self)@ == old(self)@.remove(key.key()),
    {
        let _ = self.take(key);
        proof {
            if !old(self)@.dom().contains(key.key()) {
                assert(old(self)@.remove(key.key()) =~= old(self)@);
            }
        }
    }
}

/// The mathematical contents of a transaction-hash keyed entry list.
pub open spec fn tmap_of<V>(s: Seq<(Vec<u8>, V)>) -> Map<Seq<u8>, V>
    decreases s.len(),
{
    if s.len() == 0 {
        Map::empty()
    } else {
        tmap_of(s.drop_last()).insert(s.last().0@, s.last().1)
    }
}

pub open spec fn tkeys_unique<V>(s: Seq<(Vec<u8>, V)>) -> bool {
    forall|i: int, j: int| 0 <= i < j < s.len() ==> (#[trigger] s[i]).0@ != (#[trigger] s[j]).0@
}

pub proof fn lemma_tmap_of_index<V>(s: Seq<(Vec<u8>, V)>, i: int)
    requires
        tkeys_unique(s),
        0 <= i < s.len(),
    ensures
        tmap_of(s).dom().contains(s[i].0@),
        tmap_of(s)[s[i].0@] == s[i].1,
    decreases s.len(),
{
    if i < s.len() - 1 {
        assert forall|i1: int, j1: int| 0 <= i1 < j1 < s.drop_last().len() implies (#[trigger] s.drop_last()[i1]).0@
            != (#[trigger] s.drop_last()[j1]).0@ by {
            assert(s.drop_last()[i1] == s[i1]);
            assert(s.drop_last()[j1] == s[j1]);
        }
        lemma_tmap_of_index(s.drop_last(), i);
        assert(s.drop_last()[i] == s[i]);
        assert(s[i].0@ != s[s.len() - 1].0@);
    }
}

pub proof fn lemma_tmap_of_absent<V>(s: Seq<(Vec<u8>, V)>, k: Seq<u8>)
    requires
        forall|i: int| 0 <= i < s.len() ==> (#[trigger] s[i]).0@ != k,
    ensures
        !tmap_of(s).dom().contains(k),
    decreases s.len(),
{
    if s.len() > 0 {
        assert forall|i: int| 0 <= i < s.drop_last().len() implies (#[trigger] s.drop_last()[i]).0@
            != k by {
            assert(s.drop_last()[i] == s[i]);
        }
        lemma_tmap_of_absent(s.drop_last(), k);
    }
}

pub proof fn lemma_tmap_of_push<V>(s: Seq<(Vec<u8>, V)>, e: (Vec<u8>, V))
    ensures
        tmap_of(s.push(e)) == tmap_of(s).insert(e.0@, e.1),
{
    assert(s.push(e).drop_last() =~= s);
    assert(s.push(e).last() == e);
}

pub proof fn lemma_tremove_keeps_unique<V>(s: Seq<(Vec<u8>, V)>, i: int)
    requires
        tkeys_unique(s),
        0 <= i < s.len(),
    ensures
        tkeys_unique(s.remove(i)),
        forall|j: int| 0 <= j < s.remove(i).len() ==> (#[trigger] s.remove(i)[j]).0@ != s[i].0@,
{
    let t = s.remove(i);
    assert forall|i1: int, j1: int| 0 <= i1 < j1 < t.len() implies (#[trigger] t[i1]).0@
        != (#[trigger] t[j1]).0@ by {
        let a = if i1 < i {
            i1
        } else {
            i1 + 1
        };
        let b = if j1 < i {
            j1
        } else {
            j1 + 1
        };
        assert(t[i1] == s[a]);
        assert(t[j1] == s[b]);
    }
    assert forall|j: int| 0 <= j < t.len() implies (#[trigger] t[j]).0@ != s[i].0@ by {
        let a = if j < i {
            j
        } else {
            j + 1
        };
        assert(t[j] == s[a]);
    }
}

pub proof fn lemma_tmap_of_remove<V>(s: Seq<(Vec<u8>, V)>, i: int)
    requires
        tkeys_unique(s),
        0 <= i < s.len(),
    ensures
        tmap_of(s.remove(i)) == tmap_of(s).remove(s[i].0@),
    decreases s.len(),
{
    let k = s[i].0@;
    if i == s.len() - 1 {
        assert(s.remove(i) =~= s.drop_last());
        assert forall|j: int| 0 <= j < s.drop_last().len() implies (#[trigger] s.drop_last()[j]).0@
            != k by {
            assert(s.drop_last()[j] == s[j]);
        }
        lemma_tmap_of_absent(s.drop_last(), k);
        assert(tmap_of(s.drop_last()).insert(k, s[i].1).remove(k) =~= tmap_of(s.drop_last()));
    } else {
        assert forall|i1: int, j1: int| 0 <= i1 < j1 < s.drop_last().len() implies (#[trigger] s.drop_last()[i1]).0@
            != (#[trigger] s.drop_last()[j1]).0@ by {
            assert(s.drop_last()[i1] == s[i1]);
            assert(s.drop_last()[j1] == s[j1]);
        }
        assert(s.drop_last()[i] == s[i]);
        lemma_tmap_of_remove(s.drop_last(), i);
        assert(s.remove(i).drop_last() =~= s.drop_last().remove(i));
        assert(s.remove(i).last() == s.last());
        assert(s.last().0@ != k);
        assert(tmap_of(s.drop_last()).remove(k).insert(s.last().0@, s.last().1) =~= tmap_of(
            s.drop_last(),
        ).insert(s.last().0@, s.last().1).remove(k));
    }
}

/// A map from 32-byte transaction hashes to values of type `V`.
pub struct TxidMap<V> {
    pub entries: Vec<(Vec<u8>, V)>,
}

impl<V> View for TxidMap<V> {
    type V = Map<Seq<u8>, V>;

    open spec fn view(&self) -> Map<Seq<u8>, V> {
        tmap_of(self.entries@)
    }
}

impl<V> TxidMap<V> {
    pub open spec fn wf(&self) -> bool {
        tkeys_unique(self.entries@)
    }

    pub fn new() -> (r: Self)
        ensures
            r.wf(),
            r@ == Map::<Seq<u8>, V>::empty(),
            r.entries@.len() == 0,
    {
        TxidMap { entries: Vec::new() }
    }

    pub fn len(&self) -> (r: usize)
        ensures
            r == self.entries@.len(),
    {
        self.entries.len()
    }

    fn find(&self, key: &Vec<u8>) -> (r: Option<usize>)
        ensures
            match r {
                Some(i) => i < self.entries@.len() && self.entries@[i as int].0@ == key@,
                None => forall|i: int|
                    0 <= i < self.entries@.len() ==> (#[trigger] self.entries@[i]).0@ != key@,
            },
    {
        let mut i: usize = 0;
        while i < self.entries.len()
            invariant
                0 <= i <= self.entries@.len(),
                forall|j: int| 0 <= j < i ==> (#[trigger] self.entries@[j]).0@ != key@,
            decreases self.entries@.len() - i,
        {
            if bytes_eq(&self.entries[i].0, key) {
                return Some(i);
            }
            i = i + 1;
        }
        None
    }

    pub fn contains_key(&self, key: &Vec<u8>) -> (r: bool)
        requires
            self.wf(),
        ensures
            r == self@.dom().contains(key@),
    {
        match self.find(key) {
            Some(i) => {
                proof {
                    lemma_tmap_of_index(self.entries@, i as int);
                }
                true
            },
            None => {
                proof {
                    lemma_tmap_of_absent(self.entries@, key@);
                }
                false
            },
        }
    }

    /// Insert `value` under `key`, replacing any existing entry.
    pub fn insert(&mut self, key: Vec<u8>, value: V)
        requires
            old(self).wf(),
        ensures
            final(self).wf(),
            final(self)@ == old(self)@.insert(key@, value),
    {
        let ghost s0 = self.entries@;
        match self.find(&key) {
            Some(i) => {
                let _ = self.entries.remove(i);
                proof {
                    lemma_tmap_of_remove(s0, i as int);
                    lemma_tremove_keeps_unique(s0, i as int);
                    lemma_tmap_of_push(self.entries@, (key, value));
                    assert(tmap_of(s0).remove(key@).insert(key@, value) =~= tmap_of(s0).insert(
                        key@,
                        value,
                    ));
                }
                let ghost s1 = self.entries@;
                self.entries.push((key, value));
                proof {
                    assert forall|i1: int, j1: int|
                        0 <= i1 < j1 < self.entries@.len() implies (#[trigger] self.entries@[i1]).0@
                        != (#[trigger] self.entries@[j1]).0@ by {
                        if j1 < self.entries@.len() - 1 {
                            assert(self.entries@[i1] == s1[i1]);
                            assert(self.entries@[j1] == s1[j1]);
                        } else {
                            assert(self.entries@[i1] == s1[i1]);
                        }
                    }
                }
            },
            None => {
                self.entries.push((key, value));
                proof {
                    lemma_tmap_of_push(s0, (key, value));
                    assert forall|i1: int, j1: int|
                        0 <= i1 < j1 < self.entries@.len() implies (#[trigger] self.entries@[i1]).0@
                        != (#[trigger] self.entries@[j1]).0@ by {
                        if j1 < self.entries@.len() - 1 {
                            assert(self.entries@[i1] == s0[i1]);
                            assert(self.entries@[j1] == s0[j1]);
                        } else {
                            assert(self.entries@[i1] == s0[i1]);
                        }
                    }
                }
            },
        }
    }

    /// Remove the entry under `key`, returning its value if one was there.
    pub fn take(&mut self, key: &Vec<u8>) -> (r: Option<V>)
        requires
            old(self).wf(),
        ensures
            final(self).wf(),
            match r {
                Some(v) => old(self)@.dom().contains(key@) && v == old(self)@[key@]
                    && final(self)@ == old(self)@.remove(key@),
                None => !old(self)@.dom().contains(key@) && *final(self) == *old(self),
            },
    {
        let ghost s0 = self.entries@;
        match self.find(key) {
            Some(i) => {
                proof {
                    lemma_tmap_of_index(s0, i as int);
                    lemma_tmap_of_remove(s0, i as int);
                    lemma_tremove_keeps_unique(s0, i as int);
                }
                let (_, v) = self.entries.remove(i);
                Some(v)
            },
            None => {
                proof {
                    lemma_tmap_of_absent(s0, key@);
                }
                None
            },
        }
    }
}

} // verus!
