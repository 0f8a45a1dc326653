use vstd::prelude::*;
use vstd::string::StrSliceExecFns;
use crate::auctions::auction::{Auction, AuctionView};
use crate::auctions::bid::Bid;
use crate::constants::utils::utf8;

verus! {

/// The byte strings of a list of identifiers.
pub open spec fn ids_of(v: Seq<Vec<u8>>) -> Seq<Seq<u8>> {
    v.map_values(|x: Vec<u8>| x@)
}

/// Whether two identifiers are equal.
fn same_bytes(a: &Vec<u8>, b: &Vec<u8>) -> (res: bool)
    ensures
        res == (a@ == b@),
{
    if a.len() != b.len() {
        return false;
    }
    let mut i: usize = 0;
    while i < a.len()
        invariant
            i <= a@.len(),
            a@.len() == b@.len(),
            forall|j: int| 0 <= j < i ==> a@[j] == b@[j],
        decreases a@.len() - i,
    {
        if a[i] != b[i] {
            return false;
        }
        i = i + 1;
    }
    assert(a@ =~= b@);
    true
}

/// A copy of an identifier.
fn copy_bytes(a: &Vec<u8>) -> (r: Vec<u8>)
    ensures
        r@ == a@,
{
    let mut r: Vec<u8> = Vec::new();
    let mut i: usize = 0;
    while i < a.len()
        invariant
            i <= a@.len(),
            r@ == a@.take(i as int),
        decreases a@.len() - i,
    {
        r.push(a[i]);
        assert(a@.take(i + 1) =~= a@.take(i as int).push(a@[i as int]));
        i = i + 1;
    }
    assert(a@.take(a@.len() as int) =~= a@);
    r
}

/// A copy of a list of identifiers.
fn copy_ids(v: &Vec<Vec<u8>>) -> (r: Vec<Vec<u8>>)
    ensures
        ids_of(r@) == ids_of(v@),
{
    let mut r: Vec<Vec<u8>> = Vec::new();
    let mut i: usize = 0;
    while i < v.len()
        invariant
            i <= v@.len(),
            ids_of(r@) == ids_of(v@.take(i as int)),
        decreases v@.len() - i,
    {
        let ghost before = r@;
        r.push(copy_bytes(&v[i]));
        assert(ids_of(r@) =~= ids_of(before).push(v@[i as int]@));
        assert(v@.take(i + 1) =~= v@.take(i as int).push(v@[i as int]));
        assert(ids_of(v@.take(i + 1)) =~= ids_of(v@.take(i as int)).push(v@[i as int]@));
        i = i + 1;
    }
    assert(v@.take(v@.len() as int) =~= v@);
    r
}

/// Lists of identifiers, each under an identifier: for each auction, the
/// identifiers of its bids. No key occurs twice.
#[derive(Debug)]
pub struct IdLists {
    entries: Vec<(Vec<u8>, Vec<Vec<u8>>)>,
}

impl IdLists {
    /// No key occurs twice among the entries.
    pub closed spec fn wf(&self) -> bool {
        forall|i: int, j: int|
            0 <= i < j < self.entries@.len() ==> (#[trigger] self.entries@[i]).0@
                != (#[trigger] self.entries@[j]).0@
    }

    /// The list under each key.
    pub closed spec fn view(&self) -> Map<Seq<u8>, Seq<Seq<u8>>> {
        Map::new(
            |k: Seq<u8>| exists|i: int| 0 <= i < self.entries@.len() && self.entries@[i].0@ == k,
            |k: Seq<u8>|
                ids_of(
                    self.entries@[choose|i: int|
                        0 <= i < self.entries@.len() && self.entries@[i].0@ == k].1@,
                ),
        )
    }

    proof fn lemma_view_at(&self, i: int)
        requires
            self.wf(),
            0 <= i < self.entries@.len(),
        ensures
            self@.contains_key(self.entries@[i].0@),
            self@[self.entries@[i].0@] == ids_of(self.entries@[i].1@),
    {
        let k = self.entries@[i].0@;
        let c = choose|c: int| 0 <= c < self.entries@.len() && self.entries@[c].0@ == k;
        if c != i {
            if c < i {
                assert(self.entries@[c].0@ != self.entries@[i].0@);
            } else {
                assert(self.entries@[i].0@ != self.entries@[c].0@);
            }
        }
    }

    /// No list.
    pub fn new() -> (r: Self)
        ensures
            r.wf(),
            r@ == Map::<Seq<u8>, Seq<Seq<u8>>>::empty(),
    {
        let r = IdLists { entries: Vec::new() };
        assert(r@ =~= Map::<Seq<u8>, Seq<Seq<u8>>>::empty());
        r
    }

    fn find(&self, key: &Vec<u8>) -> (res: Option<usize>)
        ensures
            match res {
                Some(i) => i < self.entries@.len() && self.entries@[i as int].0@ == key@,
                None => forall|i: int|
                    0 <= i < self.entries@.len() ==> (#[trigger] self.entries@[i]).0@ != key@,
            },
    {
        let mut i: usize = 0;
        while i < self.entries.len()
            invariant
                i <= self.entries@.len(),
                forall|j: int| 0 <= j < i ==> (#[trigger] self.entries@[j]).0@ != key@,
            decreases self.entries@.len() - i,
        {
            if same_bytes(&self.entries[i].0, key) {
                return Some(i);
            }
            i = i + 1;
        }
        None
    }

    /// Whether there is a list under `key`.
    pub fn contains_key(&self, key: &Vec<u8>) -> (res: bool)
        requires
            self.wf(),
        ensures
            res == self@.contains_key(key@),
    {
        match self.find(key) {
            Some(i) => {
                proof {
                    self.lemma_view_at(i as int);
                }
                true
            },
            None => false,
        }
    }

    /// The list under `key`, if there is one.
    pub fn get(&self, key: &Vec<u8>) -> (res: Option<&Vec<Vec<u8>>>)
        requires
            self.wf(),
        ensures
            match res {
                Some(l) => self@.contains_key(key@) && ids_of(l@) == self@[key@],
                None => !self@.contains_key(key@),
            },
    {
        match self.find(key) {
            Some(i) => {
                proof {
                    self.lemma_view_at(i as int);
                }
                Some(&self.entries[i].1)
            },
            None => None,
        }
    }
    /// Puts `list` under `key`, replacing what was there.
    pub fn insert(&mut self, key: Vec<u8>, list: Vec<Vec<u8>>)
        requires
            old(self).wf(),
        ensures
            final(self).wf(),
            final(self)@ == old(self)@.insert(key@, ids_of(list@)),
    {
        let ghost old_self = *self;
        let ghost kv = key@;
        let ghost vv = ids_of(list@);
        match self.find(&key) {
            Some(i) => {
                self.entries.set(i, (key, list));
                proof {
                    assert forall|a: int, b: int|
                        0 <= a < b < self.entries@.len() implies (#[trigger] self.entries@[a]).0@
                        != (#[trigger] self.entries@[b]).0@ by {
                        assert(self.entries@[a].0@ == old_self.entries@[a].0@);
                        assert(self.entries@[b].0@ == old_self.entries@[b].0@);
                        assert(old_self.entries@[a].0@ != old_self.entries@[b].0@);
                    }
                    assert forall|k: Seq<u8>| #[trigger] self@.contains_key(k) == old_self@.insert(
                        kv,
                        vv,
                    ).contains_key(k) && (self@.contains_key(k) ==> self@[k] == old_self@.insert(
                        kv,
                        vv,
                    )[k]) by {
                        if exists|j: int| 0 <= j < self.entries@.len() && self.entries@[j].0@ == k {
                            let j = choose|j: int|
                                0 <= j < self.entries@.len() && self.entries@[j].0@ == k;
                            self.lemma_view_at(j);
                            if j != i {
                                old_self.lemma_view_at(j);
                            }
                        } else {
                            assert forall|j: int| 0 <= j < old_self.entries@.len() implies old_self.entries@[j].0@ != k by {
                                assert(self.entries@[j].0@ == old_self.entries@[j].0@);
                            }
                        }
                    }
                    assert(self@ =~= old_self@.insert(kv, vv));
                }
            },
            None => {
                self.entries.push((key, list));
                proof {
                    let n = old_self.entries@.len() as int;
                    assert forall|a: int, b: int|
                        0 <= a < b < self.entries@.len() implies (#[trigger] self.entries@[a]).0@
                        != (#[trigger] self.entries@[b]).0@ by {
                        if b == n {
                            assert(old_self.entries@[a].0@ != kv);
                        } else {
                            assert(old_self.entries@[a].0@ != old_self.entries@[b].0@);
                        }
                    }
                    assert forall|k: Seq<u8>| #[trigger] self@.contains_key(k) == old_self@.insert(
                        kv,
                        vv,
                    ).contains_key(k) && (self@.contains_key(k) ==> self@[k] == old_self@.insert(
                        kv,
                        vv,
                    )[k]) by {
                        if exists|j: int| 0 <= j < self.entries@.len() && self.entries@[j].0@ == k {
                            let j = choose|j: int|
                                0 <= j < self.entries@.len() && self.entries@[j].0@ == k;
                            self.lemma_view_at(j);
                            if j != n {
                                old_self.lemma_view_at(j);
                            }
                        } else {
                            assert(self.entries@[n].0@ == kv);
                            assert forall|j: int| 0 <= j < old_self.entries@.len() implies old_self.entries@[j].0@ != k by {
                                assert(self.entries@[j] == old_self.entries@[j]);
                            }
                        }
                    }
                    assert(self@ =~= old_self@.insert(kv, vv));
                }
            },
        }
    }

    /// Appends `id` to the list under `key`, which starts empty where there
    /// was none.
    pub fn append(&mut self, key: Vec<u8>, id: Vec<u8>)
        requires
            old(self).wf(),
        ensures
            final(self).wf(),
            final(self)@ == old(self)@.insert(
                key@,
                (if old(self)@.contains_key(key@) {
                    old(self)@[key@]
                } else {
                    Seq::<Seq<u8>>::empty()
                }).push(id@),
            ),
    {
        let ghost prev = if self@.contains_key(key@) {
            self@[key@]
        } else {
            Seq::<Seq<u8>>::empty()
        };
        let mut list = match self.get(&key) {
            Some(l) => copy_ids(l),
            None => Vec::new(),
        };
        assert(ids_of(list@) =~= prev);
        let ghost before = list@;
        list.push(id);
        assert(ids_of(list@) =~= ids_of(before).push(list@.last()@));
        self.insert(key, list);
    }

    /// Drops the first occurrence of `id` from the list under `key`, where
    /// there is both.
    pub fn remove_id(&mut self, key: &Vec<u8>, id: &Vec<u8>)
        requires
            old(self).wf(),
        ensures
            final(self).wf(),
            final(self)@ == without_bid(old(self)@, key@, id@),
    {
        let ghost old_view = self@;
        match self.get(key) {
            None => {},
            Some(l) => {
                let mut list = copy_ids(l);
                match position_of(&list, id) {
                    Some(i) => {
                        let ghost before = ids_of(list@);
                        proof {
                            lemma_first_at_unique(before, id@, i as int);
                        }
                        list.remove(i);
                        assert(ids_of(list@) =~= before.remove(i as int));
                        self.insert(copy_bytes(key), list);
                    },
                    None => {
                        assert(old_view.insert(key@, old_view[key@]) =~= old_view);
                    },
                }
            },
        }
    }

    /// Takes the list under `key` away, if there is one.
    pub fn remove(&mut self, key: &Vec<u8>) -> (res: Option<Vec<Vec<u8>>>)
        requires
            old(self).wf(),
        ensures
            final(self).wf(),
            final(self)@ == old(self)@.remove(key@),
            match res {
                Some(l) => old(self)@.contains_key(key@) && ids_of(l@) == old(self)@[key@],
                None => !old(self)@.contains_key(key@),
            },
    {
        let ghost old_self = *self;
        match self.find(key) {
            Some(i) => {
                proof {
                    old_self.lemma_view_at(i as int);
                }
                let entry = self.entries.remove(i);
                proof {
                    let ov = old_self.entries@;
                    let nv = self.entries@;
                    assert(nv =~= ov.remove(i as int));
                    assert forall|a: int, b: int|
                        0 <= a < b < nv.len() implies (#[trigger] nv[a]).0@ != (#[trigger] nv[b]).0@ by {
                        let a2 = if a < i { a } else { a + 1 };
                        let b2 = if b < i { b } else { b + 1 };
                        assert(nv[a] == ov[a2]);
                        assert(nv[b] == ov[b2]);
                        assert(ov[a2].0@ != ov[b2].0@);
                    }
                    assert forall|k: Seq<u8>| #[trigger] self@.contains_key(k) == old_self@.remove(
                        key@,
                    ).contains_key(k) && (self@.contains_key(k) ==> self@[k] == old_self@.remove(
                        key@,
                    )[k]) by {
                        if exists|j: int| 0 <= j < nv.len() && nv[j].0@ == k {
                            let j = choose|j: int| 0 <= j < nv.len() && nv[j].0@ == k;
                            self.lemma_view_at(j);
                            let j2 = if j < i { j } else { j + 1 };
                            assert(nv[j] == ov[j2]);
                            old_self.lemma_view_at(j2);
                            assert(ov[j2].0@ != ov[i as int].0@);
                        } else {
                            if k != key@ && old_self@.contains_key(k) {
                                let w = choose|w: int| 0 <= w < ov.len() && ov[w].0@ == k;
                                assert(w != i);
                                let w2 = if w < i { w } else { w - 1 };
                                assert(nv[w2] == ov[w]);
                            }
                        }
                    }
                    assert(self@ =~= old_self@.remove(key@));
                }
                Some(entry.1)
            },
            None => {
                proof {
                    assert(!old_self@.contains_key(key@));
                    assert(self@ =~= old_self@.remove(key@));
                }
                None
            },
        }
    }

}

/// Values, each under an identifier. No key occurs twice.
#[derive(Debug)]
pub struct KeyedTable<T> {
    entries: Vec<(Vec<u8>, T)>,
}

impl<T> KeyedTable<T> {
    /// No key occurs twice among the entries.
    pub closed spec fn wf(&self) -> bool {
        forall|i: int, j: int|
            0 <= i < j < self.entries@.len() ==> (#[trigger] self.entries@[i]).0@
                != (#[trigger] self.entries@[j]).0@
    }

    /// The list under each key.
    pub closed spec fn view(&self) -> Map<Seq<u8>, T> {
        Map::new(
            |k: Seq<u8>| exists|i: int| 0 <= i < self.entries@.len() && self.entries@[i].0@ == k,
            |k: Seq<u8>|
                self.entries@[choose|i: int|
                    0 <= i < self.entries@.len() && self.entries@[i].0@ == k].1,
        )
    }

    proof fn lemma_view_at(&self, i: int)
        requires
            self.wf(),
            0 <= i < self.entries@.len(),
        ensures
            self@.contains_key(self.entries@[i].0@),
            self@[self.entries@[i].0@] == self.entries@[i].1,
    {
        let k = self.entries@[i].0@;
        let c = choose|c: int| 0 <= c < self.entries@.len() && self.entries@[c].0@ == k;
        if c != i {
            if c < i {
                assert(self.entries@[c].0@ != self.entries@[i].0@);
            } else {
                assert(self.entries@[i].0@ != self.entries@[c].0@);
            }
        }
    }

    /// No value.
    pub fn new() -> (r: Self)
        ensures
            r.wf(),
            r@ == Map::<Seq<u8>, T>::empty(),
    {
        let r = KeyedTable { entries: Vec::new() };
        assert(r@ =~= Map::<Seq<u8>, T>::empty());
        r
    }

    fn find(&self, key: &Vec<u8>) -> (res: Option<usize>)
        ensures
            match res {
                Some(i) => i < self.entries@.len() && self.entries@[i as int].0@ == key@,
                None => forall|i: int|
                    0 <= i < self.entries@.len() ==> (#[trigger] self.entries@[i]).0@ != key@,
            },
    {
        let mut i: usize = 0;
        while i < self.entries.len()
            invariant
                i <= self.entries@.len(),
                forall|j: int| 0 <= j < i ==> (#[trigger] self.entries@[j]).0@ != key@,
            decreases self.entries@.len() - i,
        {
            if same_bytes(&self.entries[i].0, key) {
                return Some(i);
            }
            i = i + 1;
        }
        None
    }

    /// Whether there is a value under `key`.
    pub fn contains_key(&self, key: &Vec<u8>) -> (res: bool)
        requires
            self.wf(),
        ensures
            res == self@.contains_key(key@),
    {
        match self.find(key) {
            Some(i) => {
                proof {
                    self.lemma_view_at(i as int);
                }
                true
            },
            None => false,
        }
    }

    /// The value under `key`, if there is one.
    pub fn get(&self, key: &Vec<u8>) -> (res: Option<&T>)
        requires
            self.wf(),
        ensures
            match res {
                Some(l) => self@.contains_key(key@) && *l == self@[key@],
                None => !self@.contains_key(key@),
            },
    {
        match self.find(key) {
            Some(i) => {
                proof {
                    self.lemma_view_at(i as int);
                }
                Some(&self.entries[i].1)
            },
            None => None,
        }
    }
    /// Puts `value` under `key`, replacing what was there.
    pub fn insert(&mut self, key: Vec<u8>, value: T)
        requires
            old(self).wf(),
        ensures
            final(self).wf(),
            final(self)@ == old(self)@.insert(key@, value),
    {
        let ghost old_self = *self;
        let ghost kv = key@;
        let ghost vv = value;
        match self.find(&key) {
            Some(i) => {
                self.entries.set(i, (key, value));
                proof {
                    assert forall|a: int, b: int|
                        0 <= a < b < self.entries@.len() implies (#[trigger] self.entries@[a]).0@
                        != (#[trigger] self.entries@[b]).0@ by {
                        assert(self.entries@[a].0@ == old_self.entries@[a].0@);
                        assert(self.entries@[b].0@ == old_self.entries@[b].0@);
                        assert(old_self.entries@[a].0@ != old_self.entries@[b].0@);
                    }
                    assert forall|k: Seq<u8>| #[trigger] self@.contains_key(k) == old_self@.insert(
                        kv,
                        vv,
                    ).contains_key(k) && (self@.contains_key(k) ==> self@[k] == old_self@.insert(
                        kv,
                        vv,
                    )[k]) by {
                        if exists|j: int| 0 <= j < self.entries@.len() && self.entries@[j].0@ == k {
                            let j = choose|j: int|
                                0 <= j < self.entries@.len() && self.entries@[j].0@ == k;
                            self.lemma_view_at(j);
                            if j != i {
                                old_self.lemma_view_at(j);
                            }
                        } else {
                            assert forall|j: int| 0 <= j < old_self.entries@.len() implies old_self.entries@[j].0@ != k by {
                                assert(self.entries@[j].0@ == old_self.entries@[j].0@);
                            }
                        }
                    }
                    assert(self@ =~= old_self@.insert(kv, vv));
                }
            },
            None => {
                self.entries.push((key, value));
                proof {
                    let n = old_self.entries@.len() as int;
                    assert forall|a: int, b: int|
                        0 <= a < b < self.entries@.len() implies (#[trigger] self.entries@[a]).0@
                        != (#[trigger] self.entries@[b]).0@ by {
                        if b == n {
                            assert(old_self.entries@[a].0@ != kv);
                        } else {
                            assert(old_self.entries@[a].0@ != old_self.entries@[b].0@);
                        }
                    }
                    assert forall|k: Seq<u8>| #[trigger] self@.contains_key(k) == old_self@.insert(
                        kv,
                        vv,
                    ).contains_key(k) && (self@.contains_key(k) ==> self@[k] == old_self@.insert(
                        kv,
                        vv,
                    )[k]) by {
                        if exists|j: int| 0 <= j < self.entries@.len() && self.entries@[j].0@ == k {
                            let j = choose|j: int|
                                0 <= j < self.entries@.len() && self.entries@[j].0@ == k;
                            self.lemma_view_at(j);
                            if j != n {
                                old_self.lemma_view_at(j);
                            }
                        } else {
                            assert(self.entries@[n].0@ == kv);
                            assert forall|j: int| 0 <= j < old_self.entries@.len() implies old_self.entries@[j].0@ != k by {
                                assert(self.entries@[j] == old_self.entries@[j]);
                            }
                        }
                    }
                    assert(self@ =~= old_self@.insert(kv, vv));
                }
            },
        }
    }

    /// Takes the value under `key` away, if there is one.
    pub fn remove(&mut self, key: &Vec<u8>) -> (res: Option<T>)
        requires
            old(self).wf(),
        ensures
            final(self).wf(),
            final(self)@ == old(self)@.remove(key@),
            match res {
                Some(l) => old(self)@.contains_key(key@) && l == old(self)@[key@],
                None => !old(self)@.contains_key(key@),
            },
    {
        let ghost old_self = *self;
        match self.find(key) {
            Some(i) => {
                proof {
                    old_self.lemma_view_at(i as int);
                }
                let entry = self.entries.remove(i);
                proof {
                    let ov = old_self.entries@;
                    let nv = self.entries@;
                    assert(nv =~= ov.remove(i as int));
                    assert forall|a: int, b: int|
                        0 <= a < b < nv.len() implies (#[trigger] nv[a]).0@ != (#[trigger] nv[b]).0@ by {
                        let a2 = if a < i { a } else { a + 1 };
                        let b2 = if b < i { b } else { b + 1 };
                        assert(nv[a] == ov[a2]);
                        assert(nv[b] == ov[b2]);
                        assert(ov[a2].0@ != ov[b2].0@);
                    }
                    assert forall|k: Seq<u8>| #[trigger] self@.contains_key(k) == old_self@.remove(
                        key@,
                    ).contains_key(k) && (self@.contains_key(k) ==> self@[k] == old_self@.remove(
                        key@,
                    )[k]) by {
                        if exists|j: int| 0 <= j < nv.len() && nv[j].0@ == k {
                            let j = choose|j: int| 0 <= j < nv.len() && nv[j].0@ == k;
                            self.lemma_view_at(j);
                            let j2 = if j < i { j } else { j + 1 };
                            assert(nv[j] == ov[j2]);
                            old_self.lemma_view_at(j2);
                            assert(ov[j2].0@ != ov[i as int].0@);
                        } else {
                            if k != key@ && old_self@.contains_key(k) {
                                let w = choose|w: int| 0 <= w < ov.len() && ov[w].0@ == k;
                                assert(w != i);
                                let w2 = if w < i { w } else { w - 1 };
                                assert(nv[w2] == ov[w]);
                            }
                        }
                    }
                    assert(self@ =~= old_self@.remove(key@));
                }
                Some(entry.1)
            },
            None => {
                proof {
                    assert(!old_self@.contains_key(key@));
                    assert(self@ =~= old_self@.remove(key@));
                }
                None
            },
        }
    }

}

/// `i` is the first position of `x` in `s`.
pub open spec fn first_at(s: Seq<Seq<u8>>, x: Seq<u8>, i: int) -> bool {
    &&& 0 <= i < s.len()
    &&& s[i] == x
    &&& forall|j: int| 0 <= j < i ==> s[j] != x
}

/// `s` without the first occurrence of `x`, where there is one.
pub open spec fn without_first_id(s: Seq<Seq<u8>>, x: Seq<u8>) -> Seq<Seq<u8>> {
    if s.contains(x) {
        s.remove(choose|i: int| first_at(s, x, i))
    } else {
        s
    }
}

proof fn lemma_first_at_exists(s: Seq<Seq<u8>>, x: Seq<u8>)
    requires
        s.contains(x),
    ensures
        first_at(s, x, choose|i: int| first_at(s, x, i)),
    decreases s.len(),
{
    if s[0] == x {
        assert(first_at(s, x, 0));
    } else {
        let w = choose|w: int| 0 <= w < s.len() && s[w] == x;
        let t = s.drop_first();
        assert(t[w - 1] == x);
        lemma_first_at_exists(t, x);
        let k = choose|k: int| first_at(t, x, k);
        assert forall|j: int| 0 <= j < k + 1 implies s[j] != x by {
            if j > 0 {
                assert(s[j] == t[j - 1]);
            }
        }
        assert(first_at(s, x, k + 1));
    }
}

/// Dropping the first occurrence of `x` takes one `x` away and leaves every
/// other identifier as often as it was.
proof fn lemma_without_first_counts(s: Seq<Seq<u8>>, x: Seq<u8>, y: Seq<u8>)
    ensures
        without_first_id(s, x).to_multiset().count(y) == if s.contains(x) && y == x {
            (s.to_multiset().count(y) - 1) as nat
        } else {
            s.to_multiset().count(y)
        },
        s.contains(x) ==> s.to_multiset().count(x) >= 1,
{
    broadcast use vstd::seq_lib::group_to_multiset_ensures;
    broadcast use vstd::multiset::group_multiset_axioms;

    if s.contains(x) {
        lemma_first_at_exists(s, x);
        let i = choose|i: int| first_at(s, x, i);
        assert(s.remove(i).to_multiset() == s.to_multiset().remove(s[i]));
    }
}

proof fn lemma_first_at_unique(s: Seq<Seq<u8>>, x: Seq<u8>, i: int)
    requires
        first_at(s, x, i),
    ensures
        s.contains(x),
        without_first_id(s, x) == s.remove(i),
{
    assert(s[i] == x);
    let c = choose|c: int| first_at(s, x, c);
    assert(first_at(s, x, c));
    if c < i {
        assert(s[c] != x);
    }
    if i < c {
        assert(s[i] != x);
    }
}

/// The first position of `x` in `v`, if it is there.
fn position_of(v: &Vec<Vec<u8>>, x: &Vec<u8>) -> (res: Option<usize>)
    ensures
        match res {
            Some(i) => first_at(ids_of(v@), x@, i as int),
            None => !ids_of(v@).contains(x@),
        },
{
    let mut i: usize = 0;
    while i < v.len()
        invariant
            i <= v@.len(),
            forall|j: int| 0 <= j < i ==> ids_of(v@)[j] != x@,
        decreases v@.len() - i,
    {
        if same_bytes(&v[i], x) {
            return Some(i);
        }
        i = i + 1;
    }
    None
}

/// The map after the first occurrence of `id` leaves the list under `key`,
/// where there is both.
pub open spec fn without_bid(m: Map<Seq<u8>, Seq<Seq<u8>>>, key: Seq<u8>, id: Seq<u8>) -> Map<
    Seq<u8>,
    Seq<Seq<u8>>,
> {
    if m.contains_key(key) {
        m.insert(key, without_first_id(m[key], id))
    } else {
        m
    }
}

/// The map after each bid of `w`, in order, leaves the list of its auction.
pub open spec fn without_bids(m: Map<Seq<u8>, Seq<Seq<u8>>>, w: Seq<(Seq<u8>, Seq<u8>)>) -> Map<
    Seq<u8>,
    Seq<Seq<u8>>,
>
    decreases w.len(),
{
    if w.len() == 0 {
        m
    } else {
        without_bid(without_bids(m, w.drop_last()), w.last().0, w.last().1)
    }
}

/// The map after `id` is appended to the list under `key`, which starts
/// empty where there was none.
pub open spec fn appended(m: Map<Seq<u8>, Seq<Seq<u8>>>, key: Seq<u8>, id: Seq<u8>) -> Map<
    Seq<u8>,
    Seq<Seq<u8>>,
> {
    m.insert(key, (if m.contains_key(key) { m[key] } else { Seq::<Seq<u8>>::empty() }).push(id))
}

/// The list under `key`; the empty list where there is none.
pub open spec fn list_at(m: Map<Seq<u8>, Seq<Seq<u8>>>, key: Seq<u8>) -> Seq<Seq<u8>> {
    if m.contains_key(key) {
        m[key]
    } else {
        Seq::<Seq<u8>>::empty()
    }
}

/// A payment that waits for confirmations: its transaction, the number of
/// the block it was requested at, and the auction it pays for.
#[derive(Debug)]
pub struct PendingPayment {
    pub tx_id: Vec<u8>,
    pub block_number: u64,
    pub auction_id: Vec<u8>,
}

/// A pending payment as plain values.
pub open spec fn payment_view(p: PendingPayment) -> (Seq<u8>, u64, Seq<u8>) {
    (p.tx_id@, p.block_number, p.auction_id@)
}

/// Pending payments as plain values.
pub open spec fn payments_of(s: Seq<PendingPayment>) -> Seq<(Seq<u8>, u64, Seq<u8>)> {
    s.map_values(|p: PendingPayment| payment_view(p))
}

/// A payment requested at block `p.1` is confirmed once the latest block is
/// `confirmations` blocks further.
pub open spec fn confirmed(p: (Seq<u8>, u64, Seq<u8>), latest: u64, confirmations: u64) -> bool {
    p.1 + confirmations <= latest
}

/// The payments of `s` that the block numbered `latest` confirms, in order.
pub open spec fn confirmed_of(s: Seq<(Seq<u8>, u64, Seq<u8>)>, latest: u64, confirmations: u64) -> Seq<
    (Seq<u8>, u64, Seq<u8>),
> {
    s.filter(|p: (Seq<u8>, u64, Seq<u8>)| confirmed(p, latest, confirmations))
}

/// The payments of `s` that the block numbered `latest` does not confirm, in order.
pub open spec fn unconfirmed_of(s: Seq<(Seq<u8>, u64, Seq<u8>)>, latest: u64, confirmations: u64) -> Seq<
    (Seq<u8>, u64, Seq<u8>),
> {
    s.filter(|p: (Seq<u8>, u64, Seq<u8>)| !confirmed(p, latest, confirmations))
}

fn copy_payment(p: &PendingPayment) -> (r: PendingPayment)
    ensures
        payment_view(r) == payment_view(*p),
{
    PendingPayment {
        tx_id: copy_bytes(&p.tx_id),
        block_number: p.block_number,
        auction_id: copy_bytes(&p.auction_id),
    }
}

/// A bid that waits for its bidder's payment: its auction and its identifier.
#[derive(Debug)]
pub struct WaitingBid {
    pub auction_id: Vec<u8>,
    pub bid_id: Vec<u8>,
}

/// A waiting bid as plain values.
pub open spec fn waiting_view(w: WaitingBid) -> (Seq<u8>, Seq<u8>) {
    (w.auction_id@, w.bid_id@)
}

/// Waiting bids as plain values.
pub open spec fn waiting_of(s: Seq<WaitingBid>) -> Seq<(Seq<u8>, Seq<u8>)> {
    s.map_values(|w: WaitingBid| waiting_view(w))
}

/// What decides which auctions have finished: the active auctions and the
/// bids on each, all bids and this node's own.
pub struct BookView {
    pub auctions: Seq<Seq<u8>>,
    pub bids: Map<Seq<u8>, Seq<Seq<u8>>>,
    pub our_bids: Map<Seq<u8>, Seq<Seq<u8>>>,
}

/// An active auction has finished when no bid on it is known and this node
/// has no bid on it left.
pub open spec fn is_finished(b: BookView, id: Seq<u8>) -> bool {
    !b.bids.contains_key(id) && list_at(b.our_bids, id).len() == 0
}

/// The book after `auction_ended(id)`.
pub open spec fn end_auction(b: BookView, id: Seq<u8>) -> BookView {
    BookView {
        auctions: without_first_id(b.auctions, id),
        bids: b.bids.remove(id),
        our_bids: b.our_bids.remove(id),
    }
}

/// The book after each auction of `ids`, in order, is ended where it has
/// finished by then.
pub open spec fn finish_all(b: BookView, ids: Seq<Seq<u8>>) -> BookView
    decreases ids.len(),
{
    if ids.len() == 0 {
        b
    } else {
        let p = finish_all(b, ids.drop_last());
        if is_finished(p, ids.last()) {
            end_auction(p, ids.last())
        } else {
            p
        }
    }
}

/// What a node knows of the auctions: those it runs, those active in the
/// network, the bids on each (its own and all it heard of), and the payments
/// that wait for confirmations.
#[derive(Debug)]
pub struct AuctionHandler {
    our_active_auctions: Vec<Auction>,
    active_auctions: Vec<Vec<u8>>,
    our_active_bids: IdLists,
    active_bids: IdLists,
    auction_waiting_for_payment: KeyedTable<Vec<WaitingBid>>,
    current_bid_index_for_auc: KeyedTable<usize>,
    payment_keys: Vec<Vec<u8>>,
    pending_payments: Vec<PendingPayment>,
}

impl AuctionHandler {
    /// The auctions this node runs, in the order they started.
    pub closed spec fn our_auctions(&self) -> Seq<AuctionView> {
        self.our_active_auctions@.map_values(|a: Auction| a@)
    }

    /// The identifiers of the active auctions, in the order they were heard of.
    pub closed spec fn auctions(&self) -> Seq<Seq<u8>> {
        ids_of(self.active_auctions@)
    }

    /// This node's bids, by auction.
    pub closed spec fn our_bids(&self) -> Map<Seq<u8>, Seq<Seq<u8>>> {
        self.our_active_bids@
    }

    /// The bids heard of, by auction.
    pub closed spec fn bids(&self) -> Map<Seq<u8>, Seq<Seq<u8>>> {
        self.active_bids@
    }

    /// The payments that wait for confirmations, in the order they were requested.
    pub closed spec fn payments(&self) -> Seq<(Seq<u8>, u64, Seq<u8>)> {
        payments_of(self.pending_payments@)
    }

    /// The payments for which an auction owner's key is recorded.
    pub closed spec fn payment_ids(&self) -> Seq<Seq<u8>> {
        ids_of(self.payment_keys@)
    }

    /// The bids that wait for each payment, as (auction, bid) identifiers.
    pub closed spec fn waiting(&self) -> Map<Seq<u8>, Seq<(Seq<u8>, Seq<u8>)>> {
        self.auction_waiting_for_payment@.map_values(|l: Vec<WaitingBid>| waiting_of(l@))
    }

    /// How many waiting bids each payment has gone through.
    pub closed spec fn bid_index(&self) -> Map<Seq<u8>, usize> {
        self.current_bid_index_for_auc@
    }

    /// What the payment flow knows: payment keys, waiting bids, bid indices.
    pub open spec fn payment_state(&self) -> (
        Seq<Seq<u8>>,
        Map<Seq<u8>, Seq<(Seq<u8>, Seq<u8>)>>,
        Map<Seq<u8>, usize>,
    ) {
        (self.payment_ids(), self.waiting(), self.bid_index())
    }

    /// The bid lists and tables are well formed, and every payment with
    /// waiting bids has a bid index that can advance past all of them.
    pub closed spec fn wf(&self) -> bool {
        &&& self.our_active_bids.wf()
        &&& self.active_bids.wf()
        &&& self.auction_waiting_for_payment.wf()
        &&& self.current_bid_index_for_auc.wf()
        &&& forall|k: Seq<u8>|
            #[trigger] self.auction_waiting_for_payment@.contains_key(k)
                ==> self.current_bid_index_for_auc@.contains_key(k)
                && self.current_bid_index_for_auc@[k] + self.auction_waiting_for_payment@[k]@.len()
                <= usize::MAX
    }

    /// The auctions and the bids on them.
    pub open spec fn book(&self) -> BookView {
        BookView { auctions: self.auctions(), bids: self.bids(), our_bids: self.our_bids() }
    }

    /// No auction, bid or payment.
    pub fn new() -> (h: Self)
        ensures
            h.wf(),
            h.our_auctions() == Seq::<AuctionView>::empty(),
            h.auctions() == Seq::<Seq<u8>>::empty(),
            h.our_bids() == Map::<Seq<u8>, Seq<Seq<u8>>>::empty(),
            h.bids() == Map::<Seq<u8>, Seq<Seq<u8>>>::empty(),
            h.payments() == Seq::<(Seq<u8>, u64, Seq<u8>)>::empty(),
            h.payment_ids() == Seq::<Seq<u8>>::empty(),
            h.waiting() == Map::<Seq<u8>, Seq<(Seq<u8>, Seq<u8>)>>::empty(),
            h.bid_index() == Map::<Seq<u8>, usize>::empty(),
    {
        let h = AuctionHandler {
            our_active_auctions: Vec::new(),
            active_auctions: Vec::new(),
            our_active_bids: IdLists::new(),
            active_bids: IdLists::new(),
            auction_waiting_for_payment: KeyedTable::new(),
            current_bid_index_for_auc: KeyedTable::new(),
            payment_keys: Vec::new(),
            pending_payments: Vec::new(),
        };
        assert(h.payment_ids() =~= Seq::<Seq<u8>>::empty());
        assert(h.waiting() =~= Map::<Seq<u8>, Seq<(Seq<u8>, Seq<u8>)>>::empty());
        assert(h.our_auctions() =~= Seq::<AuctionView>::empty());
        assert(h.auctions() =~= Seq::<Seq<u8>>::empty());
        assert(h.payments() =~= Seq::<(Seq<u8>, u64, Seq<u8>)>::empty());
        h
    }
    /// The identifiers of the active auctions, in order.
    pub fn active_auction_ids(&self) -> (ids: &Vec<Vec<u8>>)
        ensures
            ids_of(ids@) == self.auctions(),
    {
        &self.active_auctions
    }

    /// The bids heard of on `auction_id`, if any list is kept for it.
    pub fn bids_on(&self, auction_id: &Vec<u8>) -> (res: Option<&Vec<Vec<u8>>>)
        requires
            self.wf(),
        ensures
            match res {
                Some(l) => self.bids().contains_key(auction_id@) && ids_of(l@) == self.bids()[auction_id@],
                None => !self.bids().contains_key(auction_id@),
            },
    {
        self.active_bids.get(auction_id)
    }

    /// The identifiers of the auctions this node runs, in order: the node that
    /// asked for the active auctions is sent one message for each.
    pub fn handle_request_active_auctions(&self) -> (ids: Vec<Vec<u8>>)
        ensures
            ids_of(ids@) == self.our_auctions().map_values(|a: AuctionView| a.auction_id),
    {
        let mut ids: Vec<Vec<u8>> = Vec::new();
        let mut i: usize = 0;
        while i < self.our_active_auctions.len()
            invariant
                i <= self.our_active_auctions@.len(),
                ids_of(ids@) == self.our_auctions().take(i as int).map_values(
                    |a: AuctionView| a.auction_id,
                ),
            decreases self.our_active_auctions@.len() - i,
        {
            let id = self.our_active_auctions[i].auction_id();
            let ghost before = ids@;
            ids.push(vstd::slice::slice_to_vec(id.as_slice()));
            proof {
                assert(ids_of(ids@) =~= ids_of(before).push(id@));
                assert(self.our_auctions().take(i + 1) =~= self.our_auctions().take(i as int).push(
                    self.our_active_auctions@[i as int]@,
                ));
                assert(ids_of(ids@) =~= self.our_auctions().take(i + 1).map_values(
                    |a: AuctionView| a.auction_id,
                ));
            }
            i = i + 1;
        }
        assert(self.our_auctions().take(i as int) =~= self.our_auctions());
        ids
    }

    /// Records an auction this node starts: it joins this node's auctions,
    /// and its identifier, which is returned to be announced, joins the active
    /// auctions.
    pub fn start_new_auction(&mut self, auction: Auction) -> (id: Vec<u8>)
        requires
            old(self).wf(),
        ensures
            final(self).wf(),
            id@ == auction@.auction_id,
            final(self).our_auctions() == old(self).our_auctions().push(auction@),
            final(self).payment_state() == old(self).payment_state(),
            final(self).auctions() == old(self).auctions().push(auction@.auction_id),
            final(self).our_bids() == old(self).our_bids(),
            final(self).bids() == old(self).bids(),
            final(self).payments() == old(self).payments(),
    {
        let key = auction.auction_id();
        let id = vstd::slice::slice_to_vec(key.as_slice());
        let ghost av = auction@;
        self.our_active_auctions.push(auction);
        self.active_auctions.push(vstd::slice::slice_to_vec(key.as_slice()));
        assert(self.our_auctions() =~= old(self).our_auctions().push(av));
        assert(self.auctions() =~= old(self).auctions().push(av.auction_id));
        id
    }

    /// Records an auction that another node announced.
    pub fn handle_new_auction_started(&mut self, auction_id: Vec<u8>)
        requires
            old(self).wf(),
        ensures
            final(self).wf(),
            final(self).auctions() == old(self).auctions().push(auction_id@),
            final(self).our_auctions() == old(self).our_auctions(),
            final(self).payment_state() == old(self).payment_state(),
            final(self).our_bids() == old(self).our_bids(),
            final(self).bids() == old(self).bids(),
            final(self).payments() == old(self).payments(),
    {
        let ghost v = auction_id@;
        self.active_auctions.push(auction_id);
        assert(self.auctions() =~= old(self).auctions().push(v));
    }

    /// Records a bid whose content was found in the network: it is listed
    /// among the bids under its own identifier.
    pub fn handle_new_bid(&mut self, bid: Vec<u8>)
        requires
            old(self).wf(),
        ensures
            final(self).wf(),
            final(self).bids() == appended(old(self).bids(), bid@, bid@),
            final(self).auctions() == old(self).auctions(),
            final(self).our_auctions() == old(self).our_auctions(),
            final(self).payment_state() == old(self).payment_state(),
            final(self).our_bids() == old(self).our_bids(),
            final(self).payments() == old(self).payments(),
    {
        let key = copy_bytes(&bid);
        self.active_bids.append(key, bid);
    }

    fn append_global_bid(&mut self, bid: &Bid)
        requires
            old(self).wf(),
        ensures
            final(self).wf(),
            final(self).bids() == appended(old(self).bids(), utf8(bid.auction_id()), utf8(bid.bid_id())),
            final(self).auctions() == old(self).auctions(),
            final(self).our_auctions() == old(self).our_auctions(),
            final(self).payment_state() == old(self).payment_state(),
            final(self).our_bids() == old(self).our_bids(),
            final(self).payments() == old(self).payments(),
    {
        let key = bid.get_auction_id().as_str().as_bytes_vec();
        let id = bid.get_bid_id().as_str().as_bytes_vec();
        self.active_bids.append(key, id);
    }

    fn append_our_bid(&mut self, bid: &Bid)
        requires
            old(self).wf(),
        ensures
            final(self).wf(),
            final(self).our_bids() == appended(old(self).our_bids(), utf8(bid.auction_id()), utf8(bid.bid_id())),
            final(self).auctions() == old(self).auctions(),
            final(self).our_auctions() == old(self).our_auctions(),
            final(self).payment_state() == old(self).payment_state(),
            final(self).bids() == old(self).bids(),
            final(self).payments() == old(self).payments(),
    {
        let key = bid.get_auction_id().as_str().as_bytes_vec();
        let id = bid.get_bid_id().as_str().as_bytes_vec();
        self.our_active_bids.append(key, id);
    }

    /// Records a bid this node places: its identifier is listed under its
    /// auction among this node's bids and among all bids, and is returned to
    /// be announced. Identifiers are the UTF-8 bytes of the bid's texts.
    pub fn publish_bid(&mut self, bid: &Bid) -> (id: Vec<u8>)
        requires
            old(self).wf(),
        ensures
            final(self).wf(),
            id@ == utf8(bid.bid_id()),
            final(self).our_bids() == appended(old(self).our_bids(), utf8(bid.auction_id()), id@),
            final(self).bids() == appended(old(self).bids(), utf8(bid.auction_id()), id@),
            final(self).auctions() == old(self).auctions(),
            final(self).our_auctions() == old(self).our_auctions(),
            final(self).payment_state() == old(self).payment_state(),
            final(self).payments() == old(self).payments(),
    {
        self.append_our_bid(bid);
        self.append_global_bid(bid);
        bid.get_bid_id().as_str().as_bytes_vec()
    }

    /// Ends an auction: its first entry leaves the active auctions, the bids
    /// on it are forgotten, and the identifiers of this node's bids on it are
    /// returned, for their stored values to be deleted.
    pub fn auction_ended(&mut self, auction_id: &Vec<u8>) -> (deleted: Vec<Vec<u8>>)
        requires
            old(self).wf(),
        ensures
            final(self).wf(),
            final(self).auctions() == without_first_id(old(self).auctions(), auction_id@),
            final(self).bids() == old(self).bids().remove(auction_id@),
            final(self).our_bids() == old(self).our_bids().remove(auction_id@),
            ids_of(deleted@) == list_at(old(self).our_bids(), auction_id@),
            final(self).our_auctions() == old(self).our_auctions(),
            final(self).payment_state() == old(self).payment_state(),
            final(self).payments() == old(self).payments(),
            final(self).book() == end_auction(old(self).book(), auction_id@),
    {
        let ghost old_auctions = self.auctions();
        match position_of(&self.active_auctions, auction_id) {
            Some(index) => {
                self.active_auctions.remove(index);
                proof {
                    lemma_first_at_unique(old_auctions, auction_id@, index as int);
                    assert(self.auctions() =~= old_auctions.remove(index as int));
                }
            },
            None => {},
        }
        self.active_bids.remove(auction_id);
        let deleted = match self.our_active_bids.remove(auction_id) {
            Some(bid_ids) => bid_ids,
            None => {
                let empty: Vec<Vec<u8>> = Vec::new();
                assert(ids_of(empty@) =~= Seq::<Seq<u8>>::empty());
                empty
            },
        };
        deleted
    }

    /// Ends each active auction that has finished: no bid on it is known and
    /// this node has no bid on it left. The auctions are taken in order, as
    /// they stand when this is called, each judged on the book as the earlier
    /// ones left it.
    pub fn handle_finished_auctions(&mut self)
        requires
            old(self).wf(),
        ensures
            final(self).wf(),
            final(self).book() == finish_all(old(self).book(), old(self).auctions()),
            final(self).our_auctions() == old(self).our_auctions(),
            final(self).payment_state() == old(self).payment_state(),
            final(self).payments() == old(self).payments(),
            forall|id: Seq<u8>|
                (old(self).bids().contains_key(id) || list_at(old(self).our_bids(), id).len() > 0)
                    ==> #[trigger] final(self).auctions().to_multiset().count(id)
                    == old(self).auctions().to_multiset().count(id),
            forall|id: Seq<u8>|
                (old(self).bids().contains_key(id) || list_at(old(self).our_bids(), id).len() > 0)
                    ==> #[trigger] final(self).bids().contains_key(id) == old(self).bids().contains_key(id),
            forall|id: Seq<u8>|
                #[trigger] old(self).bids().contains_key(id) ==> final(self).bids().contains_key(id)
                    && final(self).bids()[id] == old(self).bids()[id],
            forall|id: Seq<u8>|
                (old(self).bids().contains_key(id) || list_at(old(self).our_bids(), id).len() > 0)
                    ==> #[trigger] list_at(final(self).our_bids(), id) == list_at(old(self).our_bids(), id),
            forall|id: Seq<u8>|
                (!old(self).bids().contains_key(id) && list_at(old(self).our_bids(), id).len() == 0)
                    ==> !(#[trigger] final(self).auctions().contains(id)),
    {
        let snapshot = copy_ids(&self.active_auctions);
        let ghost start = self.book();
        let mut i: usize = 0;
        while i < snapshot.len()
            invariant
                i <= snapshot@.len(),
                self.wf(),
                ids_of(snapshot@) == start.auctions,
                self.book() == finish_all(start, ids_of(snapshot@).take(i as int)),
                self.our_auctions() == old(self).our_auctions(),
                self.payments() == old(self).payments(),
                self.payment_state() == old(self).payment_state(),
            decreases snapshot@.len() - i,
        {
            let id = &snapshot[i];
            let ghost p = self.book();
            proof {
                let t = ids_of(snapshot@).take(i + 1);
                assert(t.drop_last() =~= ids_of(snapshot@).take(i as int));
                assert(t.last() == id@);
            }
            let known = self.active_bids.contains_key(id);
            let ours_left = match self.our_active_bids.get(id) {
                Some(l) => l.len() > 0,
                None => false,
            };
            if !known && !ours_left {
                self.auction_ended(id);
            }
            proof {
                assert(is_finished(p, id@) == (!known && !ours_left));
            }
            i = i + 1;
        }
        assert(ids_of(snapshot@).take(snapshot@.len() as int) =~= ids_of(snapshot@));
        proof {
            broadcast use vstd::seq_lib::group_to_multiset_ensures;

            assert forall|id: Seq<u8>|
                start.bids.contains_key(id) || list_at(start.our_bids, id).len() > 0 implies #[trigger] self.auctions().to_multiset().count(id)
                == start.auctions.to_multiset().count(id) by {
                lemma_finishing_keeps_auctions_with_bids(start, start.auctions, id);
            }
            assert forall|id: Seq<u8>|
                start.bids.contains_key(id) || list_at(start.our_bids, id).len() > 0 implies #[trigger] self.bids().contains_key(id)
                == start.bids.contains_key(id) by {
                lemma_finishing_keeps_auctions_with_bids(start, start.auctions, id);
            }
            assert forall|id: Seq<u8>| #[trigger] start.bids.contains_key(id) implies self.bids().contains_key(id)
                && self.bids()[id] == start.bids[id] by {
                lemma_finishing_keeps_auctions_with_bids(start, start.auctions, id);
            }
            assert forall|id: Seq<u8>|
                start.bids.contains_key(id) || list_at(start.our_bids, id).len() > 0 implies #[trigger] list_at(self.our_bids(), id)
                == list_at(start.our_bids, id) by {
                lemma_finishing_keeps_auctions_with_bids(start, start.auctions, id);
            }
            assert forall|id: Seq<u8>|
                !start.bids.contains_key(id) && list_at(start.our_bids, id).len() == 0 implies !(#[trigger] self.auctions().contains(id)) by {
                lemma_finishing_ends_auctions_without_bids(start, start.auctions, id);
            }
        }
    }

    /// Records a payment requested at the block numbered `block_number`, to be
    /// confirmed later.
    pub fn add_pending_payment(&mut self, tx_id: Vec<u8>, block_number: u64, auction_id: Vec<u8>)
        ensures
            final(self).payments() == old(self).payments().push((tx_id@, block_number, auction_id@)),
            final(self).wf() == old(self).wf(),
            final(self).book() == old(self).book(),
            final(self).our_auctions() == old(self).our_auctions(),
            final(self).payment_state() == old(self).payment_state(),
    {
        let ghost v = (tx_id@, block_number, auction_id@);
        self.pending_payments.push(PendingPayment { tx_id, block_number, auction_id });
        assert(self.payments() =~= old(self).payments().push(v));
    }

    /// Takes away the payments that the latest block, numbered `latest`,
    /// confirms (`confirmations` blocks after the one each was requested at)
    /// and returns them in order, for their transaction and auction to be
    /// deleted from the network; the others stay, in order.
    pub fn handle_pending_payments(&mut self, latest: u64, confirmations: u64) -> (done: Vec<
        PendingPayment,
    >)
        ensures
            payments_of(done@) == confirmed_of(old(self).payments(), latest, confirmations),
            final(self).payments() == unconfirmed_of(old(self).payments(), latest, confirmations),
            final(self).wf() == old(self).wf(),
            final(self).book() == old(self).book(),
            final(self).our_auctions() == old(self).our_auctions(),
            final(self).payment_state() == old(self).payment_state(),
    {
        let ghost all = self.payments();
        let mut done: Vec<PendingPayment> = Vec::new();
        let mut kept: Vec<PendingPayment> = Vec::new();
        let mut i: usize = 0;
        while i < self.pending_payments.len()
            invariant
                i <= self.pending_payments@.len(),
                all == payments_of(self.pending_payments@),
                payments_of(done@) == confirmed_of(all.take(i as int), latest, confirmations),
                payments_of(kept@) == unconfirmed_of(all.take(i as int), latest, confirmations),
            decreases self.pending_payments@.len() - i,
        {
            let p = copy_payment(&self.pending_payments[i]);
            let ghost pv = payment_view(p);
            proof {
                assert(all.take(i + 1) =~= all.take(i as int).push(pv));
                all.take(i as int).lemma_filter_push(
                    pv,
                    |q: (Seq<u8>, u64, Seq<u8>)| confirmed(q, latest, confirmations),
                );
                all.take(i as int).lemma_filter_push(
                    pv,
                    |q: (Seq<u8>, u64, Seq<u8>)| !confirmed(q, latest, confirmations),
                );
            }
            let is_confirmed = confirmations <= latest && p.block_number <= latest - confirmations;
            let ghost bd = done@;
            let ghost bk = kept@;
            if is_confirmed {
                done.push(p);
                assert(payments_of(done@) =~= payments_of(bd).push(pv));
            } else {
                kept.push(p);
                assert(payments_of(kept@) =~= payments_of(bk).push(pv));
            }
            i = i + 1;
        }
        assert(all.take(i as int) =~= all);
        self.pending_payments = kept;
        done
    }
    /// `self` is `old` after the payment `payment_id` was settled, confirmed
    /// or failed: its waiting bids are taken away, its bid index advances past
    /// them, and each of them leaves the bids on its auction, this node's and
    /// all. Nothing changes where no bid waits for it.
    pub open spec fn settled_from(&self, old: &AuctionHandler, payment_id: Seq<u8>) -> bool {
        &&& self.payment_ids() == old.payment_ids()
        &&& self.our_auctions() == old.our_auctions()
        &&& self.auctions() == old.auctions()
        &&& self.payments() == old.payments()
        &&& if old.waiting().contains_key(payment_id) {
            let w = old.waiting()[payment_id];
            &&& self.waiting() == old.waiting().remove(payment_id)
            &&& self.bid_index() == old.bid_index().insert(
                payment_id,
                (old.bid_index()[payment_id] + w.len()) as usize,
            )
            &&& self.bids() == without_bids(old.bids(), w)
            &&& self.our_bids() == without_bids(old.our_bids(), w)
        } else {
            &&& self.waiting() == old.waiting()
            &&& self.bid_index() == old.bid_index()
            &&& self.bids() == old.bids()
            &&& self.our_bids() == old.our_bids()
        }
    }

    /// Records that the bids `waiting` wait for the payment `payment_id`: the
    /// auction owner's key for it is recorded, and its bid index starts at 0.
    pub fn wait_for_payment(&mut self, payment_id: Vec<u8>, waiting: Vec<WaitingBid>)
        requires
            old(self).wf(),
        ensures
            final(self).wf(),
            final(self).payment_ids() == old(self).payment_ids().push(payment_id@),
            final(self).waiting() == old(self).waiting().insert(payment_id@, waiting_of(waiting@)),
            final(self).bid_index() == old(self).bid_index().insert(payment_id@, 0),
            final(self).book() == old(self).book(),
            final(self).our_auctions() == old(self).our_auctions(),
            final(self).payments() == old(self).payments(),
    {
        let ghost old_self = *self;
        let ghost pid = payment_id@;
        let ghost wl = waiting;
        let n = waiting.len();
        self.payment_keys.push(copy_bytes(&payment_id));
        self.current_bid_index_for_auc.insert(copy_bytes(&payment_id), 0);
        self.auction_waiting_for_payment.insert(payment_id, waiting);
        proof {
            assert(self.payment_ids() =~= old_self.payment_ids().push(pid));
            assert(self.waiting() =~= old_self.waiting().insert(pid, waiting_of(wl@)));
            assert forall|k: Seq<u8>|
                #[trigger] self.auction_waiting_for_payment@.contains_key(k)
                    implies self.current_bid_index_for_auc@.contains_key(k)
                    && self.current_bid_index_for_auc@[k] + self.auction_waiting_for_payment@[k]@.len()
                    <= usize::MAX by {
                if k != pid {
                    assert(old_self.auction_waiting_for_payment@.contains_key(k));
                }
            }
        }
    }

    /// Whether the auction owner's key for the payment `payment_id` is recorded.
    pub fn has_payment_key(&self, payment_id: &Vec<u8>) -> (res: bool)
        ensures
            res == self.payment_ids().contains(payment_id@),
    {
        match position_of(&self.payment_keys, payment_id) {
            Some(i) => {
                assert(self.payment_ids()[i as int] == payment_id@);
                true
            },
            None => false,
        }
    }

    fn settle_payment(&mut self, payment_id: &Vec<u8>)
        requires
            old(self).wf(),
        ensures
            final(self).wf(),
            final(self).settled_from(old(self), payment_id@),
            final(self).pending_payments@ == old(self).pending_payments@,
    {
        let ghost old_self = *self;
        let ghost pid = payment_id@;
        match self.auction_waiting_for_payment.remove(payment_id) {
            None => {
                assert(self.waiting() =~= old_self.waiting());
            },
            Some(bids) => {
                let ghost w = waiting_of(bids@);
                let start = match self.current_bid_index_for_auc.get(payment_id) {
                    Some(i) => *i,
                    None => 0,
                };
                let mut index: usize = start;
                let mut i: usize = 0;
                assert(waiting_of(bids@).take(0) =~= Seq::<(Seq<u8>, Seq<u8>)>::empty());
                while i < bids.len()
                    invariant
                        i <= bids@.len(),
                        w == waiting_of(bids@),
                        start + bids@.len() <= usize::MAX,
                        index == start + i,
                        self.active_bids.wf(),
                        self.our_active_bids.wf(),
                        self.bids() == without_bids(old_self.bids(), w.take(i as int)),
                        self.our_bids() == without_bids(old_self.our_bids(), w.take(i as int)),
                        self.auction_waiting_for_payment.wf(),
                        self.auction_waiting_for_payment@ == old_self.auction_waiting_for_payment@.remove(pid),
                        self.current_bid_index_for_auc == old_self.current_bid_index_for_auc,
                        self.payment_keys == old_self.payment_keys,
                        self.our_active_auctions == old_self.our_active_auctions,
                        self.active_auctions == old_self.active_auctions,
                        self.pending_payments == old_self.pending_payments,
                    decreases bids@.len() - i,
                {
                    index = index + 1;
                    let ghost before_bids = self.bids();
                    let ghost before_ours = self.our_bids();
                    self.active_bids.remove_id(&bids[i].auction_id, &bids[i].bid_id);
                    self.our_active_bids.remove_id(&bids[i].auction_id, &bids[i].bid_id);
                    proof {
                        assert(w.take(i + 1).drop_last() =~= w.take(i as int));
                        assert(w.take(i + 1).last() == waiting_view(bids@[i as int]));
                    }
                    i = i + 1;
                }
                assert(w.take(bids@.len() as int) =~= w);
                self.current_bid_index_for_auc.insert(copy_bytes(payment_id), index);
                proof {
                    assert(self.waiting() =~= old_self.waiting().remove(pid));
                    assert forall|k: Seq<u8>|
                        #[trigger] self.auction_waiting_for_payment@.contains_key(k)
                            implies self.current_bid_index_for_auc@.contains_key(k)
                            && self.current_bid_index_for_auc@[k] + self.auction_waiting_for_payment@[k]@.len()
                            <= usize::MAX by {
                        assert(k != pid);
                        assert(old_self.auction_waiting_for_payment@.contains_key(k));
                    }
                }
            },
        }
    }

    /// Every payment with waiting bids has a bid index that advances past
    /// all of them without leaving `usize`, so `settled_from` never cuts it.
    pub proof fn lemma_bid_index_room(&self)
        requires
            self.wf(),
        ensures
            forall|k: Seq<u8>|
                #[trigger] self.waiting().contains_key(k) ==> self.bid_index().contains_key(k)
                    && self.bid_index()[k] + self.waiting()[k].len() <= usize::MAX,
    {
        assert forall|k: Seq<u8>| #[trigger] self.waiting().contains_key(k) implies self.bid_index().contains_key(k)
            && self.bid_index()[k] + self.waiting()[k].len() <= usize::MAX by {
            assert(self.auction_waiting_for_payment@.contains_key(k));
            assert(self.waiting()[k] == waiting_of(self.auction_waiting_for_payment@[k]@));
        }
    }

    /// Settles the payment `payment_id` as confirmed (see `settled_from`).
    pub fn handle_payment_confirmation(&mut self, payment_id: &Vec<u8>)
        requires
            old(self).wf(),
            old(self).payment_ids().contains(payment_id@),
        ensures
            final(self).wf(),
            final(self).settled_from(old(self), payment_id@),
    {
        self.settle_payment(payment_id);
    }

    /// Settles the payment `payment_id` as failed, as a confirmation does
    /// (see `settled_from`).
    pub fn handle_payment_failure(&mut self, payment_id: &Vec<u8>)
        requires
            old(self).wf(),
            old(self).payment_ids().contains(payment_id@),
        ensures
            final(self).wf(),
            final(self).settled_from(old(self), payment_id@),
    {
        self.settle_payment(payment_id);
    }
}

/// Handling finished auctions never ends an auction that still has a bid
/// list among all bids or on which this node still has bids: such an
/// auction stays active as many times as it was, and its bid lists stay as
/// they were.
pub proof fn lemma_finishing_keeps_auctions_with_bids(b: BookView, ids: Seq<Seq<u8>>, id: Seq<u8>)
    requires
        b.bids.contains_key(id) || list_at(b.our_bids, id).len() > 0,
    ensures
        finish_all(b, ids).auctions.to_multiset().count(id) == b.auctions.to_multiset().count(id),
        finish_all(b, ids).bids.contains_key(id) == b.bids.contains_key(id),
        b.bids.contains_key(id) ==> finish_all(b, ids).bids[id] == b.bids[id],
        list_at(finish_all(b, ids).our_bids, id) == list_at(b.our_bids, id),
    decreases ids.len(),
{
    if ids.len() > 0 {
        let r = ids.drop_last();
        let x = ids.last();
        lemma_finishing_keeps_auctions_with_bids(b, r, id);
        let p = finish_all(b, r);
        if is_finished(p, x) {
            assert(x != id);
            lemma_without_first_counts(p.auctions, x, id);
            assert(list_at(p.our_bids.remove(x), id) == list_at(p.our_bids, id));
        }
    }
}

/// Handling finished auctions ends every active auction with no bid list
/// among all bids and no bid of this node left: taking its occurrences in
/// turn, each one leaves the active auctions, and it stays without bids.
pub proof fn lemma_finishing_ends_auctions_without_bids(b: BookView, ids: Seq<Seq<u8>>, id: Seq<u8>)
    requires
        !b.bids.contains_key(id),
        list_at(b.our_bids, id).len() == 0,
        ids.to_multiset().count(id) <= b.auctions.to_multiset().count(id),
    ensures
        finish_all(b, ids).auctions.to_multiset().count(id) == b.auctions.to_multiset().count(id)
            - ids.to_multiset().count(id),
        !finish_all(b, ids).bids.contains_key(id),
        list_at(finish_all(b, ids).our_bids, id).len() == 0,
    decreases ids.len(),
{
    broadcast use vstd::seq_lib::group_to_multiset_ensures;
    broadcast use vstd::multiset::group_multiset_axioms;

    if ids.len() > 0 {
        let r = ids.drop_last();
        let x = ids.last();
        assert(r.push(x) =~= ids);
        assert(ids.to_multiset() == r.to_multiset().insert(x));
        lemma_finishing_ends_auctions_without_bids(b, r, id);
        let p = finish_all(b, r);
        if x == id {
            assert(p.auctions.to_multiset().count(id) >= 1);
            assert(p.auctions.contains(id));
            assert(is_finished(p, x));
            lemma_without_first_counts(p.auctions, x, id);
        } else if is_finished(p, x) {
            lemma_without_first_counts(p.auctions, x, id);
            assert(list_at(p.our_bids.remove(x), id) == list_at(p.our_bids, id));
        }
    }
}

/// A bid that `publish_bid` records is listed, after the bids recorded
/// before it, among the identifiers that `auction_ended` of its auction
/// returns for deletion.
pub proof fn lemma_published_bid_deleted_at_end(
    our_bids: Map<Seq<u8>, Seq<Seq<u8>>>,
    auction: Seq<u8>,
    bid: Seq<u8>,
)
    ensures
        list_at(appended(our_bids, auction, bid), auction) == list_at(our_bids, auction).push(bid),
        list_at(appended(our_bids, auction, bid), auction).contains(bid),
{
    let l = list_at(appended(our_bids, auction, bid), auction);
    assert(l[l.len() - 1] == bid);
}

/// Handling pending payments loses none and adds none: those it hands back
/// and those it keeps are, together, the payments that were pending.
pub proof fn lemma_pending_payments_partitioned(
    payments: Seq<(Seq<u8>, u64, Seq<u8>)>,
    latest: u64,
    confirmations: u64,
)
    ensures
        confirmed_of(payments, latest, confirmations).to_multiset().add(
            unconfirmed_of(payments, latest, confirmations).to_multiset(),
        ) == payments.to_multiset(),
    decreases payments.len(),
{
    broadcast use vstd::seq_lib::group_to_multiset_ensures;

    if payments.len() == 0 {
        reveal(Seq::filter);
        assert(confirmed_of(payments, latest, confirmations) =~= Seq::empty());
        assert(unconfirmed_of(payments, latest, confirmations) =~= Seq::empty());
        assert(confirmed_of(payments, latest, confirmations).to_multiset().add(
            unconfirmed_of(payments, latest, confirmations).to_multiset(),
        ) =~= payments.to_multiset());
    } else {
        let rest = payments.drop_last();
        let x = payments.last();
        lemma_pending_payments_partitioned(rest, latest, confirmations);
        assert(rest.push(x) =~= payments);
        rest.lemma_filter_push(x, |q: (Seq<u8>, u64, Seq<u8>)| confirmed(q, latest, confirmations));
        rest.lemma_filter_push(x, |q: (Seq<u8>, u64, Seq<u8>)| !confirmed(q, latest, confirmations));
        assert(confirmed_of(payments, latest, confirmations).to_multiset().add(
            unconfirmed_of(payments, latest, confirmations).to_multiset(),
        ) =~= payments.to_multiset());
    }
}

} // verus!
