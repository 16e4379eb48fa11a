use vstd::prelude::*;

use std::sync::Arc;

use crate::collection::Collection;
use crate::geometry::{Figure, Geometry, document_view};
use crate::index::same_text;
use crate::shared::{SharedCollection, share};
use crate::snapshot::{SavedView, pair_view, saved_view, serialize_saved, snapshot_bytes};

verus! {

/// The map that a sequence of (key, value) pairs describes; a later pair
/// wins over an earlier one with the same key.
pub open spec fn pairs_map<V>(s: Seq<(Seq<char>, V)>) -> Map<Seq<char>, V>
    decreases s.len(),
{
    if s.len() == 0 {
        Map::empty()
    } else {
        pairs_map(s.drop_last()).insert(s.last().0, s.last().1)
    }
}

pub open spec fn unique_keys<V>(s: Seq<(Seq<char>, V)>) -> bool {
    forall|i: int, j: int| 0 <= i < j < s.len() ==> (#[trigger] s[i]).0 != (#[trigger] s[j]).0
}

/// With unique keys, each pair is in the map and the map holds nothing else.
pub proof fn lemma_pairs_map<V>(s: Seq<(Seq<char>, V)>)
    requires
        unique_keys(s),
    ensures
        forall|i: int|
            0 <= i < s.len() ==> pairs_map(s).contains_key((#[trigger] s[i]).0) && pairs_map(s)[s[i].0]
                == s[i].1,
        forall|k: Seq<char>|
            #[trigger] pairs_map(s).contains_key(k) ==> exists|i: int| 0 <= i < s.len() && (#[trigger] s[i]).0 == k,
    decreases s.len(),
{
    if s.len() > 0 {
        let t = s.drop_last();
        assert(unique_keys(t)) by {
            assert forall|i: int, j: int| 0 <= i < j < t.len() implies (#[trigger] t[i]).0 != (
            #[trigger] t[j]).0 by {
                assert(t[i] == s[i] && t[j] == s[j]);
            }
        }
        lemma_pairs_map(t);
        assert forall|i: int| 0 <= i < s.len() implies pairs_map(s).contains_key(
            (#[trigger] s[i]).0,
        ) && pairs_map(s)[s[i].0] == s[i].1 by {
            if i < s.len() - 1 {
                assert(t[i] == s[i]);
                assert(s[i].0 != s[s.len() - 1].0);
            }
        }
        assert forall|k: Seq<char>| #[trigger] pairs_map(s).contains_key(k) implies exists|i: int|
            0 <= i < s.len() && (#[trigger] s[i]).0 == k by {
            if k != s.last().0 {
                assert(pairs_map(t).contains_key(k));
                let i = choose|i: int| 0 <= i < t.len() && (#[trigger] t[i]).0 == k;
                assert(s[i] == t[i]);
            } else {
                assert(s[s.len() - 1].0 == k);
            }
        }
    }
}

/// A map that agrees with every pair of `s` and holds no other key is the
/// map that `s` describes.
pub proof fn lemma_pairs_map_equal<V>(s: Seq<(Seq<char>, V)>, m: Map<Seq<char>, V>)
    requires
        unique_keys(s),
        forall|i: int| 0 <= i < s.len() ==> m.contains_key((#[trigger] s[i]).0) && m[s[i].0] == s[i].1,
        forall|k: Seq<char>| #[trigger] m.contains_key(k) ==> exists|i: int| 0 <= i < s.len() && (#[trigger] s[i]).0 == k,
    ensures
        pairs_map(s) == m,
{
    lemma_pairs_map(s);
    assert forall|k: Seq<char>| #[trigger] m.contains_key(k) implies pairs_map(s).contains_key(k)
        && pairs_map(s)[k] == m[k] by {
        let i = choose|i: int| 0 <= i < s.len() && (#[trigger] s[i]).0 == k;
    }
    assert forall|k: Seq<char>| #[trigger] pairs_map(s).contains_key(k) implies m.contains_key(k) by {
        let i = choose|i: int| 0 <= i < s.len() && (#[trigger] s[i]).0 == k;
    }
    assert(pairs_map(s) =~= m);
}

/// `p` is the stored pairs of some well-formed collection.
pub open spec fn held_pairs(p: Seq<(Seq<char>, Seq<char>)>) -> bool {
    exists|c: Collection| c.wf() && p == #[trigger] c.pairs()
}

/// The (identifier, text) content of snapshot entries given with their
/// parsed documents.
pub open spec fn entries_texts(v: Seq<(String, String, Vec<Geometry>)>) -> Seq<(Seq<char>, Seq<char>)> {
    v.map_values(|t: (String, String, Vec<Geometry>)| (t.0@, t.1@))
}

/// The (identifier, document) content of snapshot entries.
pub open spec fn entries_documents(v: Seq<(String, String, Vec<Geometry>)>) -> Seq<(Seq<char>, Seq<Figure>)> {
    v.map_values(|t: (String, String, Vec<Geometry>)| (t.0@, document_view(t.2@)))
}

pub open spec fn named_view(s: Seq<(String, Arc<SharedCollection>)>) -> Seq<(Seq<char>, Arc<SharedCollection>)> {
    s.map_values(|p: (String, Arc<SharedCollection>)| (p.0@, p.1))
}

/// The registry: named collections, each behind its own lock and
/// independent of the others. The registry itself is guarded by the caller
/// (one reader-writer lock); a handle taken out of it stays usable after
/// the registry changes.
pub struct Storage {
    collections: Vec<(String, Arc<SharedCollection>)>,
}

impl Storage {
    /// Collection name to the handle of that collection.
    pub closed spec fn view(&self) -> Map<Seq<char>, Arc<SharedCollection>> {
        pairs_map(named_view(self.collections@))
    }

    pub closed spec fn wf(&self) -> bool {
        unique_keys(named_view(self.collections@))
    }

    pub fn new() -> (r: Self)
        ensures
            r.wf(),
            r@ == Map::<Seq<char>, Arc<SharedCollection>>::empty(),
    {
        Storage { collections: Vec::new() }
    }

    /// Position of the collection named `key`.
    fn find(&self, key: &str) -> (r: Option<usize>)
        requires
            self.wf(),
        ensures
            r is None <==> !self@.contains_key(key@),
            r matches Some(i) ==> i < self.collections@.len() && self.collections@[i as int].0@ == key@
                && self.collections@[i as int].1 == self@[key@],
    {
        let mut i: usize = 0;
        while i < self.collections.len()
            invariant
                self.wf(),
                i <= self.collections@.len(),
                forall|j: int| 0 <= j < i ==> (#[trigger] self.collections@[j]).0@ != key@,
            decreases self.collections.len() - i,
        {
            if same_text(self.collections[i].0.as_str(), key) {
                proof {
                    lemma_pairs_map(named_view(self.collections@));
                    assert(named_view(self.collections@)[i as int].0 == key@);
                }
                return Some(i);
            }
            i += 1;
        }
        proof {
            lemma_pairs_map(named_view(self.collections@));
            if self@.contains_key(key@) {
                let j = choose|j: int|
                    0 <= j < self.collections@.len() && (#[trigger] named_view(self.collections@)[j]).0
                        == key@;
                assert(self.collections@[j].0@ == key@);
            }
        }
        None
    }

    /// A handle to the collection named `key`, if there is one.
    pub fn get(&self, key: &str) -> (r: Option<Arc<SharedCollection>>)
        requires
            self.wf(),
        ensures
            r is None <==> !self@.contains_key(key@),
            r is Some ==> r.unwrap() == self@[key@],
    {
        match self.find(key) {
            Some(i) => Some(share(&self.collections[i].1)),
            None => None,
        }
    }

    /// Puts `h` under `key` in place of what was there.
    fn put(&mut self, key: String, h: Arc<SharedCollection>)
        requires
            old(self).wf(),
        ensures
            final(self).wf(),
            final(self)@ == old(self)@.insert(key@, h),
    {
        let ghost k = key@;
        let ghost t = h;
        let ghost mut pos: int = 0;
        match self.find(key.as_str()) {
            Some(i) => {
                self.collections.remove(i);
                self.collections.insert(i, (key, h));
                proof {
                    pos = i as int;
                }
            },
            None => {
                self.collections.push((key, h));
                proof {
                    pos = old(self).collections@.len() as int;
                }
            },
        }
        proof {
            let s = named_view(self.collections@);
            let o = named_view(old(self).collections@);
            lemma_pairs_map(o);
            assert(0 <= pos < s.len());
            assert(s[pos] == (k, t));
            assert(forall|j: int| 0 <= j < s.len() && j != pos ==> s[j] == o[j]);
            assert(s.len() == o.len() || (s.len() == o.len() + 1 && !old(self)@.contains_key(k)));
            assert forall|i: int, j: int| 0 <= i < j < s.len() implies (#[trigger] s[i]).0 != (
            #[trigger] s[j]).0 by {
                if i != pos && j != pos {
                    assert(s[i] == o[i] && s[j] == o[j]);
                } else if i == pos {
                    assert(s[j] == o[j]);
                    if s.len() == o.len() {
                        assert(o[pos].0 == k);
                    }
                } else {
                    assert(s[i] == o[i]);
                    if s.len() == o.len() {
                        assert(o[pos].0 == k);
                    }
                }
            }
            lemma_pairs_map(s);
            assert forall|i: int| 0 <= i < s.len() implies old(self)@.insert(k, t).contains_key(
                (#[trigger] s[i]).0,
            ) && old(self)@.insert(k, t)[s[i].0] == s[i].1 by {
                if i != pos {
                    assert(s[i] == o[i]);
                    if s.len() == o.len() {
                        assert(o[pos].0 == k);
                    }
                }
            }
            assert forall|q: Seq<char>| #[trigger] old(self)@.insert(k, t).contains_key(q) implies exists|
                i: int,
            | 0 <= i < s.len() && (#[trigger] s[i]).0 == q by {
                if q != k {
                    let a = choose|a: int| 0 <= a < o.len() && (#[trigger] o[a]).0 == q;
                    if s.len() == o.len() {
                        assert(o[pos].0 == k);
                    }
                    assert(a != pos);
                    assert(s[a] == o[a]);
                } else {
                    assert(s[pos].0 == q);
                }
            }
            lemma_pairs_map_equal(s, old(self)@.insert(k, t));
        }
    }

    /// Makes a fresh, empty collection under `key`, replacing any collection
    /// of that name, and returns a handle to it.
    pub fn create(&mut self, key: String) -> (r: Arc<SharedCollection>)
        requires
            old(self).wf(),
        ensures
            final(self).wf(),
            final(self)@ == old(self)@.insert(key@, r),
    {
        let h = SharedCollection::new(Collection::new());
        let r = share(&h);
        self.put(key, h);
        r
    }

    /// A handle to the collection named `key`, made fresh and empty first
    /// when there is none.
    pub fn get_or_create(&mut self, key: String) -> (r: Arc<SharedCollection>)
        requires
            old(self).wf(),
        ensures
            final(self).wf(),
            old(self)@.contains_key(key@) ==> final(self)@ == old(self)@ && r == old(self)@[key@],
            !old(self)@.contains_key(key@) ==> final(self)@ == old(self)@.insert(key@, r),
    {
        match self.find(key.as_str()) {
            Some(i) => share(&self.collections[i].1),
            None => self.create(key),
        }
    }

    /// Discards the collection named `key` from the registry.
    pub fn remove(&mut self, key: String)
        requires
            old(self).wf(),
        ensures
            final(self).wf(),
            final(self)@ == old(self)@.remove(key@),
    {
        let ghost k = key@;
        match self.find(key.as_str()) {
            Some(i) => {
                self.collections.remove(i);
                proof {
                    let s = named_view(self.collections@);
                    let o = named_view(old(self).collections@);
                    lemma_pairs_map(o);
                    assert forall|j: int| 0 <= j < s.len() implies s[j] == o[if j < i { j } else { j + 1 }] by {}
                    assert forall|a: int, b: int| 0 <= a < b < s.len() implies (#[trigger] s[a]).0 != (
                    #[trigger] s[b]).0 by {
                        assert(s[a] == o[if a < i { a } else { a + 1 }]);
                        assert(s[b] == o[if b < i { b } else { b + 1 }]);
                    }
                    assert forall|j: int| 0 <= j < s.len() implies old(self)@.remove(k).contains_key(
                        (#[trigger] s[j]).0,
                    ) && old(self)@.remove(k)[s[j].0] == s[j].1 by {
                        let oj = if j < i { j } else { j + 1 };
                        assert(s[j] == o[oj]);
                        assert(o[oj].0 != o[i as int].0);
                    }
                    assert forall|q: Seq<char>| #[trigger] old(self)@.remove(k).contains_key(q) implies exists|
                        j: int,
                    | 0 <= j < s.len() && (#[trigger] s[j]).0 == q by {
                        let a = choose|a: int| 0 <= a < o.len() && (#[trigger] o[a]).0 == q;
                        assert(a != i);
                        let j = if a < i { a } else { a - 1 };
                        assert(s[j] == o[a]);
                    }
                    lemma_pairs_map_equal(s, old(self)@.remove(k));
                }
            },
            None => {
                assert(self@ =~= old(self)@.remove(k));
            },
        }
    }

    /// Names of all collections, each once.
    pub fn list(&self) -> (r: Vec<String>)
        requires
            self.wf(),
        ensures
            forall|i: int, j: int| 0 <= i < j < r@.len() ==> (#[trigger] r@[i])@ != (#[trigger] r@[j])@,
            forall|i: int| 0 <= i < r@.len() ==> self@.contains_key((#[trigger] r@[i])@),
            forall|k: Seq<char>| #[trigger] self@.contains_key(k) ==> exists|i: int| 0 <= i < r@.len() && (#[trigger] r@[i])@ == k,
    {
        let mut r: Vec<String> = Vec::new();
        let mut i: usize = 0;
        while i < self.collections.len()
            invariant
                self.wf(),
                i <= self.collections@.len(),
                r@.len() == i,
                forall|j: int| 0 <= j < i ==> (#[trigger] r@[j])@ == self.collections@[j].0@,
            decreases self.collections.len() - i,
        {
            r.push(self.collections[i].0.clone());
            i += 1;
        }
        proof {
            let s = named_view(self.collections@);
            lemma_pairs_map(s);
            assert forall|a: int, b: int| 0 <= a < b < r@.len() implies (#[trigger] r@[a])@ != (
            #[trigger] r@[b])@ by {
                assert(s[a].0 != s[b].0);
            }
            assert forall|a: int| 0 <= a < r@.len() implies self@.contains_key((#[trigger] r@[a])@) by {
                assert(s[a].0 == r@[a]@);
            }
            assert forall|k: Seq<char>| #[trigger] self@.contains_key(k) implies exists|a: int|
                0 <= a < r@.len() && (#[trigger] r@[a])@ == k by {
                let a = choose|a: int| 0 <= a < s.len() && (#[trigger] s[a]).0 == k;
                assert(r@[a]@ == k);
            }
        }
        r
    }

    /// Encodes a snapshot: every collection's name with the (identifier,
    /// text) pairs copied out of it under its read lock, which are the pairs
    /// of the well-formed collection the lock held at that moment.
    pub fn encode(&self) -> (r: Vec<u8>)
        requires
            self.wf(),
        ensures
            exists|s: SavedView|
                {
                    &&& r@ == snapshot_bytes(s)
                    &&& unique_keys(s)
                    &&& forall|i: int| 0 <= i < s.len() ==> unique_keys((#[trigger] s[i]).1)
                    &&& forall|i: int| 0 <= i < s.len() ==> held_pairs((#[trigger] s[i]).1)
                    &&& forall|i: int| 0 <= i < s.len() ==> self@.contains_key((#[trigger] s[i]).0)
                    &&& forall|k: Seq<char>| #[trigger] self@.contains_key(k) ==> exists|i: int|
                        0 <= i < s.len() && (#[trigger] s[i]).0 == k
                },
    {
        let mut items: Vec<(String, Vec<(String, String)>)> = Vec::new();
        let mut i: usize = 0;
        while i < self.collections.len()
            invariant
                self.wf(),
                i <= self.collections@.len(),
                items@.len() == i,
                forall|j: int| 0 <= j < i ==> (#[trigger] saved_view(items@)[j]).0 == self.collections@[j].0@,
                forall|j: int| 0 <= j < i ==> unique_keys((#[trigger] saved_view(items@)[j]).1),
                forall|j: int| 0 <= j < i ==> held_pairs((#[trigger] saved_view(items@)[j]).1),
            decreases self.collections.len() - i,
        {
            let objs = self.collections[i].1.objects();
            let ghost pv = objs@.map_values(|p: (String, String)| pair_view(p));
            assert(unique_keys(pv)) by {
                assert forall|a: int, b: int| 0 <= a < b < pv.len() implies (#[trigger] pv[a]).0 != (
                #[trigger] pv[b]).0 by {
                    assert(objs@[a].0@ != objs@[b].0@);
                }
            }
            let ghost before = items@;
            items.push((self.collections[i].0.clone(), objs));
            i += 1;
            assert forall|j: int| 0 <= j < i implies (#[trigger] saved_view(items@)[j]).0
                == self.collections@[j].0@ && unique_keys(saved_view(items@)[j].1) && held_pairs(
                saved_view(items@)[j].1,
            ) by {
                if j < i - 1 {
                    assert(items@[j] == before[j]);
                    assert(saved_view(before)[j].0 == self.collections@[j].0@);
                    assert(unique_keys(saved_view(before)[j].1));
                    assert(saved_view(items@)[j] == saved_view(before)[j]);
                } else {
                    assert(saved_view(items@)[j].1 == pv);
                }
            }
        }
        let r = match serialize_saved(&items) {
            Some(b) => b,
            None => {
                proof {
                    assert(false);
                }
                Vec::new()
            },
        };
        proof {
            let s = saved_view(items@);
            let n = named_view(self.collections@);
            lemma_pairs_map(n);
            assert forall|a: int| 0 <= a < s.len() implies s[a].0 == n[a].0 by {
                assert(s[a].0 == self.collections@[a].0@);
            }
            assert forall|a: int, b: int| 0 <= a < b < s.len() implies (#[trigger] s[a]).0 != (
            #[trigger] s[b]).0 by {
                assert(n[a].0 != n[b].0);
            }
            assert forall|a: int| 0 <= a < s.len() implies self@.contains_key((#[trigger] s[a]).0) by {
                assert(s[a].0 == n[a].0);
            }
            assert forall|k: Seq<char>| #[trigger] self@.contains_key(k) implies exists|a: int|
                0 <= a < s.len() && (#[trigger] s[a]).0 == k by {
                let a = choose|a: int| 0 <= a < n.len() && (#[trigger] n[a]).0 == k;
                assert(s[a].0 == n[a].0);
            }
            assert(r@ == snapshot_bytes(s));
        }
        r
    }

    /// Rebuilds a registry from snapshot entries, each object given with its
    /// parsed document: every collection is rebuilt by adding its objects in
    /// turn, and a later entry of the same name replaces an earlier one.
    pub fn restore(saved: &Vec<(String, Vec<(String, String, Vec<Geometry>)>)>) -> (r: Self)
        ensures
            r.wf(),
            forall|k: Seq<char>| #[trigger] r@.contains_key(k) <==> exists|i: int|
                0 <= i < saved@.len() && (#[trigger] saved@[i]).0@ == k,
    {
        let mut st = Storage::new();
        let mut i: usize = 0;
        while i < saved.len()
            invariant
                i <= saved@.len(),
                st.wf(),
                forall|k: Seq<char>| #[trigger] st@.contains_key(k) <==> exists|j: int|
                    0 <= j < i && (#[trigger] saved@[j]).0@ == k,
            decreases saved.len() - i,
        {
            let c = Collection::from_objects(&saved[i].1);
            st.put(saved[i].0.clone(), SharedCollection::new(c));
            i += 1;
            assert forall|k: Seq<char>| #[trigger] st@.contains_key(k) <==> exists|j: int|
                0 <= j < i && (#[trigger] saved@[j]).0@ == k by {
                if k == saved@[i - 1].0@ {
                    assert(saved@[i - 1].0@ == k);
                } else if st@.contains_key(k) {
                    let j = choose|j: int| 0 <= j < i - 1 && (#[trigger] saved@[j]).0@ == k;
                }
            }
        }
        st
    }
}

} // verus!
