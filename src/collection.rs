use vstd::prelude::*;

use crate::geometry::{Coord, Figure, Geometry, Shape, polyline_segments, shapes_of, decompose, decomposition, document_view, shapes_view};
use crate::storage::{entries_documents, entries_texts, held_pairs, lemma_pairs_map_equal, pairs_map, unique_keys};
use crate::index::{
    Entry,
    duplicate,
    entries_view,
    lemma_tag_all,
    lemma_tagged_concat,
    lemma_untagged_facts,
    lemma_untagged_twice,
    remove_tagged,
    same_text,
    tag_all,
    tagged,
    untagged,
};

verus! {

/// Distances are handed to the queries as ordering keys: the IEEE-754
/// binary64 bit pattern of a non-negative distance. For non-negative values
/// the integer order of the patterns is the numeric order of the distances.
/// This key is the pattern of 1e-7, the largest distance (exclusive) at which
/// a point counts as intersecting a stored primitive.
pub const INTERSECT_LIMIT: u64 = 0x3E7A_D7F2_9ABC_AF48;

/// `i` is the first position of a smallest key in `d`.
pub open spec fn is_first_min(d: Seq<u64>, i: int) -> bool {
    &&& 0 <= i < d.len()
    &&& forall|j: int| 0 <= j < d.len() ==> d[i] <= #[trigger] d[j]
    &&& forall|j: int| 0 <= j < i ==> d[i] < #[trigger] d[j]
}

/// A spatial index over the primitives of the stored objects, with the map
/// from identifier to the stored document text.
pub struct Collection {
    entries: Vec<Entry>,
    objects: Vec<(String, String)>,
    store: Ghost<Map<Seq<char>, (Seq<char>, Seq<Figure>)>>,
}

impl Collection {
    /// The index: every stored primitive with the identifier it is tagged with.
    pub closed spec fn index(&self) -> Seq<(Seq<char>, Shape)> {
        entries_view(self.entries@)
    }

    /// Identifier to stored document text.
    pub closed spec fn texts(&self) -> Map<Seq<char>, Seq<char>> {
        self.store@.map_values(|v: (Seq<char>, Seq<Figure>)| v.0)
    }

    /// Identifier to the document that was added under it.
    pub closed spec fn documents(&self) -> Map<Seq<char>, Seq<Figure>> {
        self.store@.map_values(|v: (Seq<char>, Seq<Figure>)| v.1)
    }

    /// The stored (identifier, text) pairs, in storage order.
    pub closed spec fn pairs(&self) -> Seq<(Seq<char>, Seq<char>)> {
        self.objects@.map_values(|p: (String, String)| (p.0@, p.1@))
    }

    pub closed spec fn wf(&self) -> bool {
        &&& forall|i: int, j: int|
            0 <= i < j < self.objects@.len() ==> (#[trigger] self.objects@[i]).0@
                != (#[trigger] self.objects@[j]).0@
        &&& forall|i: int|
            0 <= i < self.objects@.len() ==> self.store@.contains_key(
                (#[trigger] self.objects@[i]).0@,
            ) && self.store@[self.objects@[i].0@].0 == self.objects@[i].1@
        &&& forall|k: Seq<char>|
            #[trigger] self.store@.contains_key(k) ==> exists|i: int|
                0 <= i < self.objects@.len() && (#[trigger] self.objects@[i]).0@ == k
        &&& forall|k: Seq<char>|
            #[trigger] self.store@.contains_key(k) ==> tagged(self.index(), k) == decomposition(
                self.store@[k].1,
            )
        &&& forall|i: int|
            0 <= i < self.index().len() ==> self.store@.contains_key(
                (#[trigger] self.index()[i]).0,
            )
    }

    pub fn new() -> (r: Self)
        ensures
            r.wf(),
            r.texts() == Map::<Seq<char>, Seq<char>>::empty(),
            r.documents() == Map::<Seq<char>, Seq<Figure>>::empty(),
            r.index() == Seq::<(Seq<char>, Shape)>::empty(),
    {
        let r = Collection { entries: Vec::new(), objects: Vec::new(), store: Ghost(Map::empty()) };
        assert(r.texts() =~= Map::<Seq<char>, Seq<char>>::empty());
        assert(r.documents() =~= Map::<Seq<char>, Seq<Figure>>::empty());
        assert(r.index() =~= Seq::<(Seq<char>, Shape)>::empty());
        r
    }

    /// The stored pairs, each identifier once, describe the text map.
    pub proof fn lemma_pairs_describe_texts(&self)
        requires
            self.wf(),
        ensures
            unique_keys(self.pairs()),
            pairs_map(self.pairs()) == self.texts(),
    {
        let s = self.pairs();
        assert forall|i: int| 0 <= i < s.len() implies self.texts().contains_key((#[trigger] s[i]).0)
            && self.texts()[s[i].0] == s[i].1 by {
            assert(s[i] == (self.objects@[i].0@, self.objects@[i].1@));
        }
        assert forall|k: Seq<char>| #[trigger] self.texts().contains_key(k) implies exists|i: int|
            0 <= i < s.len() && (#[trigger] s[i]).0 == k by {
            assert(self.store@.contains_key(k));
            let i = choose|i: int| 0 <= i < self.objects@.len() && (#[trigger] self.objects@[i]).0@ == k;
            assert(s[i].0 == k);
        }
        assert forall|i: int, j: int| 0 <= i < j < s.len() implies (#[trigger] s[i]).0 != (
        #[trigger] s[j]).0 by {
            assert(self.objects@[i].0@ != self.objects@[j].0@);
        }
        lemma_pairs_map_equal(s, self.texts());
    }

    /// Position of `key` in the object list.
    fn find(&self, key: &str) -> (r: Option<usize>)
        requires
            self.wf(),
        ensures
            r is None <==> !self.texts().contains_key(key@),
            r matches Some(i) ==> i < self.objects@.len() && self.objects@[i as int].0@ == key@,
    {
        let mut i: usize = 0;
        while i < self.objects.len()
            invariant
                self.wf(),
                i <= self.objects@.len(),
                forall|j: int| 0 <= j < i ==> (#[trigger] self.objects@[j]).0@ != key@,
            decreases self.objects.len() - i,
        {
            if same_text(self.objects[i].0.as_str(), key) {
                return Some(i);
            }
            i += 1;
        }
        proof {
            if self.store@.contains_key(key@) {
                let j = choose|j: int|
                    0 <= j < self.objects@.len() && (#[trigger] self.objects@[j]).0@ == key@;
                assert(false);
            }
        }
        None
    }

    /// The stored document text of `key`, if any.
    pub fn get(&self, key: &str) -> (r: Option<String>)
        requires
            self.wf(),
        ensures
            r is None <==> !self.texts().contains_key(key@),
            r matches Some(t) ==> t@ == self.texts()[key@],
    {
        match self.find(key) {
            Some(i) => Some(self.objects[i].1.clone()),
            None => None,
        }
    }

    /// Number of primitives in the index.
    pub fn len(&self) -> (r: usize)
        ensures
            r == self.index().len(),
    {
        self.entries.len()
    }

    /// Number of primitives in the index tagged `id`.
    pub fn count_tagged(&self, id: &str) -> (r: usize)
        ensures
            r == tagged(self.index(), id@).len(),
    {
        let mut n: usize = 0;
        let mut i: usize = 0;
        while i < self.entries.len()
            invariant
                i <= self.entries@.len(),
                n == tagged(entries_view(self.entries@.subrange(0, i as int)), id@).len(),
                n <= i,
            decreases self.entries.len() - i,
        {
            let ghost pre = entries_view(self.entries@.subrange(0, i as int));
            if same_text(self.entries[i].id.as_str(), id) {
                n += 1;
            }
            i += 1;
            assert(entries_view(self.entries@.subrange(0, i as int)).drop_last() =~= pre);
        }
        assert(self.entries@.subrange(0, i as int) =~= self.entries@);
        n
    }

    /// The index entries, for computing the distance of each to a query point.
    pub fn entries(&self) -> (r: &Vec<Entry>)
        ensures
            entries_view(r@) == self.index(),
    {
        &self.entries
    }

    /// Every stored (identifier, text) pair, each identifier once.
    pub fn objects(&self) -> (r: Vec<(String, String)>)
        requires
            self.wf(),
        ensures
            r@.map_values(|p: (String, String)| (p.0@, p.1@)) == self.pairs(),
            forall|i: int, j: int| 0 <= i < j < r@.len() ==> (#[trigger] r@[i]).0@ != (#[trigger] r@[j]).0@,
            forall|i: int|
                0 <= i < r@.len() ==> self.texts().contains_key((#[trigger] r@[i]).0@)
                    && self.texts()[r@[i].0@] == r@[i].1@,
            forall|k: Seq<char>|
                #[trigger] self.texts().contains_key(k) ==> exists|i: int|
                    0 <= i < r@.len() && (#[trigger] r@[i]).0@ == k,
    {
        let mut r: Vec<(String, String)> = Vec::new();
        let mut i: usize = 0;
        while i < self.objects.len()
            invariant
                self.wf(),
                i <= self.objects@.len(),
                r@.len() == i,
                forall|j: int| 0 <= j < i ==> (#[trigger] r@[j]).0@ == self.objects@[j].0@ && r@[j].1@
                    == self.objects@[j].1@,
            decreases self.objects.len() - i,
        {
            r.push((self.objects[i].0.clone(), self.objects[i].1.clone()));
            i += 1;
        }
        assert forall|k: Seq<char>| #[trigger] self.texts().contains_key(k) implies exists|i: int|
            0 <= i < r@.len() && (#[trigger] r@[i]).0@ == k by {
            assert(self.store@.contains_key(k));
            let j = choose|j: int| 0 <= j < self.objects@.len() && (#[trigger] self.objects@[j]).0@ == k;
            assert(r@[j].0@ == k);
        }
        assert forall|i: int, j: int| 0 <= i < j < r@.len() implies (#[trigger] r@[i]).0@
            != (#[trigger] r@[j]).0@ by {
            assert(self.objects@[i].0@ != self.objects@[j].0@);
        }
        assert(r@.map_values(|p: (String, String)| (p.0@, p.1@)) =~= self.pairs());
        r
    }

    /// Removes `id` and every primitive tagged with it; does nothing when `id`
    /// is not stored.
    pub fn remove(&mut self, id: String)
        requires
            old(self).wf(),
        ensures
            final(self).wf(),
            final(self).texts() == old(self).texts().remove(id@),
            final(self).documents() == old(self).documents().remove(id@),
            final(self).index() == untagged(old(self).index(), id@),
            old(self).texts().contains_key(id@) ==> tagged(old(self).index(), id@) == decomposition(
                old(self).documents()[id@],
            ),
            !old(self).texts().contains_key(id@) ==> final(self).index() == old(self).index(),
    {
        self.discard(id.as_str());
    }

    fn discard(&mut self, id: &str)
        requires
            old(self).wf(),
        ensures
            final(self).wf(),
            final(self).texts() == old(self).texts().remove(id@),
            final(self).documents() == old(self).documents().remove(id@),
            final(self).index() == untagged(old(self).index(), id@),
            old(self).texts().contains_key(id@) ==> tagged(old(self).index(), id@) == decomposition(
                old(self).documents()[id@],
            ),
            !old(self).texts().contains_key(id@) ==> final(self).index() == old(self).index(),
    {
        let ghost old_index = self.index();
        let ghost old_store = self.store@;
        match self.find(id) {
            None => {
                proof {
                    lemma_absent_untagged(old_index, id@, old_store);
                }
                assert(self.texts() =~= old(self).texts().remove(id@));
                assert(self.documents() =~= old(self).documents().remove(id@));
            },
            Some(pos) => {
                remove_tagged(&mut self.entries, id);
                let ghost before = self.objects@;
                self.objects.remove(pos);
                self.store = Ghost(self.store@.remove(id@));
                proof {
                    assert forall|k: Seq<char>| #[trigger] self.store@.contains_key(k) implies tagged(
                        self.index(),
                        k,
                    ) == decomposition(self.store@[k].1) by {
                        lemma_untagged_facts(old_index, id@, k);
                    }
                    lemma_untagged_facts(old_index, id@, id@);
                    assert forall|i: int| 0 <= i < self.index().len() implies self.store@.contains_key(
                        (#[trigger] self.index()[i]).0,
                    ) by {
                        assert(untagged(old_index, id@).contains(self.index()[i]));
                        let j = choose|j: int| 0 <= j < old_index.len() && old_index[j] == self.index()[i];
                        assert(old_store.contains_key(old_index[j].0));
                    }
                    assert forall|i: int| 0 <= i < self.objects@.len() implies self.store@.contains_key(
                        (#[trigger] self.objects@[i]).0@,
                    ) && self.store@[self.objects@[i].0@].0 == self.objects@[i].1@ by {
                        if i < pos {
                            assert(self.objects@[i] == before[i]);
                            assert(before[i].0@ != before[pos as int].0@);
                        } else {
                            assert(self.objects@[i] == before[i + 1]);
                            assert(before[i + 1].0@ != before[pos as int].0@);
                        }
                    }
                    assert forall|k: Seq<char>| #[trigger] self.store@.contains_key(k) implies exists|i: int|
                        0 <= i < self.objects@.len() && (#[trigger] self.objects@[i]).0@ == k by {
                        let j = choose|j: int| 0 <= j < before.len() && (#[trigger] before[j]).0@ == k;
                        if j < pos {
                            assert(self.objects@[j] == before[j]);
                        } else {
                            assert(j != pos);
                            assert(self.objects@[j - 1] == before[j]);
                        }
                    }
                    assert forall|i: int, j: int| 0 <= i < j < self.objects@.len() implies (
                    #[trigger] self.objects@[i]).0@ != (#[trigger] self.objects@[j]).0@ by {
                        let bi = if i < pos { i } else { i + 1 };
                        let bj = if j < pos { j } else { j + 1 };
                        assert(self.objects@[i] == before[bi]);
                        assert(self.objects@[j] == before[bj]);
                        assert(before[bi].0@ != before[bj].0@);
                    }
                }
                assert(self.texts() =~= old(self).texts().remove(id@));
                assert(self.documents() =~= old(self).documents().remove(id@));
            },
        }
    }

    /// Builds a collection by adding each (identifier, text, document) in
    /// turn; a later entry of the same identifier replaces an earlier one.
    pub fn from_objects(objs: &Vec<(String, String, Vec<Geometry>)>) -> (r: Self)
        ensures
            r.wf(),
            r.texts() == pairs_map(entries_texts(objs@)),
            r.documents() == pairs_map(entries_documents(objs@)),
    {
        let ghost v = entries_texts(objs@);
        let ghost d = entries_documents(objs@);
        let mut c = Collection::new();
        let mut j: usize = 0;
        assert(v.subrange(0, 0) =~= Seq::<(Seq<char>, Seq<char>)>::empty());
        assert(d.subrange(0, 0) =~= Seq::<(Seq<char>, Seq<Figure>)>::empty());
        assert(c.documents() =~= pairs_map(d.subrange(0, 0)));
        while j < objs.len()
            invariant
                v == entries_texts(objs@),
                d == entries_documents(objs@),
                c.documents() == pairs_map(d.subrange(0, j as int)),
                j <= objs@.len(),
                c.wf(),
                c.texts() == pairs_map(v.subrange(0, j as int)),
            decreases objs.len() - j,
        {
            let ghost sub = v.subrange(0, j as int);
            let ghost dsub = d.subrange(0, j as int);
            c.add(objs[j].0.clone(), &objs[j].2, objs[j].1.clone());
            j += 1;
            assert(v.subrange(0, j as int).drop_last() =~= sub);
            assert(d.subrange(0, j as int).drop_last() =~= dsub);
            assert(c.texts() =~= pairs_map(v.subrange(0, j as int)));
            assert(c.documents() =~= pairs_map(d.subrange(0, j as int)));
        }
        assert(v.subrange(0, j as int) =~= v);
        assert(d.subrange(0, j as int) =~= d);
        c
    }

    /// The identifier of index entry `i` and the text stored under it.
    fn resolve(&self, i: usize) -> (r: (String, String))
        requires
            self.wf(),
            i < self.index().len(),
        ensures
            r.0@ == self.index()[i as int].0,
            self.texts().contains_key(r.0@),
            r.1@ == self.texts()[r.0@],
    {
        let id = self.entries[i].id.clone();
        assert(self.index()[i as int].0 == id@);
        assert(self.store@.contains_key(id@));
        match self.find(id.as_str()) {
            Some(p) => {
                let text = self.objects[p].1.clone();
                (id, text)
            },
            None => {
                proof {
                    assert(false);
                }
                (id, String::new())
            },
        }
    }

    /// The stored object owning the primitive nearest to the query point,
    /// as (identifier, text). `dist` holds the distance key of each index
    /// entry to the query point, in index order (see `INTERSECT_LIMIT`); on
    /// equal keys the earlier entry wins.
    pub fn nearest(&self, dist: &Vec<u64>) -> (r: Option<(String, String)>)
        requires
            self.wf(),
            dist@.len() == self.index().len(),
        ensures
            r is None <==> self.index().len() == 0,
            r matches Some(p) ==> exists|i: int|
                is_first_min(dist@, i) && p.0@ == self.index()[i].0 && self.texts().contains_key(p.0@)
                    && p.1@ == self.texts()[p.0@],
    {
        if dist.len() == 0 {
            return None;
        }
        let i = first_min(dist);
        Some(self.resolve(i))
    }

    /// Like `nearest`, but only when the nearest primitive lies closer to the
    /// query point than the distance whose key is `INTERSECT_LIMIT`.
    pub fn intersect(&self, dist: &Vec<u64>) -> (r: Option<(String, String)>)
        requires
            self.wf(),
            dist@.len() == self.index().len(),
        ensures
            r is Some <==> exists|i: int| 0 <= i < dist@.len() && dist@[i] < INTERSECT_LIMIT,
            r matches Some(p) ==> exists|i: int|
                is_first_min(dist@, i) && p.0@ == self.index()[i].0 && self.texts().contains_key(p.0@)
                    && p.1@ == self.texts()[p.0@],
    {
        if dist.len() == 0 {
            return None;
        }
        let i = first_min(dist);
        if dist[i] < INTERSECT_LIMIT {
            Some(self.resolve(i))
        } else {
            proof {
                assert forall|j: int| 0 <= j < dist@.len() implies !(dist@[j] < INTERSECT_LIMIT) by {
                    assert(dist@[i as int] <= dist@[j]);
                }
            }
            None
        }
    }

    /// Stores `doc` under `id` with its text, replacing any earlier object of
    /// that identifier together with all its primitives, and indexes every
    /// primitive of `doc`'s decomposition tagged `id`.
    pub fn add(&mut self, id: String, doc: &Vec<Geometry>, text: String) -> (r: bool)
        requires
            old(self).wf(),
        ensures
            r,
            final(self).wf(),
            final(self).texts() == old(self).texts().insert(id@, text@),
            final(self).documents() == old(self).documents().insert(id@, document_view(doc@)),
            final(self).index() == untagged(old(self).index(), id@) + tag_all(
                id@,
                decomposition(document_view(doc@)),
            ),
    {
        self.discard(id.as_str());
        let ghost mid_index = self.index();
        let ghost mid_store = self.store@;
        let ghost mid_objects = self.objects@;
        let ghost mid_texts = self.texts();
        let ghost mid_docs = self.documents();
        assert(!self.texts().contains_key(id@));
        assert(!self.store@.contains_key(id@));
        let prims = decompose(doc);
        let ghost shapes = shapes_view(prims@);
        let mut i: usize = 0;
        while i < prims.len()
            invariant
                i <= prims@.len(),
                shapes == shapes_view(prims@),
                self.index() == mid_index + tag_all(id@, shapes.subrange(0, i as int)),
                self.objects@ == mid_objects,
                self.store@ == mid_store,
            decreases prims.len() - i,
        {
            let ghost before = self.entries@;
            let e = Entry { id: id.clone(), shape: duplicate(&prims[i]) };
            assert(e@ == (id@, shapes[i as int]));
            self.entries.push(e);
            i += 1;
            assert(self.index() =~= entries_view(before).push((id@, shapes[i - 1])));
            assert(tag_all(id@, shapes.subrange(0, i as int)) =~= tag_all(
                id@,
                shapes.subrange(0, i - 1),
            ).push((id@, shapes[i - 1])));
            assert(self.index() =~= mid_index + tag_all(id@, shapes.subrange(0, i as int)));
        }
        assert(shapes.subrange(0, i as int) =~= shapes);
        let ghost d = document_view(doc@);
        let ghost key = id@;
        let ghost text_v = text@;
        self.objects.push((id, text));
        self.store = Ghost(self.store@.insert(key, (text_v, d)));
        proof {
            let n = mid_objects.len() as int;
            assert(self.objects@[n].0@ == key);
            assert(self.objects@[n].1@ == text_v);
            assert(!mid_store.contains_key(key));
            lemma_untagged_facts(old(self).index(), key, key);
            assert forall|k: Seq<char>| #[trigger] self.store@.contains_key(k) implies tagged(
                self.index(),
                k,
            ) == decomposition(self.store@[k].1) by {
                lemma_tagged_concat(mid_index, tag_all(key, shapes), k);
                lemma_tag_all(key, shapes, k);
                if k == key {
                    assert(tagged(mid_index, key) + shapes =~= shapes);
                } else {
                    assert(mid_store.contains_key(k));
                    assert(tagged(mid_index, k) + Seq::<Shape>::empty() =~= tagged(mid_index, k));
                }
            }
            assert forall|i: int| 0 <= i < self.index().len() implies self.store@.contains_key(
                (#[trigger] self.index()[i]).0,
            ) by {
                if i < mid_index.len() {
                    assert(self.index()[i] == mid_index[i]);
                } else {
                    assert(self.index()[i] == tag_all(key, shapes)[i - mid_index.len()]);
                }
            }
            assert forall|i: int| 0 <= i < self.objects@.len() implies self.store@.contains_key(
                (#[trigger] self.objects@[i]).0@,
            ) && self.store@[self.objects@[i].0@].0 == self.objects@[i].1@ by {
                if i < n {
                    assert(self.objects@[i] == mid_objects[i]);
                    assert(mid_store.contains_key(mid_objects[i].0@));
                }
            }
            assert forall|k: Seq<char>| #[trigger] self.store@.contains_key(k) implies exists|i: int|
                0 <= i < self.objects@.len() && (#[trigger] self.objects@[i]).0@ == k by {
                if k == key {
                    assert(self.objects@[n].0@ == k);
                } else {
                    assert(mid_store.contains_key(k));
                    let j = choose|j: int| 0 <= j < n && (#[trigger] mid_objects[j]).0@ == k;
                    assert(self.objects@[j] == mid_objects[j]);
                }
            }
            assert forall|i: int, j: int| 0 <= i < j < self.objects@.len() implies (
            #[trigger] self.objects@[i]).0@ != (#[trigger] self.objects@[j]).0@ by {
                assert(self.objects@[i] == mid_objects[i]);
                assert(mid_store.contains_key(mid_objects[i].0@));
                if j < n {
                    assert(self.objects@[j] == mid_objects[j]);
                }
            }
        }
        assert(self.texts() =~= mid_texts.insert(key, text_v));
        assert(self.documents() =~= mid_docs.insert(key, d));
        assert(mid_texts.insert(key, text_v) =~= old(self).texts().insert(key, text_v));
        assert(mid_docs.insert(key, d) =~= old(self).documents().insert(key, d));
        true
    }
}

/// After `add(id, doc, text)`, looking `id` up gives back `text`, and the
/// document recorded under `id` is `doc`.
pub proof fn lemma_add_then_get(
    before: &Collection,
    after: &Collection,
    id: Seq<char>,
    doc: Seq<Figure>,
    text: Seq<char>,
)
    requires
        after.texts() == before.texts().insert(id, text),
        after.documents() == before.documents().insert(id, doc),
    ensures
        after.texts().contains_key(id),
        after.texts()[id] == text,
        after.documents()[id] == doc,
{
}

/// Adding a LineString of n points (n >= 2) under `id` leaves exactly n - 1
/// primitives tagged `id` in the index, whatever the index held before.
pub proof fn lemma_linestring_count(idx: Seq<(Seq<char>, Shape)>, id: Seq<char>, pts: Seq<Coord>)
    requires
        pts.len() >= 2,
    ensures
        tagged(
            untagged(idx, id) + tag_all(id, decomposition(seq![Figure::LineString(pts)])),
            id,
        ).len() == pts.len() - 1,
{
    let doc = seq![Figure::LineString(pts)];
    assert(doc.drop_last() =~= Seq::<Figure>::empty());
    assert(doc.last() == Figure::LineString(pts));
    assert(decomposition(doc.drop_last()) =~= Seq::<Shape>::empty());
    assert(shapes_of(doc.last()) == polyline_segments(pts));
    assert(decomposition(doc) =~= Seq::<Shape>::empty() + polyline_segments(pts));
    assert(decomposition(doc) =~= polyline_segments(pts));
    lemma_tagged_concat(untagged(idx, id), tag_all(id, decomposition(doc)), id);
    lemma_untagged_facts(idx, id, id);
    lemma_tag_all(id, decomposition(doc), id);
}

/// In a well-formed collection (every operation keeps it so) each stored
/// identifier has in the index exactly the primitives that decomposing its
/// document gives, and no primitive carries an identifier that is not stored.
pub proof fn lemma_symmetry(c: &Collection)
    requires
        c.wf(),
    ensures
        forall|k: Seq<char>| #[trigger] c.documents().contains_key(k) ==> tagged(c.index(), k)
            == decomposition(c.documents()[k]),
        forall|i: int| 0 <= i < c.index().len() ==> c.documents().contains_key((#[trigger] c.index()[i]).0),
        c.texts().dom() == c.documents().dom(),
{
    assert(c.texts().dom() =~= c.documents().dom());
}

/// Adding under `id` twice and then removing `id` leaves the index that
/// removing `id` from the starting index leaves: no primitive tagged `id`
/// survives, and all others are kept in order.
pub proof fn lemma_readd_then_remove(
    idx: Seq<(Seq<char>, Shape)>,
    id: Seq<char>,
    a: Seq<Figure>,
    b: Seq<Figure>,
)
    ensures
        untagged(
            untagged(untagged(idx, id) + tag_all(id, decomposition(a)), id) + tag_all(
                id,
                decomposition(b),
            ),
            id,
        ) == untagged(idx, id),
        tagged(untagged(idx, id), id).len() == 0,
{
    let first = untagged(idx, id) + tag_all(id, decomposition(a));
    let second = untagged(first, id) + tag_all(id, decomposition(b));
    lemma_tagged_concat(untagged(idx, id), tag_all(id, decomposition(a)), id);
    lemma_tag_all(id, decomposition(a), id);
    lemma_untagged_twice(idx, id);
    assert(untagged(first, id) =~= untagged(idx, id));
    lemma_tagged_concat(untagged(first, id), tag_all(id, decomposition(b)), id);
    lemma_tag_all(id, decomposition(b), id);
    assert(untagged(second, id) =~= untagged(idx, id));
    lemma_untagged_facts(idx, id, id);
}

/// Snapshot round trip of one collection. `Storage::encode` writes, for
/// each collection, pairs that are `held_pairs`: the stored pairs of the
/// well-formed collection its lock held when read. A collection rebuilt from
/// those pairs (`from_objects`, after `decode_snapshot`) holds the same text
/// under every identifier as that collection, and no other identifier.
pub proof fn lemma_snapshot_round_trip(pairs: Seq<(Seq<char>, Seq<char>)>, rebuilt: &Collection)
    requires
        held_pairs(pairs),
        rebuilt.texts() == pairs_map(pairs),
    ensures
        exists|c: Collection| c.wf() && c.pairs() == pairs && #[trigger] c.texts() == rebuilt.texts(),
{
    let c = choose|c: Collection| c.wf() && pairs == #[trigger] c.pairs();
    c.lemma_pairs_describe_texts();
    assert(c.wf() && c.pairs() == pairs && c.texts() == rebuilt.texts());
}

/// Position of the first smallest key of a non-empty sequence.
pub fn first_min(d: &Vec<u64>) -> (r: usize)
    requires
        d@.len() > 0,
    ensures
        is_first_min(d@, r as int),
{
    let mut best: usize = 0;
    let mut i: usize = 1;
    while i < d.len()
        invariant
            1 <= i <= d@.len(),
            best < i,
            forall|j: int| 0 <= j < i ==> d@[best as int] <= #[trigger] d@[j],
            forall|j: int| 0 <= j < best ==> d@[best as int] < #[trigger] d@[j],
        decreases d.len() - i,
    {
        if d[i] < d[best] {
            best = i;
        }
        i += 1;
    }
    best
}

/// When `k` is not stored, no primitive is tagged `k`.
proof fn lemma_absent_untagged(
    idx: Seq<(Seq<char>, Shape)>,
    k: Seq<char>,
    store: Map<Seq<char>, (Seq<char>, Seq<Figure>)>,
)
    requires
        !store.contains_key(k),
        forall|i: int| 0 <= i < idx.len() ==> store.contains_key((#[trigger] idx[i]).0),
    ensures
        untagged(idx, k) == idx,
    decreases idx.len(),
{
    if idx.len() > 0 {
        let t = idx.drop_last();
        assert forall|i: int| 0 <= i < t.len() implies store.contains_key((#[trigger] t[i]).0) by {
            assert(t[i] == idx[i]);
        }
        lemma_absent_untagged(t, k, store);
        assert(store.contains_key(idx[idx.len() - 1].0));
        assert(untagged(idx, k) =~= idx);
    }
}

} // verus!
