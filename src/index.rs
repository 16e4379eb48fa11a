use vstd::prelude::*;

use crate::geometry::{Primitive, Shape, copy_rings};

verus! {

/// One stored primitive, tagged with the identifier of the object it came from.
#[derive(Debug)]
pub struct Entry {
    pub id: String,
    pub shape: Primitive,
}

impl View for Entry {
    type V = (Seq<char>, Shape);

    open spec fn view(&self) -> (Seq<char>, Shape) {
        (self.id@, self.shape@)
    }
}

pub open spec fn entries_view(s: Seq<Entry>) -> Seq<(Seq<char>, Shape)> {
    s.map_values(|e: Entry| e@)
}

/// The primitives of `idx` tagged `k`, in index order.
pub open spec fn tagged(idx: Seq<(Seq<char>, Shape)>, k: Seq<char>) -> Seq<Shape>
    decreases idx.len(),
{
    if idx.len() == 0 {
        Seq::empty()
    } else if idx.last().0 == k {
        tagged(idx.drop_last(), k).push(idx.last().1)
    } else {
        tagged(idx.drop_last(), k)
    }
}

/// `idx` without the entries tagged `k`.
pub open spec fn untagged(idx: Seq<(Seq<char>, Shape)>, k: Seq<char>) -> Seq<(Seq<char>, Shape)>
    decreases idx.len(),
{
    if idx.len() == 0 {
        Seq::empty()
    } else if idx.last().0 == k {
        untagged(idx.drop_last(), k)
    } else {
        untagged(idx.drop_last(), k).push(idx.last())
    }
}

/// Every shape of `shapes`, tagged `k`.
pub open spec fn tag_all(k: Seq<char>, shapes: Seq<Shape>) -> Seq<(Seq<char>, Shape)> {
    shapes.map_values(|s: Shape| (k, s))
}

pub proof fn lemma_tagged_concat(s: Seq<(Seq<char>, Shape)>, t: Seq<(Seq<char>, Shape)>, k: Seq<char>)
    ensures
        tagged(s + t, k) == tagged(s, k) + tagged(t, k),
        untagged(s + t, k) == untagged(s, k) + untagged(t, k),
    decreases t.len(),
{
    if t.len() == 0 {
        assert(s + t =~= s);
        assert(tagged(s, k) + tagged(t, k) =~= tagged(s, k));
        assert(untagged(s, k) + untagged(t, k) =~= untagged(s, k));
    } else {
        assert((s + t).drop_last() =~= s + t.drop_last());
        assert((s + t).last() == t.last());
        lemma_tagged_concat(s, t.drop_last(), k);
        assert(tagged(s + t, k) =~= tagged(s, k) + tagged(t, k));
        assert(untagged(s + t, k) =~= untagged(s, k) + untagged(t, k));
    }
}

pub proof fn lemma_untagged_facts(s: Seq<(Seq<char>, Shape)>, k: Seq<char>, k2: Seq<char>)
    ensures
        tagged(untagged(s, k), k) == Seq::<Shape>::empty(),
        k2 != k ==> tagged(untagged(s, k), k2) == tagged(s, k2),
        forall|x: (Seq<char>, Shape)| #[trigger] untagged(s, k).contains(x) ==> s.contains(x) && x.0 != k,
    decreases s.len(),
{
    if s.len() > 0 {
        let t = s.drop_last();
        lemma_untagged_facts(t, k, k2);
        if s.last().0 != k {
            assert(untagged(s, k).drop_last() =~= untagged(t, k));
        }
        assert forall|x: (Seq<char>, Shape)| #[trigger] untagged(s, k).contains(x) implies s.contains(x)
            && x.0 != k by {
            let i = choose|i: int| 0 <= i < untagged(s, k).len() && untagged(s, k)[i] == x;
            if s.last().0 != k && i == untagged(s, k).len() - 1 {
                assert(s[s.len() - 1] == x);
            } else {
                assert(untagged(t, k).contains(x));
                let j = choose|j: int| 0 <= j < t.len() && t[j] == x;
                assert(s[j] == x);
            }
        }
    }
}

pub proof fn lemma_untagged_twice(s: Seq<(Seq<char>, Shape)>, k: Seq<char>)
    ensures
        untagged(untagged(s, k), k) == untagged(s, k),
    decreases s.len(),
{
    if s.len() > 0 {
        lemma_untagged_twice(s.drop_last(), k);
        if s.last().0 != k {
            assert(untagged(s, k).drop_last() =~= untagged(s.drop_last(), k));
        }
    }
}

pub proof fn lemma_tag_all(k: Seq<char>, shapes: Seq<Shape>, k2: Seq<char>)
    ensures
        tagged(tag_all(k, shapes), k) == shapes,
        untagged(tag_all(k, shapes), k) == Seq::<(Seq<char>, Shape)>::empty(),
        k2 != k ==> tagged(tag_all(k, shapes), k2) == Seq::<Shape>::empty(),
        k2 != k ==> untagged(tag_all(k, shapes), k2) == tag_all(k, shapes),
    decreases shapes.len(),
{
    if shapes.len() > 0 {
        let t = shapes.drop_last();
        lemma_tag_all(k, t, k2);
        assert(tag_all(k, shapes).drop_last() =~= tag_all(k, t));
        assert(tagged(tag_all(k, shapes), k) =~= shapes);
        if k2 != k {
            assert(untagged(tag_all(k, shapes), k2) =~= untagged(tag_all(k, t), k2).push(
                (k, shapes.last()),
            ));
        }
    } else {
        assert(tagged(tag_all(k, shapes), k) =~= shapes);
        assert(untagged(tag_all(k, shapes), k2) =~= tag_all(k, shapes));
    }
}

/// A copy of a primitive.
pub fn duplicate(p: &Primitive) -> (r: Primitive)
    ensures
        r@ == p@,
{
    match p {
        Primitive::Point(c) => Primitive::Point(*c),
        Primitive::Segment(a, b) => Primitive::Segment(*a, *b),
        Primitive::Polygon(rs) => Primitive::Polygon(copy_rings(rs)),
    }
}

/// Whether two strings hold the same characters.
pub fn same_text(a: &str, b: &str) -> (r: bool)
    ensures
        r == (a@ == b@),
{
    let n = a.unicode_len();
    if n != b.unicode_len() {
        return false;
    }
    let mut i: usize = 0;
    while i < n
        invariant
            n == a@.len() == b@.len(),
            i <= n,
            a@.subrange(0, i as int) == b@.subrange(0, i as int),
        decreases n - i,
    {
        if a.get_char(i) != b.get_char(i) {
            return false;
        }
        i += 1;
        assert(a@.subrange(0, i as int) =~= a@.subrange(0, i - 1).push(a@[i - 1]));
        assert(b@.subrange(0, i as int) =~= b@.subrange(0, i - 1).push(b@[i - 1]));
    }
    assert(a@ =~= a@.subrange(0, n as int));
    assert(b@ =~= b@.subrange(0, n as int));
    true
}

/// Removes from `entries` every entry tagged `id`, keeping the others in order.
pub fn remove_tagged(entries: &mut Vec<Entry>, id: &str)
    ensures
        entries_view(final(entries)@) == untagged(entries_view(old(entries)@), id@),
{
    let ghost start = entries@;
    let mut i: usize = 0;
    let ghost mut j: int = 0;
    while i < entries.len()
        invariant
            0 <= i <= j <= start.len(),
            entries@.len() - i == start.len() - j,
            entries_view(entries@.subrange(0, i as int)) == untagged(
                entries_view(start.subrange(0, j)),
                id@,
            ),
            entries@.subrange(i as int, entries@.len() as int) == start.subrange(j, start.len() as int),
        decreases entries.len() - i,
    {
        assert(entries@.subrange(i as int, entries@.len() as int)[0] == entries@[i as int]);
        assert(start.subrange(j, start.len() as int)[0] == start[j]);
        assert(entries@[i as int] == start[j]);
        assert(entries_view(start.subrange(0, j + 1)).drop_last() =~= entries_view(
            start.subrange(0, j),
        ));
        if same_text(entries[i].id.as_str(), id) {
            let ghost before = entries@;
            entries.remove(i);
            assert(entries@.subrange(0, i as int) =~= before.subrange(0, i as int));
            assert(entries@.subrange(i as int, entries@.len() as int) =~= before.subrange(
                i + 1,
                before.len() as int,
            ));
            assert(before.subrange(i + 1, before.len() as int) =~= before.subrange(
                i as int,
                before.len() as int,
            ).drop_first());
            assert(entries@.subrange(i as int, entries@.len() as int) =~= start.subrange(
                j + 1,
                start.len() as int,
            ));
        } else {
            let ghost before = entries@;
            i += 1;
            assert(entries_view(entries@.subrange(0, i as int)) =~= entries_view(
                before.subrange(0, i - 1),
            ).push(before[i - 1]@));
            assert(entries@.subrange(i as int, entries@.len() as int) =~= before.subrange(
                i - 1,
                before.len() as int,
            ).drop_first());
            assert(entries@.subrange(i as int, entries@.len() as int) =~= start.subrange(
                j + 1,
                start.len() as int,
            ));
        }
        proof {
            j = j + 1;
        }
    }
    assert(entries@.subrange(0, i as int) =~= entries@);
    assert(start.subrange(0, j) =~= start);
}

} // verus!
