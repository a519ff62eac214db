//! The order index: the live ids of one tree, kept strictly ascending.

use vstd::prelude::*;
use crate::ids::{
    ascending, between, lemma_filter_is_subrange, lemma_insert_new, lemma_remove_absent,
    lemma_remove_at, other_than, window, with_id,
};

verus! {

/// The ids of a sequence of machine integers, as natural numbers.
pub open spec fn id_views(ids: Seq<usize>) -> Seq<nat> {
    ids.map_values(|id: usize| id as nat)
}

/// The set of the ids that occur in a sequence of machine integers.
pub open spec fn id_set(ids: Seq<usize>) -> Set<nat> {
    id_views(ids).to_set()
}

/// The ids among the first `i + 1` of a sequence are those among the first
/// `i`, and the one at position `i`.
pub proof fn lemma_id_set_step(ids: Seq<usize>, i: int)
    requires
        0 <= i < ids.len(),
    ensures
        id_set(ids.take(i + 1)) == id_set(ids.take(i)).union(set![ids[i] as nat]),
{
    let longer = id_views(ids.take(i + 1));
    let shorter = id_views(ids.take(i));
    assert forall|id: nat| longer.contains(id) <==> shorter.contains(id) || id == ids[i] as nat by {
        if longer.contains(id) {
            let k = choose|k: int| 0 <= k < longer.len() && longer[k] == id;
            if k < i {
                assert(shorter[k] == id);
            }
        }
        if shorter.contains(id) {
            let k = choose|k: int| 0 <= k < shorter.len() && shorter[k] == id;
            assert(longer[k] == id);
        }
        if id == ids[i] as nat {
            assert(longer[i] == id);
        }
    }
    assert(id_set(ids.take(i + 1)) =~= id_set(ids.take(i)).union(set![ids[i] as nat]));
}

/// Putting an id into a sequence and then taking the views is putting its
/// view into the views.
pub proof fn lemma_id_views_insert(ids: Seq<usize>, pos: int, id: usize)
    requires
        0 <= pos <= ids.len(),
    ensures
        id_views(ids.insert(pos, id)) == id_views(ids).insert(pos, id as nat),
{
    assert(id_views(ids.insert(pos, id)) =~= id_views(ids).insert(pos, id as nat));
}

/// Taking an id out of a sequence and then taking the views is taking its
/// view out of the views.
pub proof fn lemma_id_views_remove(ids: Seq<usize>, pos: int)
    requires
        0 <= pos < ids.len(),
    ensures
        id_views(ids.remove(pos)) == id_views(ids).remove(pos),
{
    assert(id_views(ids.remove(pos)) =~= id_views(ids).remove(pos));
}

/// An ordered set of ids. Its view is the sequence of its ids, smallest
/// first.
pub struct OrderIndex {
    ids: Vec<usize>,
}

impl View for OrderIndex {
    type V = Seq<nat>;

    closed spec fn view(&self) -> Seq<nat> {
        id_views(self.ids@)
    }
}

impl OrderIndex {
    /// The ids are strictly ascending, so none occurs twice.
    pub open spec fn wf(&self) -> bool {
        ascending(self@)
    }

    /// Every id of the index is a machine integer.
    pub proof fn lemma_ids_fit(&self)
        ensures
            forall|i: int| 0 <= i < self@.len() ==> self@[i] <= usize::MAX,
    {
    }

    /// The empty index.
    pub fn new() -> (index: OrderIndex)
        ensures
            index.wf(),
            index@ == Seq::<nat>::empty(),
    {
        let index = OrderIndex { ids: Vec::new() };
        assert(index@ =~= Seq::<nat>::empty());
        index
    }

    /// The number of ids.
    pub fn len(&self) -> (n: usize)
        ensures
            n == self@.len(),
    {
        self.ids.len()
    }

    /// The id at position `i`, counting from the smallest.
    pub fn nth(&self, i: usize) -> (id: usize)
        requires
            i < self@.len(),
        ensures
            id == self@[i as int],
    {
        self.ids[i]
    }

    /// The number of ids below `id`: the position at which `id` stands, or
    /// would stand.
    pub fn rank(&self, id: usize) -> (pos: usize)
        requires
            self.wf(),
        ensures
            pos <= self@.len(),
            forall|i: int| 0 <= i < pos ==> self@[i] < id,
            forall|i: int| pos <= i < self@.len() ==> self@[i] >= id,
    {
        let mut lo: usize = 0;
        let mut hi: usize = self.ids.len();
        while lo < hi
            invariant
                self.wf(),
                lo <= hi <= self.ids@.len(),
                forall|i: int| 0 <= i < lo ==> self@[i] < id,
                forall|i: int| hi <= i < self@.len() ==> self@[i] >= id,
            decreases hi - lo,
        {
            let mid: usize = lo + (hi - lo) / 2;
            if self.ids[mid] < id {
                assert forall|i: int| 0 <= i < mid + 1 implies self@[i] < id by {
                    if i < mid {
                        assert(self@[i] < self@[mid as int]);
                    }
                }
                lo = mid + 1;
            } else {
                assert forall|i: int| mid <= i < self@.len() implies self@[i] >= id by {
                    if mid < i {
                        assert(self@[mid as int] < self@[i]);
                    }
                }
                hi = mid;
            }
        }
        lo
    }

    /// Whether `id` is in the index.
    pub fn contains(&self, id: usize) -> (found: bool)
        requires
            self.wf(),
        ensures
            found == self@.contains(id as nat),
    {
        let pos = self.rank(id);
        let found = pos < self.ids.len() && self.ids[pos] == id;
        proof {
            if found {
                assert(self@[pos as int] == id as nat);
            } else if self@.contains(id as nat) {
                let i = choose|i: int| 0 <= i < self@.len() && self@[i] == id as nat;
                if pos < i {
                    assert(self@[pos as int] < self@[i]);
                }
            }
        }
        found
    }

    /// Up to `limit` ids in ascending order, after skipping the `offset`
    /// smallest.
    pub fn window(&self, offset: usize, limit: usize) -> (ids: Vec<usize>)
        ensures
            id_views(ids@) == window(self@, offset as nat, limit as nat),
    {
        let mut ids: Vec<usize> = Vec::new();
        let len = self.ids.len();
        if offset >= len {
            assert(window(self@, offset as nat, limit as nat) =~= Seq::<nat>::empty());
            assert(id_views(ids@) =~= Seq::<nat>::empty());
            return ids;
        }
        let end = if limit >= len - offset {
            len
        } else {
            offset + limit
        };
        let mut i: usize = offset;
        while i < end
            invariant
                offset <= i <= end <= self.ids@.len(),
                ids@ == self.ids@.subrange(offset as int, i as int),
            decreases end - i,
        {
            ids.push(self.ids[i]);
            i += 1;
            assert(ids@ =~= self.ids@.subrange(offset as int, i as int));
        }
        assert(id_views(ids@) =~= window(self@, offset as nat, limit as nat));
        ids
    }

    /// Puts `id` into the index, at its place in the order. Returns whether
    /// it was new.
    pub fn insert(&mut self, id: usize) -> (added: bool)
        requires
            old(self).wf(),
        ensures
            final(self).wf(),
            added == !old(self)@.contains(id as nat),
            added ==> final(self)@ == with_id(old(self)@, id as nat),
            !added ==> final(self)@ == old(self)@,
    {
        let pos = self.rank(id);
        let ghost before = self@;
        if pos < self.ids.len() && self.ids[pos] == id {
            proof {
                assert(before[pos as int] == id as nat);
            }
            false
        } else {
            proof {
                lemma_insert_new(before, id as nat, pos as int);
                lemma_id_views_insert(self.ids@, pos as int, id);
            }
            self.ids.insert(pos, id);
            true
        }
    }

    /// Takes `id` out of the index. Returns whether it was there.
    pub fn remove(&mut self, id: usize) -> (removed: bool)
        requires
            old(self).wf(),
        ensures
            final(self).wf(),
            removed == old(self)@.contains(id as nat),
            final(self)@ == old(self)@.filter(other_than(id as nat)),
            final(self)@.len() == old(self)@.len() - if removed { 1int } else { 0 },
    {
        let present = self.contains(id);
        let ghost before = self@;
        if present {
            let pos = self.rank(id);
            proof {
                let i = choose|i: int| 0 <= i < before.len() && before[i] == id as nat;
                if pos < i {
                    assert(before[pos as int] < before[i]);
                }
                assert(before[pos as int] == id as nat);
                lemma_remove_at(before, pos as int);
                lemma_id_views_remove(self.ids@, pos as int);
            }
            self.ids.remove(pos);
        } else {
            proof {
                lemma_remove_absent(before, id as nat);
            }
        }
        present
    }

    /// The ids from `lo` to `hi`, both included, smallest first.
    pub fn range(&self, lo: usize, hi: usize) -> (found: Vec<usize>)
        requires
            self.wf(),
        ensures
            id_views(found@) == self@.filter(between(lo as nat, hi as nat)),
    {
        let mut found: Vec<usize> = Vec::new();
        let start = self.rank(lo);
        let mut i: usize = start;
        while i < self.ids.len() && self.ids[i] <= hi
            invariant
                self.wf(),
                start <= i <= self.ids@.len(),
                forall|k: int| 0 <= k < start ==> self@[k] < lo,
                forall|k: int| start <= k < self@.len() ==> self@[k] >= lo,
                forall|k: int| start <= k < i ==> self@[k] <= hi,
                found@ == self.ids@.subrange(start as int, i as int),
            decreases self.ids@.len() - i,
        {
            found.push(self.ids[i]);
            i += 1;
            assert(found@ =~= self.ids@.subrange(start as int, i as int));
        }
        proof {
            let keep = between(lo as nat, hi as nat);
            assert forall|k: int| 0 <= k < self@.len() implies (keep(#[trigger] self@[k]) <==> start
                <= k < i) by {
                if i < k {
                    assert(self@[i as int] < self@[k]);
                }
            }
            lemma_filter_is_subrange(self@, keep, start as int, i as int);
            assert(id_views(found@) =~= self@.subrange(start as int, i as int));
        }
        found
    }
}

} // verus!
