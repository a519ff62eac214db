//! The mathematical model of one caller's to-do list, and the operations
//! on it that the contracts of [`TodoTree`](crate::tree::TodoTree) speak of.

use vstd::prelude::*;
use crate::cursor::ids_after;
use crate::ids::{
    ascending, lemma_ascending_at_least_index, lemma_filter_all, lemma_filter_ascending,
    lemma_filter_outside_one, lemma_filter_outside_twice, other_than, outside, window,
};
use crate::todo::TodoView;

verus! {

/// What a [`TodoTree`](crate::tree::TodoTree) stands for.
pub struct TodoTreeView {
    /// The live items by id.
    pub items: Map<nat, TodoView>,
    /// The live ids, smallest first.
    pub order: Seq<nat>,
    /// The id that the next new item gets.
    pub next_id: nat,
}

impl TodoTreeView {
    /// `order` lists exactly the keys of `items`, ascending; every item is
    /// stored under its own id; and every live id is below `next_id`.
    pub open spec fn valid(self) -> bool {
        &&& ascending(self.order)
        &&& forall|id: nat| self.items.contains_key(id) <==> self.order.contains(id)
        &&& forall|id: nat| self.items.contains_key(id) ==> (#[trigger] self.items[id]).id == id
        &&& forall|id: nat| self.order.contains(id) ==> id < self.next_id
    }

    /// The tree without items, whose first id will be 0.
    pub open spec fn empty() -> TodoTreeView {
        TodoTreeView { items: Map::empty(), order: Seq::empty(), next_id: 0 }
    }

    /// The number of live items.
    pub open spec fn count(self) -> nat {
        self.order.len()
    }

    /// The item with this id, if it is live.
    pub open spec fn get(self, id: nat) -> Option<TodoView> {
        if self.items.contains_key(id) {
            Some(self.items[id])
        } else {
            None
        }
    }

    /// The ids that an add of `n` items hands out, in the order of the input.
    pub open spec fn new_ids(self, n: nat) -> Seq<nat> {
        Seq::new(n, |i: int| (self.next_id + i) as nat)
    }

    /// The tree after adding one item for each text: the i-th text gets the id
    /// `next_id + i`, is not completed, and comes last in the order so far.
    pub open spec fn add(self, texts: Seq<Seq<char>>) -> TodoTreeView {
        TodoTreeView {
            items: Map::new(
                |id: nat|
                    self.items.contains_key(id) || self.next_id <= id < self.next_id + texts.len(),
                |id: nat|
                    if self.next_id <= id < self.next_id + texts.len() {
                        TodoView::fresh(id, texts[id - self.next_id])
                    } else {
                        self.items[id]
                    },
            ),
            order: self.order + self.new_ids(texts.len()),
            next_id: self.next_id + texts.len(),
        }
    }

    /// The tree after removing every live item whose id is in `gone`. Ids in
    /// `gone` that are not live make no difference, and no id becomes free
    /// for reuse.
    pub open spec fn remove(self, gone: Set<nat>) -> TodoTreeView {
        TodoTreeView {
            items: self.items.remove_keys(gone),
            order: self.order.filter(outside(gone)),
            next_id: self.next_id,
        }
    }

    /// The tree after flipping the completion flag of the item `id`.
    pub open spec fn toggle(self, id: nat) -> TodoTreeView
        recommends
            self.items.contains_key(id),
    {
        TodoTreeView { items: self.items.insert(id, self.items[id].toggled()), ..self }
    }

    /// The tree after replacing the text of the item `id`.
    pub open spec fn update_text(self, id: nat, text: Seq<char>) -> TodoTreeView
        recommends
            self.items.contains_key(id),
    {
        TodoTreeView { items: self.items.insert(id, self.items[id].with_text(text)), ..self }
    }

    /// The items stored under `ids`, in the order of `ids`.
    pub open spec fn listed(self, ids: Seq<nat>) -> Seq<TodoView> {
        ids.map_values(|id: nat| self.items[id])
    }

    /// Up to `limit` items in ascending id order, after skipping the first
    /// `offset` live items.
    pub open spec fn page(self, offset: nat, limit: nat) -> Seq<TodoView> {
        self.listed(window(self.order, offset, limit))
    }

    /// The items with the `limit` smallest ids after the cursor, or all items
    /// after it where there are fewer, in ascending id order.
    pub open spec fn page_after(self, last_id: nat, limit: nat) -> Seq<TodoView> {
        self.listed(ids_after(self.order, last_id, limit))
    }
}

/// Adding a single text stores one new item under `next_id`, puts that id last
/// in the order, and moves `next_id` on by one.
pub proof fn lemma_add_single(tree: TodoTreeView, text: Seq<char>)
    ensures
        tree.add(seq![text]) == (TodoTreeView {
            items: tree.items.insert(tree.next_id, TodoView::fresh(tree.next_id, text)),
            order: tree.order.push(tree.next_id),
            next_id: tree.next_id + 1,
        }),
{
    let one = tree.add(seq![text]);
    assert(one.items =~= tree.items.insert(tree.next_id, TodoView::fresh(tree.next_id, text)));
    assert(one.order =~= tree.order.push(tree.next_id));
}

/// Adding texts one after another is adding them at once.
pub proof fn lemma_add_split(tree: TodoTreeView, texts: Seq<Seq<char>>, more: Seq<Seq<char>>)
    ensures
        tree.add(texts + more) == tree.add(texts).add(more),
{
    let whole = tree.add(texts + more);
    let steps = tree.add(texts).add(more);
    assert(whole.items =~= steps.items);
    assert(whole.order =~= steps.order);
}

/// Adding keeps a valid tree valid.
pub proof fn lemma_add_valid(tree: TodoTreeView, texts: Seq<Seq<char>>)
    requires
        tree.valid(),
    ensures
        tree.add(texts).valid(),
        tree.add(texts).count() == tree.count() + texts.len(),
{
    let after = tree.add(texts);
    let fresh = tree.new_ids(texts.len());
    assert forall|id: nat| after.order.contains(id) <==> tree.order.contains(id) || (tree.next_id
        <= id < tree.next_id + texts.len()) by {
        if after.order.contains(id) {
            let k = choose|k: int| 0 <= k < after.order.len() && after.order[k] == id;
            if k < tree.order.len() {
                assert(tree.order[k] == id);
            } else {
                assert(fresh[k - tree.order.len()] == id);
            }
        }
        if tree.order.contains(id) {
            let k = choose|k: int| 0 <= k < tree.order.len() && tree.order[k] == id;
            assert(after.order[k] == id);
        }
        if tree.next_id <= id < tree.next_id + texts.len() {
            assert(after.order[tree.order.len() + (id - tree.next_id)] == id);
        }
    }
    assert forall|i: int, j: int| 0 <= i < j < after.order.len() implies after.order[i]
        < after.order[j] by {
        if j < tree.order.len() {
            assert(tree.order[i] < tree.order[j]);
        } else if i < tree.order.len() {
            assert(tree.order.contains(tree.order[i]));
        }
    }
}

/// Removing keeps a valid tree valid, and leaves none of the removed ids.
pub proof fn lemma_remove_valid(tree: TodoTreeView, gone: Set<nat>)
    requires
        tree.valid(),
    ensures
        tree.remove(gone).valid(),
        forall|id: nat| gone.contains(id) ==> tree.remove(gone).get(id) is None,
{
    lemma_filter_ascending(tree.order, outside(gone));
    let after = tree.remove(gone);
    assert forall|id: nat| after.items.contains_key(id) <==> after.order.contains(id) by {
        assert(after.order.contains(id) <==> tree.order.contains(id) && outside(gone)(id));
    }
    assert forall|id: nat| after.order.contains(id) implies id < after.next_id by {
        assert(after.order.contains(id) <==> tree.order.contains(id) && outside(gone)(id));
    }
}

/// Removing no ids changes nothing.
pub proof fn lemma_remove_nothing(tree: TodoTreeView)
    requires
        tree.valid(),
    ensures
        tree.remove(Set::empty()) == tree,
{
    lemma_filter_all(tree.order, outside(Set::empty()));
    assert(tree.remove(Set::empty()).items =~= tree.items);
}

/// Removing one set of ids and then another is removing their union.
pub proof fn lemma_remove_split(tree: TodoTreeView, gone: Set<nat>, more: Set<nat>)
    requires
        tree.valid(),
    ensures
        tree.remove(gone).remove(more) == tree.remove(gone.union(more)),
{
    lemma_filter_outside_twice(tree.order, gone, more);
    assert(tree.remove(gone).remove(more).items =~= tree.remove(gone.union(more)).items);
}

/// Removing a single id takes its item away and filters it out of the order.
pub proof fn lemma_remove_single(tree: TodoTreeView, id: nat)
    requires
        tree.valid(),
    ensures
        tree.remove(set![id]) == (TodoTreeView {
            items: tree.items.remove(id),
            order: tree.order.filter(other_than(id)),
            next_id: tree.next_id,
        }),
{
    lemma_filter_outside_one(tree.order, id);
    assert(tree.remove(set![id]).items =~= tree.items.remove(id));
}

/// The live items of a valid tree are no more than the ids handed out so far.
pub proof fn lemma_count_bounded(tree: TodoTreeView)
    requires
        tree.valid(),
    ensures
        tree.count() <= tree.next_id,
{
    if tree.order.len() > 0 {
        let last = tree.order.len() - 1;
        lemma_ascending_at_least_index(tree.order, last);
        assert(tree.order.contains(tree.order[last]));
    }
}

} // verus!
