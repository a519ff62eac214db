//! What holds of every tree, whatever is done to it.

use vstd::prelude::*;
use crate::cursor::after_cursor;
use crate::ids::{
    ascending, first_n, lemma_ascending_no_duplicates, lemma_filter_all, lemma_filter_outside_len,
    window,
};
use crate::model::{
    lemma_add_valid, lemma_count_bounded, lemma_remove_split, lemma_remove_valid, TodoTreeView,
};
use crate::todo::TodoView;

verus! {

/// One change to a tree.
pub enum TreeOp {
    /// Add one item for each text.
    Add(Seq<Seq<char>>),
    /// Remove the live items with these ids.
    Remove(Set<nat>),
    /// Flip the completion flag of this item; nothing where it is not live.
    Toggle(nat),
    /// Replace the text of this item; nothing where it is not live.
    UpdateText(nat, Seq<char>),
}

impl TodoTreeView {
    /// The tree after one change.
    pub open spec fn apply(self, op: TreeOp) -> TodoTreeView {
        match op {
            TreeOp::Add(texts) => self.add(texts),
            TreeOp::Remove(gone) => self.remove(gone),
            TreeOp::Toggle(id) => if self.items.contains_key(id) {
                self.toggle(id)
            } else {
                self
            },
            TreeOp::UpdateText(id, text) => if self.items.contains_key(id) {
                self.update_text(id, text)
            } else {
                self
            },
        }
    }

    /// The ids that one change hands out.
    pub open spec fn allocates(self, op: TreeOp) -> Seq<nat> {
        match op {
            TreeOp::Add(texts) => self.new_ids(texts.len()),
            _ => Seq::empty(),
        }
    }

    /// The tree after a run of changes, the first of `ops` first.
    pub open spec fn run(self, ops: Seq<TreeOp>) -> TodoTreeView
        decreases ops.len(),
    {
        if ops.len() == 0 {
            self
        } else {
            self.run(ops.drop_last()).apply(ops.last())
        }
    }

    /// All ids that a run of changes hands out, in the order in which it
    /// hands them out.
    pub open spec fn allocated(self, ops: Seq<TreeOp>) -> Seq<nat>
        decreases ops.len(),
    {
        if ops.len() == 0 {
            Seq::empty()
        } else {
            self.allocated(ops.drop_last()) + self.run(ops.drop_last()).allocates(ops.last())
        }
    }
}

/// The count of a valid tree is the number of its items: the order index
/// and the items have the same ids, and the index holds each once.
pub proof fn lemma_count_is_items(tree: TodoTreeView)
    requires
        tree.valid(),
    ensures
        tree.items.dom() == tree.order.to_set(),
        tree.items.dom().finite(),
        tree.items.dom().len() == tree.count(),
{
    assert(tree.items.dom() =~= tree.order.to_set());
    lemma_ascending_no_duplicates(tree.order);
    vstd::seq_lib::seq_to_set_is_finite(tree.order);
    tree.order.unique_seq_to_set();
}

/// Every change keeps a valid tree valid, and none lets `next_id` go back:
/// it moves on by the number of ids that the change hands out.
pub proof fn lemma_apply_valid(tree: TodoTreeView, op: TreeOp)
    requires
        tree.valid(),
    ensures
        tree.apply(op).valid(),
        tree.apply(op).next_id == tree.next_id + tree.allocates(op).len(),
{
    match op {
        TreeOp::Add(texts) => {
            lemma_add_valid(tree, texts);
        },
        TreeOp::Remove(gone) => {
            lemma_remove_valid(tree, gone);
        },
        TreeOp::Toggle(id) => {},
        TreeOp::UpdateText(id, text) => {},
    }
}

/// A tree stays valid through every run of changes: its order lists exactly
/// the ids of its items, no live id reaches `next_id`, and its count is the
/// number of its items.
pub proof fn lemma_run_valid(tree: TodoTreeView, ops: Seq<TreeOp>)
    requires
        tree.valid(),
    ensures
        tree.run(ops).valid(),
        tree.run(ops).next_id == tree.next_id + tree.allocated(ops).len(),
        tree.run(ops).count() <= tree.run(ops).next_id,
    decreases ops.len(),
{
    if ops.len() > 0 {
        lemma_run_valid(tree, ops.drop_last());
        lemma_apply_valid(tree.run(ops.drop_last()), ops.last());
    }
    lemma_count_bounded(tree.run(ops));
}

/// The ids that a run of adds, removes, toggles and updates hands out are
/// strictly increasing, in whatever order the changes come: no id is handed
/// out twice, and none that was live or handed out before the run.
pub proof fn lemma_ids_never_reused(tree: TodoTreeView, ops: Seq<TreeOp>)
    requires
        tree.valid(),
    ensures
        ascending(tree.allocated(ops)),
        forall|i: int|
            0 <= i < tree.allocated(ops).len() ==> tree.next_id <= #[trigger] tree.allocated(
                ops,
            )[i] < tree.run(ops).next_id,
        forall|i: int|
            0 <= i < tree.allocated(ops).len() ==> !tree.items.contains_key(
                #[trigger] tree.allocated(ops)[i],
            ),
    decreases ops.len(),
{
    if ops.len() > 0 {
        let prefix = ops.drop_last();
        let before = tree.run(prefix);
        lemma_ids_never_reused(tree, prefix);
        lemma_run_valid(tree, prefix);
        lemma_run_valid(tree, ops);
        let head = tree.allocated(prefix);
        let tail = before.allocates(ops.last());
        let all = tree.allocated(ops);
        assert(all == head + tail);
        assert forall|i: int| 0 <= i < all.len() implies tree.next_id <= #[trigger] all[i]
            < tree.run(ops).next_id by {
            if i < head.len() {
                assert(all[i] == head[i]);
            } else {
                assert(all[i] == tail[i - head.len()]);
            }
        }
        assert forall|i: int, j: int| 0 <= i < j < all.len() implies all[i] < all[j] by {
            if j < head.len() {
                assert(head[i] < head[j]);
            } else if i < head.len() {
                assert(all[i] == head[i]);
                assert(all[j] == tail[j - head.len()]);
            } else {
                assert(all[i] == tail[i - head.len()]);
                assert(all[j] == tail[j - head.len()]);
            }
        }
    }
    assert forall|i: int| 0 <= i < tree.allocated(ops).len() implies !tree.items.contains_key(
        #[trigger] tree.allocated(ops)[i],
    ) by {
        let id = tree.allocated(ops)[i];
        if tree.items.contains_key(id) {
            assert(tree.order.contains(id));
        }
    }
}

/// After an add, removing some of the ids that the add handed out leaves as
/// many more items than before the add as ids were not removed, and none of
/// the removed ids can be got; each of the others still holds its text.
pub proof fn lemma_add_then_remove(tree: TodoTreeView, texts: Seq<Seq<char>>, gone: Set<nat>)
    requires
        tree.valid(),
        forall|id: nat| gone.contains(id) ==> tree.next_id <= id < tree.next_id + texts.len(),
    ensures
        gone.finite(),
        tree.add(texts).remove(gone).count() == tree.count() + texts.len() - gone.len(),
        forall|id: nat| gone.contains(id) ==> tree.add(texts).remove(gone).get(id) is None,
        forall|i: int|
            0 <= i < texts.len() && !gone.contains((tree.next_id + i) as nat) ==> tree.add(
                texts,
            ).remove(gone).get((tree.next_id + i) as nat) == Some(
                TodoView::fresh((tree.next_id + i) as nat, #[trigger] texts[i]),
            ),
{
    let added = tree.add(texts);
    lemma_add_valid(tree, texts);
    lemma_remove_valid(added, gone);
    assert forall|id: nat| gone.contains(id) implies added.order.contains(id) by {
        assert(added.items.contains_key(id));
    }
    assert(gone.subset_of(added.order.to_set()));
    vstd::seq_lib::seq_to_set_is_finite(added.order);
    vstd::set_lib::lemma_len_subset(gone, added.order.to_set());
    lemma_filter_outside_len(added.order, gone);
}

/// Removing the same ids a second time changes nothing: the tree, and so its
/// count, stay as the first removal left them.
pub proof fn lemma_remove_twice(tree: TodoTreeView, gone: Set<nat>)
    requires
        tree.valid(),
    ensures
        tree.remove(gone).remove(gone) == tree.remove(gone),
        tree.remove(gone).remove(gone).count() == tree.remove(gone).count(),
{
    lemma_remove_split(tree, gone, gone);
    assert(gone.union(gone) =~= gone);
}

/// The page at offset 0 is the page after the cursor 0, with or without
/// gaps among the ids.
pub proof fn lemma_first_page_same(tree: TodoTreeView, limit: nat)
    requires
        tree.valid(),
    ensures
        tree.page(0, limit) == tree.page_after(0, limit),
{
    lemma_filter_all(tree.order, after_cursor(0));
    assert(tree.order.skip(0) =~= tree.order);
    assert(window(tree.order, 0, limit) == first_n(tree.order, limit));
}

} // verus!
