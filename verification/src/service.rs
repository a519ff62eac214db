//! The operations of the to-do list service. Each one works on the tree of
//! the caller that it is given, and on no other.

use vstd::prelude::*;
use crate::error::TodoError;
use crate::model::TodoTreeView;
use crate::order::id_set;
use crate::store::{tree_of, Caller, TodoTreeStore};
use crate::todo::{option_view, text_views, todo_views, Todo, TodoView};

verus! {

/// Adds one item for each text to the caller's list, which is made where the
/// caller has none, and returns the number of the caller's live items.
pub fn add_todos_sync(
    store: &mut TodoTreeStore,
    caller: &Caller,
    todos: Vec<String>,
) -> (count: usize)
    requires
        old(store).wf(),
        tree_of(old(store)@, caller@).next_id + todos.len() <= usize::MAX,
    ensures
        final(store).wf(),
        final(store)@ == old(store)@.insert(
            caller@,
            tree_of(old(store)@, caller@).add(text_views(todos@)),
        ),
        count == tree_of(final(store)@, caller@).count(),
{
    let tree = store.get_or_create(caller);
    tree.add(todos)
}

/// Removes the caller's live items whose ids are in `ids`, passes over the
/// other ids, and returns the number of the caller's live items. A caller
/// without a list gets none, and 0.
pub fn remove_todos_sync(
    store: &mut TodoTreeStore,
    caller: &Caller,
    ids: Vec<usize>,
) -> (count: usize)
    requires
        old(store).wf(),
    ensures
        final(store).wf(),
        old(store)@.contains_key(caller@) ==> final(store)@ == old(store)@.insert(
            caller@,
            old(store)@[caller@].remove(id_set(ids@)),
        ),
        !old(store)@.contains_key(caller@) ==> final(store)@ == old(store)@,
        count == tree_of(final(store)@, caller@).count(),
{
    match store.get_mut(caller) {
        Some(tree) => tree.remove(ids),
        None => 0,
    }
}

/// A copy of the caller's item `id`, if the caller has a list and `id` is
/// live in it.
pub fn get_todo_sync(store: &TodoTreeStore, caller: &Caller, id: usize) -> (item: Option<Todo>)
    requires
        store.wf(),
    ensures
        option_view(item) == tree_of(store@, caller@).get(id as nat),
{
    match store.get(caller) {
        Some(tree) => tree.get(id),
        None => None,
    }
}

/// Flips the completion flag of the caller's item `id` and returns the new
/// flag. Fails, and changes nothing, where the caller has no list or no live
/// item `id`.
pub fn toggle_todo(
    store: &mut TodoTreeStore,
    caller: &Caller,
    id: usize,
) -> (outcome: Result<bool, TodoError>)
    requires
        old(store).wf(),
    ensures
        final(store).wf(),
        match outcome {
            Ok(completed) => {
                &&& tree_of(old(store)@, caller@).items.contains_key(id as nat)
                &&& final(store)@ == old(store)@.insert(
                    caller@,
                    old(store)@[caller@].toggle(id as nat),
                )
                &&& completed == !old(store)@[caller@].items[id as nat].completed
            },
            Err(error) => {
                &&& !tree_of(old(store)@, caller@).items.contains_key(id as nat)
                &&& final(store)@ == old(store)@
                &&& error == if old(store)@.contains_key(caller@) {
                    TodoError::NotFound(id)
                } else {
                    TodoError::NoSuchUser
                }
            },
        },
{
    let ghost before = store@;
    match store.get_mut(caller) {
        Some(tree) => {
            let outcome = tree.toggle(id);
            assert(outcome is Err ==> before.insert(caller@, before[caller@]) =~= before);
            outcome
        },
        None => Err(TodoError::NoSuchUser),
    }
}

/// Replaces the text of the caller's item `id` and returns a copy of the
/// item as it then is. Fails, and changes nothing, where the caller has no
/// list or no live item `id`.
pub fn update_todo_text(
    store: &mut TodoTreeStore,
    caller: &Caller,
    id: usize,
    new_text: String,
) -> (outcome: Result<Todo, TodoError>)
    requires
        old(store).wf(),
    ensures
        final(store).wf(),
        match outcome {
            Ok(todo) => {
                &&& tree_of(old(store)@, caller@).items.contains_key(id as nat)
                &&& final(store)@ == old(store)@.insert(
                    caller@,
                    old(store)@[caller@].update_text(id as nat, new_text@),
                )
                &&& todo@ == old(store)@[caller@].items[id as nat].with_text(new_text@)
            },
            Err(error) => {
                &&& !tree_of(old(store)@, caller@).items.contains_key(id as nat)
                &&& final(store)@ == old(store)@
                &&& error == if old(store)@.contains_key(caller@) {
                    TodoError::NotFound(id)
                } else {
                    TodoError::NoSuchUser
                }
            },
        },
{
    let ghost before = store@;
    match store.get_mut(caller) {
        Some(tree) => {
            let outcome = tree.update_text(id, new_text);
            assert(outcome is Err ==> before.insert(caller@, before[caller@]) =~= before);
            outcome
        },
        None => Err(TodoError::NoSuchUser),
    }
}

/// Up to `limit` of the caller's items in ascending id order, after skipping
/// the first `offset` live items. A caller without a list gets no items.
pub fn get_paginated_todos(
    store: &TodoTreeStore,
    caller: &Caller,
    offset: usize,
    limit: usize,
) -> (page: Vec<Todo>)
    requires
        store.wf(),
    ensures
        todo_views(page@) == tree_of(store@, caller@).page(offset as nat, limit as nat),
{
    match store.get(caller) {
        Some(tree) => tree.list_paginated(offset, limit),
        None => {
            let page: Vec<Todo> = Vec::new();
            assert(todo_views(page@) =~= tree_of(store@, caller@).page(
                offset as nat,
                limit as nat,
            ));
            page
        },
    }
}

/// The caller's page that follows the cursor `last_id`: the items with the
/// `limit` smallest ids greater than `last_id`, or from the smallest id on
/// where `last_id` is 0. The ids are found by probing the order index over
/// windows of growing width. A caller without a list gets no items.
pub fn get_paginated_todos_efficient(
    store: &TodoTreeStore,
    caller: &Caller,
    last_id: usize,
    limit: usize,
) -> (page: Vec<Todo>)
    requires
        store.wf(),
    ensures
        todo_views(page@) == tree_of(store@, caller@).page_after(last_id as nat, limit as nat),
{
    match store.get(caller) {
        Some(tree) => tree.list_paginated_by_cursor(last_id, limit),
        None => {
            let page: Vec<Todo> = Vec::new();
            proof {
                lemma_empty_page_after(last_id as nat, limit as nat);
            }
            assert(todo_views(page@) =~= Seq::<TodoView>::empty());
            page
        },
    }
}

/// The same page as [`get_paginated_todos_efficient`], found by walking the
/// order index from the cursor's place.
pub fn get_paginated_todos_interview(
    store: &TodoTreeStore,
    caller: &Caller,
    last_id: usize,
    limit: usize,
) -> (page: Vec<Todo>)
    requires
        store.wf(),
    ensures
        todo_views(page@) == tree_of(store@, caller@).page_after(last_id as nat, limit as nat),
{
    match store.get(caller) {
        Some(tree) => tree.list_paginated_by_walk(last_id, limit),
        None => {
            let page: Vec<Todo> = Vec::new();
            proof {
                lemma_empty_page_after(last_id as nat, limit as nat);
            }
            assert(todo_views(page@) =~= Seq::<TodoView>::empty());
            page
        },
    }
}

/// The empty tree has no page after any cursor.
proof fn lemma_empty_page_after(last_id: nat, limit: nat)
    ensures
        TodoTreeView::empty().page_after(last_id, limit) == Seq::<TodoView>::empty(),
{
    let tree = TodoTreeView::empty();
    crate::ids::lemma_filter_ascending(tree.order, crate::cursor::after_cursor(last_id));
    let all = tree.order.filter(crate::cursor::after_cursor(last_id));
    if all.len() > 0 {
        assert(all.contains(all[0]));
    }
    assert(tree.page_after(last_id, limit) =~= Seq::<TodoView>::empty());
}

} // verus!
