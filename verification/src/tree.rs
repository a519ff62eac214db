//! One caller's items, the index of their ids, and the id allocator.

use vstd::prelude::*;
use std::collections::hash_map::Entry;
use std::collections::HashMap;
use crate::cursor::{lemma_ids_after_within, probe_after, walk_after};
use crate::error::TodoError;
use crate::ids::{lemma_window_within, lemma_with_id_largest};
use crate::model::{
    lemma_add_single, lemma_add_split, lemma_add_valid, lemma_count_bounded, lemma_remove_nothing,
    lemma_remove_single, lemma_remove_split, lemma_remove_valid, TodoTreeView,
};
use crate::order::{id_set, id_views, lemma_id_set_step, OrderIndex};
use crate::todo::{option_view, text_views, todo_views, Todo, TodoView};

verus! {

/// One caller's to-do list.
pub struct TodoTree {
    count: usize,
    todos: HashMap<usize, Todo>,
    order: OrderIndex,
    next_id: usize,
}

impl View for TodoTree {
    type V = TodoTreeView;

    closed spec fn view(&self) -> TodoTreeView {
        TodoTreeView {
            items: Map::new(
                |id: nat| id <= usize::MAX && self.todos@.contains_key(id as usize),
                |id: nat| self.todos@[id as usize]@,
            ),
            order: self.order@,
            next_id: self.next_id as nat,
        }
    }
}

impl TodoTree {
    /// The view is valid, and the stored count is the number of live items.
    pub closed spec fn wf(&self) -> bool {
        &&& self.order.wf()
        &&& self@.valid()
        &&& self.count == self.order@.len()
    }

    /// A well-formed tree has a valid view.
    pub proof fn lemma_wf_valid(&self)
        requires
            self.wf(),
        ensures
            self@.valid(),
            self@.next_id <= usize::MAX,
            self@.count() <= usize::MAX,
    {
    }

    /// The tree without items.
    pub fn new() -> (tree: TodoTree)
        ensures
            tree.wf(),
            tree@ == TodoTreeView::empty(),
    {
        let tree = TodoTree {
            count: 0,
            todos: HashMap::new(),
            order: OrderIndex::new(),
            next_id: 0,
        };
        assert(tree@.items =~= Map::<nat, TodoView>::empty());
        tree
    }

    /// The number of live items.
    pub fn count(&self) -> (n: usize)
        requires
            self.wf(),
        ensures
            n == self@.count(),
    {
        self.count
    }

    /// The id that the next new item gets.
    pub fn next_id(&self) -> (id: usize)
        ensures
            id == self@.next_id,
    {
        self.next_id
    }

    /// Whether `n` more items can be added before the ids run out.
    pub fn can_add(&self, n: usize) -> (room: bool)
        ensures
            room == (self@.next_id + n <= usize::MAX),
    {
        n <= usize::MAX - self.next_id
    }

    /// Adds one item for each text, in the order given, and returns the
    /// number of live items afterwards.
    pub fn add(&mut self, texts: Vec<String>) -> (count: usize)
        requires
            old(self).wf(),
            old(self)@.next_id + texts.len() <= usize::MAX,
        ensures
            final(self).wf(),
            final(self)@ == old(self)@.add(text_views(texts@)),
            count == final(self)@.count(),
    {
        let ghost start = self@;
        let ghost all = text_views(texts@);
        let ghost given = texts@;
        proof {
            assert(all.take(0) =~= Seq::<Seq<char>>::empty());
            assert(start.add(all.take(0)).items =~= start.items);
            assert(start.add(all.take(0)).order =~= start.order);
        }
        for text in it: texts.into_iter()
            invariant
                it.seq() == given,
                all == text_views(given),
                self.wf(),
                self@ == start.add(all.take(it.index())),
                start.next_id + all.len() <= usize::MAX,
        {
            let ghost before = self@;
            let ghost i = it.index();
            let id = self.next_id;
            proof {
                lemma_count_bounded(before);
                assert forall|k: int| 0 <= k < before.order.len() implies before.order[k] < id by {
                    assert(before.order.contains(before.order[k]));
                }
                lemma_with_id_largest(before.order, id as nat);
                lemma_add_single(before, text@);
                lemma_add_split(start, all.take(i), seq![text@]);
                assert(all.take(i + 1) =~= all.take(i) + seq![text@]);
                lemma_add_valid(before, seq![text@]);
            }
            self.todos.insert(id, Todo::new(id, text));
            self.order.insert(id);
            self.count += 1;
            self.next_id += 1;
            assert(self@.items =~= before.add(seq![text@]).items);
        }
        assert(all.take(all.len() as int) =~= all);
        self.count
    }

    /// Removes the live items whose ids are in `ids`, passes over the other
    /// ids, and returns the number of live items afterwards.
    pub fn remove(&mut self, ids: Vec<usize>) -> (count: usize)
        requires
            old(self).wf(),
        ensures
            final(self).wf(),
            final(self)@ == old(self)@.remove(id_set(ids@)),
            count == final(self)@.count(),
    {
        let ghost start = self@;
        proof {
            assert(id_set(ids@.take(0)) =~= Set::<nat>::empty());
            lemma_remove_nothing(start);
        }
        let mut i: usize = 0;
        while i < ids.len()
            invariant
                i <= ids.len(),
                start.valid(),
                self.wf(),
                self@ == start.remove(id_set(ids@.take(i as int))),
            decreases ids.len() - i,
        {
            let id = ids[i];
            let ghost before = self@;
            let ghost seen = id_set(ids@.take(i as int));
            proof {
                lemma_remove_valid(before, set![id as nat]);
                lemma_remove_single(before, id as nat);
                lemma_remove_split(start, seen, set![id as nat]);
                lemma_id_set_step(ids@, i as int);
            }
            self.todos.remove(&id);
            if self.order.remove(id) {
                self.count -= 1;
            }
            assert(self@.items =~= before.items.remove(id as nat));
            i += 1;
        }
        assert(ids@.take(ids.len() as int) =~= ids@);
        self.count
    }

    /// Flips the completion flag of the item `id` and returns the new flag.
    /// Fails, and changes nothing, where no live item has this id.
    pub fn toggle(&mut self, id: usize) -> (outcome: Result<bool, TodoError>)
        requires
            old(self).wf(),
        ensures
            final(self).wf(),
            match outcome {
                Ok(completed) => {
                    &&& old(self)@.items.contains_key(id as nat)
                    &&& final(self)@ == old(self)@.toggle(id as nat)
                    &&& completed == !old(self)@.items[id as nat].completed
                },
                Err(error) => {
                    &&& !old(self)@.items.contains_key(id as nat)
                    &&& final(self)@ == old(self)@
                    &&& error == TodoError::NotFound(id)
                },
            },
    {
        let ghost before = self@;
        let outcome = match self.todos.entry(id) {
            Entry::Occupied(occupied) => {
                let todo = occupied.into_mut();
                todo.completed = !todo.completed;
                Ok(todo.completed)
            },
            Entry::Vacant(_) => Err(TodoError::NotFound(id)),
        };
        proof {
            if outcome is Ok {
                assert(self@.items =~= before.toggle(id as nat).items);
            } else {
                assert(self@.items =~= before.items);
            }
        }
        outcome
    }

    /// Replaces the text of the item `id` and returns a copy of the item as it
    /// then is. Fails, and changes nothing, where no live item has this id.
    pub fn update_text(&mut self, id: usize, new_text: String) -> (outcome: Result<Todo, TodoError>)
        requires
            old(self).wf(),
        ensures
            final(self).wf(),
            match outcome {
                Ok(todo) => {
                    &&& old(self)@.items.contains_key(id as nat)
                    &&& final(self)@ == old(self)@.update_text(id as nat, new_text@)
                    &&& todo@ == old(self)@.items[id as nat].with_text(new_text@)
                },
                Err(error) => {
                    &&& !old(self)@.items.contains_key(id as nat)
                    &&& final(self)@ == old(self)@
                    &&& error == TodoError::NotFound(id)
                },
            },
    {
        let ghost before = self@;
        let outcome = match self.todos.entry(id) {
            Entry::Occupied(occupied) => {
                let todo = occupied.into_mut();
                todo.text = new_text;
                Ok(todo.clone())
            },
            Entry::Vacant(_) => Err(TodoError::NotFound(id)),
        };
        proof {
            if outcome is Ok {
                assert(self@.items =~= before.update_text(id as nat, new_text@).items);
            } else {
                assert(self@.items =~= before.items);
            }
        }
        outcome
    }

    /// Copies of the items stored under `ids`, in the order of `ids`.
    fn collect(&self, ids: &Vec<usize>) -> (items: Vec<Todo>)
        requires
            self.wf(),
            forall|id: nat| id_views(ids@).contains(id) ==> self@.order.contains(id),
        ensures
            todo_views(items@) == self@.listed(id_views(ids@)),
    {
        let mut items: Vec<Todo> = Vec::new();
        let mut i: usize = 0;
        while i < ids.len()
            invariant
                i <= ids.len(),
                self.wf(),
                forall|id: nat| id_views(ids@).contains(id) ==> self@.order.contains(id),
                todo_views(items@) == self@.listed(id_views(ids@.take(i as int))),
            decreases ids.len() - i,
        {
            let id = ids[i];
            let ghost before = items@;
            proof {
                assert(id_views(ids@)[i as int] == id as nat);
                assert(id_views(ids@).contains(id as nat));
                assert(self@.items.contains_key(id as nat));
            }
            match self.todos.get(&id) {
                Some(todo) => {
                    items.push(todo.clone());
                },
                None => {},
            }
            assert(todo_views(items@) =~= self@.listed(id_views(ids@.take(i + 1)))) by {
                let so_far = self@.listed(id_views(ids@.take(i as int)));
                assert(todo_views(items@) =~= todo_views(before).push(self@.items[id as nat]));
                assert(self@.listed(id_views(ids@.take(i + 1))) =~= so_far.push(
                    self@.items[id as nat],
                ));
            }
            i += 1;
        }
        assert(ids@.take(ids.len() as int) =~= ids@);
        items
    }

    /// Up to `limit` items in ascending id order, after skipping the first
    /// `offset` live items.
    pub fn list_paginated(&self, offset: usize, limit: usize) -> (page: Vec<Todo>)
        requires
            self.wf(),
        ensures
            todo_views(page@) == self@.page(offset as nat, limit as nat),
    {
        let ids = self.order.window(offset, limit);
        proof {
            lemma_window_within(self@.order, offset as nat, limit as nat);
        }
        self.collect(&ids)
    }

    /// The items of the page that follows the cursor `last_id`, found by
    /// probing the order index over windows of growing width.
    pub fn list_paginated_by_cursor(&self, last_id: usize, limit: usize) -> (page: Vec<Todo>)
        requires
            self.wf(),
        ensures
            todo_views(page@) == self@.page_after(last_id as nat, limit as nat),
    {
        let ids = probe_after(&self.order, last_id, limit);
        proof {
            lemma_ids_after_within(self@.order, last_id as nat, limit as nat);
        }
        self.collect(&ids)
    }

    /// The items of the page that follows the cursor `last_id`, found by
    /// walking the order index from the cursor's place.
    pub fn list_paginated_by_walk(&self, last_id: usize, limit: usize) -> (page: Vec<Todo>)
        requires
            self.wf(),
        ensures
            todo_views(page@) == self@.page_after(last_id as nat, limit as nat),
    {
        let ids = walk_after(&self.order, last_id, limit);
        proof {
            lemma_ids_after_within(self@.order, last_id as nat, limit as nat);
        }
        self.collect(&ids)
    }

    /// A copy of the item with this id, if it is live.
    pub fn get(&self, id: usize) -> (item: Option<Todo>)
        requires
            self.wf(),
        ensures
            option_view(item) == self@.get(id as nat),
    {
        match self.todos.get(&id) {
            Some(todo) => Some(todo.clone()),
            None => None,
        }
    }
}

} // verus!
