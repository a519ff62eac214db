//! The to-do item and its mathematical view.

use vstd::prelude::*;

verus! {

/// One to-do item. `id` is fixed when the item is created; `text` and
/// `completed` may change afterwards.
#[derive(Debug, PartialEq, Eq)]
pub struct Todo {
    pub id: usize,
    pub text: String,
    pub completed: bool,
}

/// What a [`Todo`] stands for: its id as a natural number, its text as a
/// sequence of characters, and its completion flag.
pub struct TodoView {
    pub id: nat,
    pub text: Seq<char>,
    pub completed: bool,
}

impl TodoView {
    /// The item that an add creates for `text` under `id`: not yet completed.
    pub open spec fn fresh(id: nat, text: Seq<char>) -> TodoView {
        TodoView { id, text, completed: false }
    }

    /// This item with its completion flag flipped.
    pub open spec fn toggled(self) -> TodoView {
        TodoView { completed: !self.completed, ..self }
    }

    /// This item with `text` in place of its text.
    pub open spec fn with_text(self, text: Seq<char>) -> TodoView {
        TodoView { text, ..self }
    }
}

impl View for Todo {
    type V = TodoView;

    open spec fn view(&self) -> TodoView {
        TodoView { id: self.id as nat, text: self.text@, completed: self.completed }
    }
}

impl Todo {
    /// A new, not yet completed item.
    pub fn new(id: usize, text: String) -> (todo: Todo)
        ensures
            todo@ == TodoView::fresh(id as nat, text@),
    {
        Todo { id, text, completed: false }
    }

}

impl Clone for Todo {
    /// A copy of this item, equal to it field by field.
    fn clone(&self) -> (copy: Todo)
        ensures
            copy == *self,
    {
        Todo { id: self.id, text: self.text.clone(), completed: self.completed }
    }
}

/// The views of a sequence of items, in the same order.
pub open spec fn todo_views(items: Seq<Todo>) -> Seq<TodoView> {
    items.map_values(|t: Todo| t@)
}

/// The character sequences of a sequence of strings, in the same order.
pub open spec fn text_views(texts: Seq<String>) -> Seq<Seq<char>> {
    texts.map_values(|s: String| s@)
}

/// The view of an item that may be absent.
pub open spec fn option_view(item: Option<Todo>) -> Option<TodoView> {
    match item {
        Some(todo) => Some(todo@),
        None => None,
    }
}

} // verus!
