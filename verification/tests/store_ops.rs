use todo_backend::service::{
    add_todos_sync, get_paginated_todos, get_paginated_todos_efficient,
    get_paginated_todos_interview, get_todo_sync, remove_todos_sync, toggle_todo, update_todo_text,
};
use todo_backend::{Caller, Todo, TodoError, TodoTreeStore};

fn caller(bytes: &[u8]) -> Caller {
    Caller::new(bytes.to_vec())
}

fn texts(names: &[&str]) -> Vec<String> {
    names.iter().map(|name| name.to_string()).collect()
}

#[test]
fn callers_compare_by_their_bytes() {
    assert!(caller(&[1, 2, 3]).same(&caller(&[1, 2, 3])));
    assert!(!caller(&[1, 2, 3]).same(&caller(&[1, 2, 4])));
    assert!(!caller(&[1, 2, 3]).same(&caller(&[1, 2])));
    assert!(!caller(&[]).same(&caller(&[0])));
    assert!(caller(&[]).same(&caller(&[])));
    let one = caller(&[9, 8]);
    assert!(one.clone().same(&one));
    assert_eq!(one.clone().as_bytes(), &vec![9u8, 8]);
}

#[test]
fn caller_of_a_principal_keeps_its_bytes() {
    let principal = candid::Principal::from_slice(&[1, 2, 3, 4, 5]);
    let made = Caller::new(principal.as_slice().to_vec());
    assert_eq!(made.as_bytes().as_slice(), principal.as_slice());
    let other = candid::Principal::management_canister();
    assert!(!made.same(&Caller::new(other.as_slice().to_vec())));
}

#[test]
fn reads_for_an_unknown_caller_are_empty() {
    let store = TodoTreeStore::new();
    let nobody = caller(&[7]);
    assert!(store.get(&nobody).is_none());
    assert!(get_todo_sync(&store, &nobody, 0).is_none());
    assert!(get_paginated_todos(&store, &nobody, 0, 10).is_empty());
    assert!(get_paginated_todos_efficient(&store, &nobody, 0, 10).is_empty());
    assert!(get_paginated_todos_interview(&store, &nobody, 0, 10).is_empty());
}

#[test]
fn first_add_makes_the_tree() {
    let mut store = TodoTreeStore::new();
    let alice = caller(&[1]);
    assert_eq!(add_todos_sync(&mut store, &alice, texts(&["a", "b"])), 2);
    let tree = store.get(&alice).unwrap();
    assert_eq!(tree.count(), 2);
    assert_eq!(tree.next_id(), 2);
}

#[test]
fn add_of_nothing_still_makes_the_tree() {
    let mut store = TodoTreeStore::new();
    let alice = caller(&[1]);
    assert_eq!(add_todos_sync(&mut store, &alice, Vec::new()), 0);
    assert!(store.get(&alice).is_some());
    assert_eq!(toggle_todo(&mut store, &alice, 0), Err(TodoError::NotFound(0)));
}

#[test]
fn remove_for_an_unknown_caller_returns_zero_and_makes_no_tree() {
    let mut store = TodoTreeStore::new();
    let nobody = caller(&[7]);
    assert_eq!(remove_todos_sync(&mut store, &nobody, vec![0, 1]), 0);
    assert!(store.get(&nobody).is_none());
    assert_eq!(toggle_todo(&mut store, &nobody, 0), Err(TodoError::NoSuchUser));
}

#[test]
fn callers_do_not_see_each_other() {
    let mut store = TodoTreeStore::new();
    let alice = caller(&[1]);
    let bob = caller(&[1, 0]);
    add_todos_sync(&mut store, &alice, texts(&["alice 0", "alice 1"]));
    add_todos_sync(&mut store, &bob, texts(&["bob 0"]));

    assert_eq!(get_todo_sync(&store, &alice, 0).unwrap().text, "alice 0");
    assert_eq!(get_todo_sync(&store, &bob, 0).unwrap().text, "bob 0");
    assert!(get_todo_sync(&store, &bob, 1).is_none());

    assert_eq!(remove_todos_sync(&mut store, &bob, vec![0, 1]), 0);
    assert_eq!(get_paginated_todos(&store, &alice, 0, 10).len(), 2);
    assert_eq!(toggle_todo(&mut store, &alice, 1), Ok(true));
    assert_eq!(add_todos_sync(&mut store, &bob, texts(&["bob 1"])), 1);
    assert_eq!(get_todo_sync(&store, &bob, 1).unwrap().text, "bob 1");
    assert!(!get_todo_sync(&store, &bob, 1).unwrap().completed);
}

#[test]
fn get_or_create_hands_out_the_callers_tree() {
    let mut store = TodoTreeStore::new();
    let alice = caller(&[1]);
    assert_eq!(store.get_or_create(&alice).count(), 0);
    store.get_or_create(&alice).add(texts(&["a"]));
    assert_eq!(store.get_or_create(&alice).count(), 1);
    assert_eq!(store.get(&alice).unwrap().get(0).unwrap().text, "a");
    assert!(store.get_mut(&caller(&[2])).is_none());
    store.get_mut(&alice).unwrap().toggle(0).unwrap();
    assert!(store.get(&alice).unwrap().get(0).unwrap().completed);
}

#[test]
fn update_through_the_store() {
    let mut store = TodoTreeStore::new();
    let alice = caller(&[1]);
    assert_eq!(
        update_todo_text(&mut store, &alice, 0, "x".to_string()),
        Err(TodoError::NoSuchUser)
    );
    add_todos_sync(&mut store, &alice, texts(&["a", "b"]));
    assert_eq!(
        update_todo_text(&mut store, &alice, 1, "better".to_string()),
        Ok(Todo { id: 1, text: "better".to_string(), completed: false })
    );
    assert_eq!(
        update_todo_text(&mut store, &alice, 2, "x".to_string()),
        Err(TodoError::NotFound(2))
    );
    assert_eq!(get_todo_sync(&store, &alice, 1).unwrap().text, "better");
    assert_eq!(get_todo_sync(&store, &alice, 0).unwrap().text, "a");
}

#[test]
fn toggle_through_the_store() {
    let mut store = TodoTreeStore::new();
    let alice = caller(&[1]);
    add_todos_sync(&mut store, &alice, texts(&["a"]));
    assert_eq!(toggle_todo(&mut store, &alice, 0), Ok(true));
    assert_eq!(toggle_todo(&mut store, &alice, 0), Ok(false));
    assert_eq!(toggle_todo(&mut store, &alice, 0), Ok(true));
    assert!(get_todo_sync(&store, &alice, 0).unwrap().completed);
}

#[test]
fn the_three_listings_through_the_store() {
    let mut store = TodoTreeStore::new();
    let alice = caller(&[1]);
    add_todos_sync(&mut store, &alice, (0..9).map(|i| format!("t{}", i)).collect());
    remove_todos_sync(&mut store, &alice, vec![2, 3, 4]);

    let by_offset: Vec<usize> =
        get_paginated_todos(&store, &alice, 1, 3).iter().map(|t| t.id).collect();
    assert_eq!(by_offset, vec![1, 5, 6]);
    let by_probe: Vec<usize> =
        get_paginated_todos_efficient(&store, &alice, 1, 3).iter().map(|t| t.id).collect();
    assert_eq!(by_probe, vec![5, 6, 7]);
    let by_walk: Vec<usize> =
        get_paginated_todos_interview(&store, &alice, 1, 3).iter().map(|t| t.id).collect();
    assert_eq!(by_walk, vec![5, 6, 7]);
}

#[test]
fn many_callers_keep_their_own_counts() {
    let mut store = TodoTreeStore::new();
    for who in 0..20u8 {
        let id = caller(&[who, who]);
        for _ in 0..who {
            add_todos_sync(&mut store, &id, texts(&["x"]));
        }
    }
    for who in 1..20u8 {
        let id = caller(&[who, who]);
        assert_eq!(store.get(&id).unwrap().count(), who as usize);
    }
    assert!(store.get(&caller(&[0, 0])).is_none());
}
