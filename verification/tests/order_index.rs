use todo_backend::OrderIndex;

fn index_of(ids: &[usize]) -> OrderIndex {
    let mut index = OrderIndex::new();
    for id in ids {
        index.insert(*id);
    }
    index
}

fn all(index: &OrderIndex) -> Vec<usize> {
    index.window(0, usize::MAX)
}

#[test]
fn insert_keeps_the_ids_ascending() {
    let index = index_of(&[5, 1, 9, 3, 7]);
    assert_eq!(all(&index), vec![1, 3, 5, 7, 9]);
    assert_eq!(index.len(), 5);
    assert_eq!(index.nth(0), 1);
    assert_eq!(index.nth(4), 9);
}

#[test]
fn insert_tells_whether_the_id_was_new() {
    let mut index = OrderIndex::new();
    assert!(index.insert(4));
    assert!(!index.insert(4));
    assert!(index.insert(0));
    assert!(index.insert(usize::MAX));
    assert!(!index.insert(usize::MAX));
    assert_eq!(all(&index), vec![0, 4, usize::MAX]);
}

#[test]
fn remove_tells_whether_the_id_was_there() {
    let mut index = index_of(&[1, 2, 3]);
    assert!(index.remove(2));
    assert!(!index.remove(2));
    assert!(!index.remove(7));
    assert_eq!(all(&index), vec![1, 3]);
    assert!(index.remove(1));
    assert!(index.remove(3));
    assert_eq!(index.len(), 0);
    assert!(!index.remove(3));
}

#[test]
fn contains_and_rank() {
    let index = index_of(&[10, 20, 30]);
    assert!(index.contains(20));
    assert!(!index.contains(25));
    assert!(!index.contains(0));
    assert_eq!(index.rank(0), 0);
    assert_eq!(index.rank(10), 0);
    assert_eq!(index.rank(11), 1);
    assert_eq!(index.rank(30), 2);
    assert_eq!(index.rank(31), 3);
    assert_eq!(OrderIndex::new().rank(5), 0);
}

#[test]
fn range_includes_both_ends() {
    let index = index_of(&[1, 3, 5, 7, 9]);
    assert_eq!(index.range(3, 7), vec![3, 5, 7]);
    assert_eq!(index.range(4, 6), vec![5]);
    assert_eq!(index.range(0, usize::MAX), vec![1, 3, 5, 7, 9]);
    assert_eq!(index.range(9, 9), vec![9]);
    assert!(index.range(10, 20).is_empty());
    assert!(index.range(8, 8).is_empty());
}

#[test]
fn range_with_ends_the_wrong_way_round_is_empty() {
    let index = index_of(&[1, 3, 5]);
    assert!(index.range(5, 1).is_empty());
    assert!(index.range(4, 3).is_empty());
}

#[test]
fn window_skips_and_takes() {
    let index = index_of(&[2, 4, 6, 8]);
    assert_eq!(index.window(1, 2), vec![4, 6]);
    assert_eq!(index.window(3, 5), vec![8]);
    assert!(index.window(4, 5).is_empty());
    assert!(index.window(9, 1).is_empty());
    assert!(index.window(0, 0).is_empty());
}

#[test]
fn probing_and_walking_over_a_bare_index() {
    let index = index_of(&[0, 1, 2, 3, 4, 6, 10, 11]);
    assert_eq!(todo_backend::cursor::probe_after(&index, 5, 3), vec![6, 10, 11]);
    assert_eq!(todo_backend::cursor::walk_after(&index, 5, 3), vec![6, 10, 11]);
    assert_eq!(todo_backend::cursor::probe_after(&index, 0, 2), vec![0, 1]);
    assert_eq!(todo_backend::cursor::probe_after(&index, 11, 2), Vec::<usize>::new());
}

#[test]
fn probing_an_index_that_reaches_the_largest_integer() {
    let index = index_of(&[0, 5, usize::MAX - 1, usize::MAX]);
    assert_eq!(
        todo_backend::cursor::probe_after(&index, 0, 10),
        vec![0, 5, usize::MAX - 1, usize::MAX]
    );
    assert_eq!(
        todo_backend::cursor::probe_after(&index, 5, 1),
        vec![usize::MAX - 1]
    );
    assert_eq!(
        todo_backend::cursor::probe_after(&index, usize::MAX - 1, 4),
        vec![usize::MAX]
    );
    assert!(todo_backend::cursor::probe_after(&index, usize::MAX, 4).is_empty());
    assert_eq!(
        todo_backend::cursor::walk_after(&index, usize::MAX - 1, 4),
        vec![usize::MAX]
    );
}
