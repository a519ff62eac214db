use todo_backend::TodoTree;

fn tree_with(count: usize, removed: &[usize]) -> TodoTree {
    let mut tree = TodoTree::new();
    tree.add((0..count).map(|i| format!("item {}", i)).collect());
    tree.remove(removed.to_vec());
    tree
}

fn ids(page: Vec<todo_backend::Todo>) -> Vec<usize> {
    page.into_iter().map(|todo| todo.id).collect()
}

#[test]
fn offset_page_in_the_middle() {
    let tree = tree_with(10, &[]);
    assert_eq!(ids(tree.list_paginated(3, 4)), vec![3, 4, 5, 6]);
}

#[test]
fn offset_counts_live_items() {
    let tree = tree_with(10, &[0, 1, 4]);
    assert_eq!(ids(tree.list_paginated(0, 3)), vec![2, 3, 5]);
    assert_eq!(ids(tree.list_paginated(2, 3)), vec![5, 6, 7]);
}

#[test]
fn offset_page_at_the_end_is_short() {
    let tree = tree_with(5, &[]);
    assert_eq!(ids(tree.list_paginated(3, 10)), vec![3, 4]);
    assert_eq!(ids(tree.list_paginated(4, usize::MAX)), vec![4]);
}

#[test]
fn offset_at_or_past_the_end_gives_nothing() {
    let tree = tree_with(5, &[]);
    assert!(tree.list_paginated(5, 10).is_empty());
    assert!(tree.list_paginated(6, 10).is_empty());
    assert!(tree.list_paginated(usize::MAX, usize::MAX).is_empty());
}

#[test]
fn limit_zero_gives_nothing() {
    let tree = tree_with(5, &[]);
    assert!(tree.list_paginated(0, 0).is_empty());
    assert!(tree.list_paginated_by_cursor(0, 0).is_empty());
    assert!(tree.list_paginated_by_cursor(2, 0).is_empty());
    assert!(tree.list_paginated_by_walk(2, 0).is_empty());
}

#[test]
fn pages_carry_the_items() {
    let mut tree = tree_with(4, &[1]);
    tree.toggle(2).unwrap();
    let page = tree.list_paginated_by_cursor(0, 2);
    assert_eq!(page.len(), 2);
    assert_eq!(page[0].id, 0);
    assert_eq!(page[0].text, "item 0");
    assert!(!page[0].completed);
    assert_eq!(page[1].id, 2);
    assert_eq!(page[1].text, "item 2");
    assert!(page[1].completed);
}

#[test]
fn cursor_zero_starts_at_id_zero() {
    let tree = tree_with(6, &[]);
    assert_eq!(ids(tree.list_paginated_by_cursor(0, 3)), vec![0, 1, 2]);
    assert_eq!(ids(tree.list_paginated_by_walk(0, 3)), vec![0, 1, 2]);
}

#[test]
fn cursor_is_not_part_of_its_page() {
    let tree = tree_with(6, &[]);
    assert_eq!(ids(tree.list_paginated_by_cursor(2, 3)), vec![3, 4, 5]);
    assert_eq!(ids(tree.list_paginated_by_cursor(1, 2)), vec![2, 3]);
}

#[test]
fn cursor_may_be_a_removed_id() {
    let tree = tree_with(8, &[3, 4]);
    assert_eq!(ids(tree.list_paginated_by_cursor(3, 2)), vec![5, 6]);
    assert_eq!(ids(tree.list_paginated_by_cursor(4, 10)), vec![5, 6, 7]);
}

#[test]
fn cursor_at_or_past_the_largest_id_gives_nothing() {
    let tree = tree_with(5, &[]);
    assert!(tree.list_paginated_by_cursor(4, 3).is_empty());
    assert!(tree.list_paginated_by_cursor(5, 3).is_empty());
    assert!(tree.list_paginated_by_cursor(usize::MAX, 3).is_empty());
    assert!(tree.list_paginated_by_cursor(usize::MAX - 1, usize::MAX).is_empty());
}

#[test]
fn cursor_on_an_empty_tree_gives_nothing() {
    let tree = TodoTree::new();
    assert!(tree.list_paginated_by_cursor(0, 5).is_empty());
    assert!(tree.list_paginated_by_walk(0, 5).is_empty());
    let emptied = tree_with(3, &[0, 1, 2]);
    assert!(emptied.list_paginated_by_cursor(0, 5).is_empty());
}

#[test]
fn cursor_page_of_the_largest_limit() {
    let tree = tree_with(5, &[2]);
    assert_eq!(ids(tree.list_paginated_by_cursor(0, usize::MAX)), vec![0, 1, 3, 4]);
    assert_eq!(ids(tree.list_paginated_by_cursor(1, usize::MAX)), vec![3, 4]);
}

#[test]
fn probing_goes_on_after_an_empty_window() {
    let removed: Vec<usize> = (1..1000).collect();
    let tree = tree_with(1002, &removed);
    assert_eq!(ids(tree.list_paginated_by_cursor(0, 2)), vec![0, 1000]);
    assert_eq!(ids(tree.list_paginated_by_cursor(0, 3)), vec![0, 1000, 1001]);
    assert_eq!(ids(tree.list_paginated_by_cursor(1, 1)), vec![1000]);
    assert_eq!(ids(tree.list_paginated_by_cursor(500, 5)), vec![1000, 1001]);
}

#[test]
fn probing_returns_no_id_twice() {
    let tree = tree_with(8, &[1, 2, 4, 5, 6]);
    assert_eq!(ids(tree.list_paginated_by_cursor(0, 3)), vec![0, 3, 7]);
}

#[test]
fn first_pages_agree_without_gaps() {
    let tree = tree_with(20, &[]);
    for limit in 0..25 {
        assert_eq!(
            ids(tree.list_paginated(0, limit)),
            ids(tree.list_paginated_by_cursor(0, limit))
        );
    }
}

#[test]
fn first_pages_agree_with_gaps() {
    let tree = tree_with(40, &[0, 3, 4, 5, 6, 7, 8, 20, 21, 22, 23, 24, 25, 26, 27, 28, 39]);
    for limit in 0..30 {
        assert_eq!(
            ids(tree.list_paginated(0, limit)),
            ids(tree.list_paginated_by_cursor(0, limit))
        );
    }
}

#[test]
fn probing_and_walking_agree() {
    let tree = tree_with(60, &[1, 2, 3, 10, 11, 30, 31, 32, 33, 34, 35, 36, 37, 38, 39, 40, 59]);
    for last_id in 0..62 {
        for limit in 0..8 {
            assert_eq!(
                ids(tree.list_paginated_by_cursor(last_id, limit)),
                ids(tree.list_paginated_by_walk(last_id, limit))
            );
        }
    }
}

#[test]
fn cursor_pages_chain_through_the_whole_list() {
    let tree = tree_with(30, &[4, 5, 6, 7, 8, 9, 10, 11, 12, 20, 29]);
    let mut seen: Vec<usize> = Vec::new();
    let mut page = ids(tree.list_paginated_by_cursor(0, 4));
    while let Some(last) = page.last().copied() {
        seen.extend(page);
        page = ids(tree.list_paginated_by_cursor(last, 4));
    }
    assert_eq!(seen, ids(tree.list_paginated(0, usize::MAX)));
}
