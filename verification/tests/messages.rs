use todo_backend::TodoError;

#[test]
fn message_for_a_caller_without_a_list() {
    assert_eq!(TodoError::NoSuchUser.message(), "Todo list for this user not found");
}

#[test]
fn message_for_an_absent_id() {
    assert_eq!(TodoError::NotFound(7).message(), "Todo with id 7 not found");
    assert_eq!(TodoError::NotFound(0).message(), "Todo with id 0 not found");
    assert_eq!(TodoError::NotFound(10).message(), "Todo with id 10 not found");
    assert_eq!(
        TodoError::NotFound(1234567890).message(),
        "Todo with id 1234567890 not found"
    );
}

#[test]
fn message_writes_the_id_as_std_does() {
    for id in [9usize, 99, 100, 101, 4096, 65535, usize::MAX] {
        assert_eq!(TodoError::NotFound(id).message(), format!("Todo with id {} not found", id));
    }
}

#[test]
fn errors_compare_by_variant_and_id() {
    assert_eq!(TodoError::NotFound(3), TodoError::NotFound(3));
    assert_ne!(TodoError::NotFound(3), TodoError::NotFound(4));
    assert_ne!(TodoError::NotFound(0), TodoError::NoSuchUser);
}
