use reks::{CompChk, QueryError};

#[test]
fn borrow_of_unregistered_type_is_unknown() {
    let mut chk = CompChk::new();
    assert_eq!(chk.borrow(7), Err(QueryError::UnknownComponent));
    assert_eq!(chk.borrow_mut(7), Err(QueryError::UnknownComponent));
    assert_eq!(chk.state(7), None);
}

#[test]
fn shared_borrows_are_counted() {
    let mut chk = CompChk::new();
    chk.register(1);
    assert_eq!(chk.state(1), Some(0));
    assert_eq!(chk.borrow(1), Ok(()));
    assert_eq!(chk.borrow(1), Ok(()));
    assert_eq!(chk.borrow(1), Ok(()));
    assert_eq!(chk.state(1), Some(3));
}

#[test]
fn exclusive_borrow_needs_a_free_type() {
    let mut chk = CompChk::new();
    chk.register(1);
    chk.register(2);
    assert_eq!(chk.borrow_mut(1), Ok(()));
    assert_eq!(chk.state(1), Some(-1));
    assert_eq!(chk.borrow_mut(1), Err(QueryError::BorrowConflict));
    assert_eq!(chk.borrow(1), Err(QueryError::BorrowConflict));
    assert_eq!(chk.state(1), Some(-1));
    assert_eq!(chk.borrow(2), Ok(()));
    assert_eq!(chk.borrow_mut(2), Err(QueryError::BorrowConflict));
    assert_eq!(chk.state(2), Some(1));
}

#[test]
fn return_all_frees_every_type() {
    let mut chk = CompChk::new();
    chk.register(1);
    chk.register(2);
    chk.register(3);
    chk.borrow_mut(1).unwrap();
    chk.borrow(2).unwrap();
    chk.borrow(2).unwrap();
    chk.return_all();
    assert_eq!(chk.state(1), Some(0));
    assert_eq!(chk.state(2), Some(0));
    assert_eq!(chk.state(3), Some(0));
    assert_eq!(chk.state(4), None);
    assert_eq!(chk.borrow_mut(2), Ok(()));
}

#[test]
fn register_again_frees_the_type() {
    let mut chk = CompChk::new();
    chk.register(1);
    chk.borrow_mut(1).unwrap();
    chk.register(1);
    assert_eq!(chk.state(1), Some(0));
}
