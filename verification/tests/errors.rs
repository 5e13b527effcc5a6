use score_rank::error_handling::{DbError, LockError, ValidationError};

#[test]
fn db_error_keeps_its_message() {
    let e = DbError::new(String::from("connection refused"));
    assert_eq!(e.message, "connection refused");
}

#[test]
fn lock_error_keeps_its_message() {
    let e = LockError::new(String::from("poisoned lock"));
    assert_eq!(e.message, "poisoned lock");
}

#[test]
fn validation_error_keeps_its_message() {
    let e = ValidationError::new(String::from("too many results requested"));
    assert_eq!(e.message, "too many results requested");
}
