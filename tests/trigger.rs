use toolkit::trigger::{check_command, Fatal, Outcome};

#[test]
fn empty_command_is_fatal() {
    assert_eq!(check_command(&Vec::new()), Err(Fatal::NoCommand));
    assert_eq!(check_command(&vec!["make".to_string(), "test".to_string()]), Ok(()));
}

#[test]
fn not_found_is_fatal_exit_codes_are_not() {
    assert!(Outcome::NotFound.is_fatal());
    assert_eq!(Outcome::NotFound.fatal_error(), Some(Fatal::CommandNotFound));
    assert!(!Outcome::Completed(Some(1)).is_fatal());
    assert_eq!(Outcome::Completed(Some(1)).fatal_error(), None);
    assert_eq!(Outcome::Completed(None).fatal_error(), None);
}

#[test]
fn success_is_exit_code_zero() {
    assert!(Outcome::Completed(Some(0)).succeeded());
    assert!(!Outcome::Completed(Some(2)).succeeded());
    assert!(!Outcome::Completed(None).succeeded());
    assert!(!Outcome::NotFound.succeeded());
}
