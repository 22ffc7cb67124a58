use rsml_cli::guarded_unwrap::GuardedUnwrap;

#[test]
fn an_option_holds_its_value() {
    assert_eq!(Some(3).guarded_unwrap_inner(), Some(3));
    assert_eq!(None::<i32>.guarded_unwrap_inner(), None);
}

#[test]
fn a_result_holds_its_ok_value() {
    let ok: Result<i32, String> = Ok(3);
    let err: Result<i32, String> = Err("no".to_string());
    assert_eq!(ok.guarded_unwrap_inner(), Some(3));
    assert_eq!(err.guarded_unwrap_inner(), None);
}

#[test]
fn references_give_references() {
    let some = Some(3);
    let none: Option<i32> = None;
    assert_eq!((&some).guarded_unwrap_inner(), Some(&3));
    assert_eq!((&none).guarded_unwrap_inner(), None);
    let ok: Result<i32, String> = Ok(4);
    let err: Result<i32, String> = Err("no".to_string());
    assert_eq!((&ok).guarded_unwrap_inner(), Some(&4));
    assert_eq!((&err).guarded_unwrap_inner(), None);
}
