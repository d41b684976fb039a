use starry::BoolArg;

#[test]
fn bool_arg_reads_yes_no_and_auto() {
    assert_eq!(BoolArg::from_arg_value("yes").unwrap().value(), Some(true));
    assert_eq!(BoolArg::from_arg_value("no").unwrap().value(), Some(false));
    assert_eq!(BoolArg::from_arg_value("auto").unwrap().value(), None);
}

#[test]
fn bool_arg_reads_any_case() {
    assert_eq!(BoolArg::from_arg_value("YES").unwrap().value(), Some(true));
    assert_eq!(BoolArg::from_arg_value("No").unwrap().value(), Some(false));
    assert_eq!(BoolArg::from_arg_value("aUtO").unwrap().value(), None);
}

#[test]
fn bool_arg_refuses_other_values() {
    for value in ["", "maybe", "true", "y", " yes", "yes ", "nope"] {
        assert!(BoolArg::from_arg_value(value).is_none());
    }
}

#[test]
fn bool_arg_is_open_by_default() {
    assert_eq!(BoolArg::default().value(), None);
}
