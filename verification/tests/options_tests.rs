use separating_image::options::get_bool_opt;

#[test]
fn unset_flag_uses_the_default() {
    assert_eq!(get_bool_opt(None, false), false);
    assert_eq!(get_bool_opt(None, true), true);
}

#[test]
fn bare_flag_means_true() {
    assert_eq!(get_bool_opt(Some(None), false), true);
    assert_eq!(get_bool_opt(Some(None), true), true);
}

#[test]
fn explicit_value_wins() {
    assert_eq!(get_bool_opt(Some(Some(false)), true), false);
    assert_eq!(get_bool_opt(Some(Some(true)), false), true);
}
