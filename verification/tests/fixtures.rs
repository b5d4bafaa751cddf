#[test]
fn valid_code_passes() {
    assert_eq!(workspace_validator::fixtures::pass::add(2, 2), 4);
}

#[test]
fn failing_fixture_adds_like_the_passing_one() {
    assert_eq!(workspace_validator::fixtures::fail::add(2, 2), 4);
}
