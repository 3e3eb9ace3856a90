#[test]
fn test_add() {
    assert_eq!(per::add(2, 3), 5);
}
