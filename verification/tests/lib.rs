#[test]
fn it_works() {
    let result = passmogu::add(2, 2);
    assert_eq!(result, 4);
}

#[test]
fn add_at_the_limits() {
    assert_eq!(passmogu::add(0, 0), 0);
    assert_eq!(passmogu::add(u64::MAX, 0), u64::MAX);
    assert_eq!(passmogu::add(u64::MAX - 1, 1), u64::MAX);
    assert_eq!(passmogu::add(3, 4), passmogu::add(4, 3));
}
