use llrb::order::{compare, Rel};

#[test]
fn compare_tells_how_two_elements_stand() {
    assert_eq!(compare(&1, &2), Rel::Less);
    assert_eq!(compare(&2, &2), Rel::Equal);
    assert_eq!(compare(&3, &2), Rel::Greater);
    assert_eq!(compare(&i32::MIN, &i32::MAX), Rel::Less);
}

#[test]
fn compare_follows_the_order_of_the_type() {
    assert_eq!(compare(&"apple", &"banana"), Rel::Less);
    assert_eq!(compare(&(1, 'b'), &(1, 'a')), Rel::Greater);
    assert_eq!(compare(&Some(0u8), &None), Rel::Greater);
    assert_eq!(compare(&String::from("x"), &String::from("x")), Rel::Equal);
}
