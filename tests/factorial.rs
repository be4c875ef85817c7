use chat_server::factorial::factorial;

#[test]
fn factorial_0() {
    assert_eq!(factorial(0), 1);
}

#[test]
fn factorial_1() {
    assert_eq!(factorial(1), 1);
}

#[test]
fn factorial_2() {
    assert_eq!(factorial(2), 2);
}

#[test]
fn factorial_5() {
    assert_eq!(factorial(5), 120);
}

#[test]
fn factorial_largest_that_fits() {
    assert_eq!(factorial(12), 479001600);
}
