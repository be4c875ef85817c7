use chat_server::luhn::luhn_algorithm;

#[test]
fn luhn_zero() {
    assert!(luhn_algorithm(0));
}

#[test]
fn luhn_small_correct() {
    assert!(luhn_algorithm(5));
    assert!(luhn_algorithm(18));
}

#[test]
fn luhn_small_incorrect() {
    assert!(!luhn_algorithm(10));
}

#[test]
fn luhn_correct() {
    assert!(luhn_algorithm(17893729974));
    assert!(luhn_algorithm(79927398713));
}

#[test]
fn luhn_incorrect() {
    assert!(!luhn_algorithm(17893729975));
    assert!(!luhn_algorithm(17893729976));
    assert!(!luhn_algorithm(17893729977));
    assert!(!luhn_algorithm(123456));
}

#[test]
fn luhn_largest_number() {
    assert!(!luhn_algorithm(u64::MAX));
}
