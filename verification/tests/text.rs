use jsonstat::text::{push_int, push_nat};

#[test]
fn push_nat_writes_decimal_digits() {
    for n in [0u64, 1, 9, 10, 11, 99, 100, 101, 12345, 1_000_000, u64::MAX, u64::MAX - 1] {
        let mut out = String::new();
        push_nat(&mut out, n);
        assert_eq!(out, n.to_string());
    }
    let mut out = String::from("n=");
    push_nat(&mut out, 407);
    push_nat(&mut out, 0);
    assert_eq!(out, "n=4070");
}

#[test]
fn push_int_writes_the_sign() {
    for i in [0i64, 1, -1, 9, -9, 10, -10, 12345, -12345, i64::MAX, i64::MIN, i64::MIN + 1] {
        let mut out = String::new();
        push_int(&mut out, i);
        assert_eq!(out, i.to_string());
    }
    let mut out = String::from("i=");
    push_int(&mut out, -42);
    assert_eq!(out, "i=-42");
}
