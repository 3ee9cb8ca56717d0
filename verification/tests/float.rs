use jsonstat::float::float_as_integer;
use jsonstat::scalar::Scalar;
use jsonstat::FloatNumber;

fn float(x: f64) -> FloatNumber {
    FloatNumber::new(x.to_bits(), &serde_json::Value::from(x).to_string())
}

// What the number is as an integer, computed with floating-point arithmetic.
fn expected_integer(x: f64) -> Option<i64> {
    let limit = 9223372036854775808.0f64;
    if x.is_finite() && x.fract() == 0.0 && x >= -limit && x < limit {
        Some(x as i64)
    } else {
        None
    }
}

fn samples() -> Vec<f64> {
    let mut xs = vec![
        0.0,
        -0.0,
        1.0,
        -1.0,
        3.0,
        0.5,
        -0.5,
        1.5,
        2.0,
        100.0,
        1e2,
        1e15,
        1e16,
        1e18,
        1e19,
        -1e19,
        1e30,
        1e300,
        -1e300,
        1e-300,
        5e-324,
        -5e-324,
        2.2250738585072014e-308,
        f64::MAX,
        f64::MIN,
        f64::MIN_POSITIVE,
        f64::EPSILON,
        f64::INFINITY,
        f64::NEG_INFINITY,
        f64::NAN,
        4503599627370496.0,
        4503599627370496.5,
        4503599627370495.5,
        9007199254740992.0,
        9007199254740993.0,
        9223372036854775807.0,
        9223372036854775808.0,
        -9223372036854775808.0,
        -9223372036854777856.0,
        9223372036854774784.0,
        -9223372036854774784.0,
        1024.0,
        1023.9999999999999,
        0.1,
        0.30000000000000004,
        123456789.0,
        123456789.125,
        -42.0,
        -42.000000000000007,
    ];
    // Powers of two and their neighbours, on both sides of zero.
    let mut p = 1.0f64;
    for _ in 0..70 {
        xs.push(p);
        xs.push(-p);
        xs.push(p + 1.0);
        xs.push(p - 1.0);
        xs.push(p * 1.5);
        xs.push(1.0 / p);
        p *= 2.0;
    }
    xs
}

#[test]
fn float_as_integer_agrees_with_floating_point_arithmetic() {
    for x in samples() {
        assert_eq!(float_as_integer(x.to_bits()), expected_integer(x), "{:e}", x);
    }
}

#[test]
fn float_as_integer_exact_values() {
    assert_eq!(float_as_integer(3.0f64.to_bits()), Some(3));
    assert_eq!(float_as_integer(0x4008_0000_0000_0000), Some(3));
    assert_eq!(float_as_integer((-0.0f64).to_bits()), Some(0));
    assert_eq!(float_as_integer(0), Some(0));
    assert_eq!(float_as_integer(1.5f64.to_bits()), None);
    assert_eq!(float_as_integer((-9223372036854775808.0f64).to_bits()), Some(i64::MIN));
    assert_eq!(float_as_integer(9223372036854775808.0f64.to_bits()), None);
    assert_eq!(float_as_integer(9223372036854774784.0f64.to_bits()), Some(9223372036854774784));
    assert_eq!(float_as_integer(9007199254740992.0f64.to_bits()), Some(1 << 53));
    assert_eq!(float_as_integer(f64::INFINITY.to_bits()), None);
    assert_eq!(float_as_integer(f64::NAN.to_bits()), None);
    assert_eq!(float_as_integer(5e-324f64.to_bits()), None);
    assert_eq!(float_as_integer(1), None);
    assert_eq!(float_as_integer(u64::MAX), None);
}

#[test]
fn rank_orders_as_the_values_do() {
    let xs: Vec<f64> = samples().into_iter().filter(|x| !x.is_nan()).collect();
    for a in &xs {
        for b in &xs {
            let ra = float(*a).rank();
            let rb = float(*b).rank();
            if a < b {
                assert!(ra < rb, "{:e} {:e}", a, b);
            }
            if a.to_bits() == b.to_bits() {
                assert_eq!(ra, rb);
            } else {
                assert_ne!(ra, rb);
            }
        }
    }
    assert_eq!(float(0.0).rank(), 0);
    assert_eq!(float(-0.0).rank(), -1);
    assert_eq!(FloatNumber::new(u64::MAX, "NaN").rank(), i64::MIN);
    assert_eq!(FloatNumber::new(0x7FFF_FFFF_FFFF_FFFF, "NaN").rank(), i64::MAX);
    assert_eq!(float(1.0).rank(), 0x3FF0_0000_0000_0000);
}

#[test]
fn less_orders_floats_and_breaks_ties_by_text() {
    assert!(float(1.5).less(&float(2.5)));
    assert!(!float(2.5).less(&float(1.5)));
    assert!(!float(2.5).less(&float(2.5)));
    assert!(float(-2.5).less(&float(-1.5)));
    assert!(float(-1e300).less(&float(1e-300)));
    assert!(float(-0.0).less(&float(0.0)));
    assert!(!float(0.0).less(&float(-0.0)));
    let a = FloatNumber::new(7, "a");
    let b = FloatNumber::new(7, "b");
    assert!(a.less(&b));
    assert!(!b.less(&a));
    assert!(!a.less(&a));
}

#[test]
fn float_scalar_parts() {
    let zero = <FloatNumber as Scalar>::zero();
    assert_eq!(zero.bits, 0);
    assert_eq!(zero.text, "0.0");
    let x = float(-12.75);
    let y = Scalar::duplicate(&x);
    assert_eq!(y.bits, x.bits);
    assert_eq!(y.text, "-12.75");
    let mut out = String::from("[");
    x.write(&mut out);
    assert_eq!(out, "[-12.75");
}
