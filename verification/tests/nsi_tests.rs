use nonsmallint::NonSmallInt;

fn nsi(n: u64) -> NonSmallInt {
    NonSmallInt::of(n).unwrap()
}

fn text(v: &NonSmallInt) -> String {
    String::from_utf8(v.to_decimal()).unwrap()
}

#[test]
fn double_sided_iter_digits() {
    let nsi = NonSmallInt::of(654321).unwrap();
    let mut iter = nsi.iter_digits(10);

    assert_eq!(Some(0), iter.next_back());
    assert_eq!(Some(0), iter.next_back());
    assert_eq!(Some(0), iter.next_back());
    assert_eq!(Some(0), iter.next_back());
    assert_eq!(Some(1), iter.next());
    assert_eq!(Some(6), iter.next_back());
    assert_eq!(Some(5), iter.next_back());
    assert_eq!(Some(2), iter.next());
    assert_eq!(Some(3), iter.next());
    assert_eq!(Some(4), iter.next());
    assert_eq!(None, iter.next());
    assert_eq!(None, iter.next_back());

    let mut back = nsi.iter_digits(6);
    let mut reversed: Vec<u8> = Vec::new();
    while let Some(d) = back.next_back() {
        reversed.push(d);
    }
    let reversed_expected: Vec<u8> = (1..=6).rev().collect();
    assert_eq!(reversed, reversed_expected)
}

#[test]
fn zero_has_length_zero_and_renders_as_zero() {
    let z = nsi(0);
    assert_eq!(z.length(10), 0);
    assert!(z.is_zero());
    assert_eq!(text(&z), "0");
}

#[test]
fn construction_is_least_significant_first() {
    let x = nsi(654321);
    assert_eq!(x.digits, vec![1, 2, 3, 4, 5, 6]);
    assert_eq!(x.length(10), 6);
    assert!(!x.is_zero());
}

#[test]
fn counts_length_correctly() {
    assert_eq!(nsi(1).length(10), 1);
    assert_eq!(nsi(9).length(10), 1);
    assert_eq!(nsi(10).length(10), 2);
    assert_eq!(nsi(99).length(10), 2);
    assert_eq!(nsi(100).length(10), 3);
    assert_eq!(nsi(u64::MAX).length(10), format!("{}", u64::MAX).len());
}

#[test]
fn comparison_matches_native_ordering() {
    let pairs: Vec<(u64, u64)> = vec![
        (0, 0),
        (0, 1),
        (1, 0),
        (9, 10),
        (10, 9),
        (654321, 654321),
        (654321, 654322),
        (u64::MAX, u64::MAX - 1),
    ];
    for (a, b) in pairs {
        let x = nsi(a);
        let y = nsi(b);
        assert_eq!(x.lt(&y), a < b, "lt on {} and {}", a, b);
        assert_eq!(y.lt(&x), b < a, "gt on {} and {}", a, b);
        assert_eq!(x.eq_nsi(&y), a == b, "eq on {} and {}", a, b);
    }
}

#[test]
fn equality_ignores_high_order_zeros() {
    let padded = NonSmallInt { digits: vec![1, 2, 3, 0, 0] };
    let trimmed = NonSmallInt { digits: vec![1, 2, 3] };
    assert!(padded.eq_nsi(&trimmed));
    assert_eq!(padded.length(10), 3);
    let zero_padded = NonSmallInt { digits: vec![0, 0, 0] };
    assert!(zero_padded.is_zero());
    assert!(zero_padded.eq_nsi(&nsi(0)));
}

#[test]
fn adds_with_carry() {
    assert!(nsi(1).add_nsi(&nsi(2)).eq_nsi(&nsi(3)));
    assert!(nsi(999).add_nsi(&nsi(1)).eq_nsi(&nsi(1000)));
    assert!(nsi(0).add_nsi(&nsi(0)).eq_nsi(&nsi(0)));
    assert!(nsi(123456789).add_nsi(&nsi(987654321)).eq_nsi(&nsi(1111111110)));
}

#[test]
fn subtracts() {
    assert!(nsi(1000).safe_sub(&nsi(1)).unwrap().eq_nsi(&nsi(999)));
    assert!(nsi(654321).safe_sub(&nsi(654321)).unwrap().eq_nsi(&nsi(0)));
    assert!(nsi(42).safe_sub(&nsi(0)).unwrap().eq_nsi(&nsi(42)));
}

#[test]
fn subtraction_underflows() {
    assert!(nsi(100).safe_sub(&nsi(999)).is_none());
    assert!(nsi(0).safe_sub(&nsi(1)).is_none());
}

#[test]
fn multiplies_by_u32() {
    assert!(nsi(999).mul_u32(999).eq_nsi(&nsi(998001)));
    assert!(nsi(0).mul_u32(12345).eq_nsi(&nsi(0)));
    assert!(nsi(12345).mul_u32(0).eq_nsi(&nsi(0)));
    assert!(nsi(1).mul_u32(u32::MAX).eq_nsi(&nsi(u32::MAX as u64)));
}

#[test]
fn div_by_u32() {
    let (q, r) = nsi(654321).div_u32(1000).unwrap();
    assert!(q.eq_nsi(&nsi(654)));
    assert!(r.eq_nsi(&nsi(321)));
    let (q, r) = nsi(7).div_u32(7).unwrap();
    assert!(q.eq_nsi(&nsi(1)));
    assert!(r.eq_nsi(&nsi(0)));
}

#[test]
fn div_by_u32_zero_divisor() {
    assert!(nsi(654321).div_u32(0).is_none());
}

#[test]
fn division_by_zero_value_is_reported() {
    assert!(nsi(100).div_nsi(&nsi(0)).is_none());
}

#[test]
fn long_division_path() {
    let (q, r) = nsi(100000).div_nsi(&nsi(333)).unwrap();
    assert!(q.eq_nsi(&nsi(300)));
    assert!(r.eq_nsi(&nsi(100)));
}

#[test]
fn full_division_matches_native() {
    let cases: Vec<(u64, u64)> = vec![
        (0, 1),
        (1, 1),
        (100, 7),
        (654321, 17),
        (654321, 654322),
        (999999999999, 999983),
        (u64::MAX, 2),
        (u64::MAX, u64::MAX),
        (123456789012345678, 424242),
    ];
    for (a, b) in cases {
        let (q, r) = nsi(a).div_nsi(&nsi(b)).unwrap();
        assert!(q.eq_nsi(&nsi(a / b)), "quotient of {} / {}", a, b);
        assert!(r.eq_nsi(&nsi(a % b)), "remainder of {} % {}", a, b);
    }
}

#[test]
fn long_division_boundary_leading_digits() {
    // Divisor leading digits at half the radix minus one and at the largest
    // digit exercise the trial-estimate bounds.
    let cases: Vec<(u64, u64)> = vec![
        (99999999, 44),
        (99999999, 49),
        (99999999, 4999),
        (12345678901234567, 400000001),
        (99999999, 99),
        (99999999, 9999),
        (12345678901234567, 999999999),
    ];
    for (a, b) in cases {
        let (q, r) = nsi(a).div_nsi(&nsi(b)).unwrap();
        assert!(q.eq_nsi(&nsi(a / b)), "quotient of {} / {}", a, b);
        assert!(r.eq_nsi(&nsi(a % b)), "remainder of {} % {}", a, b);
    }
}

#[test]
fn division_identity_reconstructs_dividend() {
    let x = nsi(100000);
    let y = 333u32;
    let (q, r) = x.div_nsi(&nsi(y as u64)).unwrap();
    let rebuilt = q.mul_u32(y).add_nsi(&r);
    assert!(rebuilt.eq_nsi(&x));
    assert!(r.lt(&nsi(y as u64)));
}

#[test]
fn division_beyond_native_range() {
    // Build u64::MAX * 1_000_000_007, divide it back down, and check both
    // pieces; the intermediate value exceeds any native oracle.
    let m = 1_000_000_007u32;
    let big = nsi(u64::MAX).mul_u32(m);
    let (q, r) = big.div_nsi(&nsi(m as u64)).unwrap();
    assert!(q.eq_nsi(&nsi(u64::MAX)));
    assert!(r.is_zero());
    let shifted = big.add_nsi(&nsi(42));
    let (q2, r2) = shifted.div_nsi(&nsi(m as u64)).unwrap();
    assert!(q2.eq_nsi(&nsi(u64::MAX)));
    assert!(r2.eq_nsi(&nsi(42)));
}

#[test]
fn displays() {
    assert_eq!(text(&nsi(0)), "0");
    assert_eq!(text(&nsi(7)), "7");
    assert_eq!(text(&nsi(654321)), "654321");
    assert_eq!(text(&nsi(u64::MAX)), format!("{}", u64::MAX));
    let padded = NonSmallInt { digits: vec![1, 0, 0] };
    assert_eq!(text(&padded), "1");
}

#[test]
fn add_operator_agreement() {
    let pairs: Vec<(u64, u64)> = vec![(0, 0), (5, 7), (999999, 1), (u64::MAX / 2, u64::MAX / 2)];
    for (a, b) in pairs {
        assert!(nsi(a).add_nsi(&nsi(b)).eq_nsi(&nsi(a + b)), "{} + {}", a, b);
    }
}

#[test]
fn scalar_multiply_agreement() {
    let cases: Vec<(u64, u32)> = vec![(0, 0), (1, 1), (123, 456), (99999, 100000), (65536, 65536)];
    for (a, b) in cases {
        assert!(nsi(a).mul_u32(b).eq_nsi(&nsi(a * b as u64)), "{} * {}", a, b);
    }
}
