use basic_json_parser::float;

fn samples() -> Vec<f64> {
    let mut out = vec![
        0.0,
        -0.0,
        1.0,
        -1.0,
        0.5,
        -0.5,
        1.5,
        42.0,
        3.14,
        3.14159,
        1.5e10,
        1e15,
        -1e15,
        999_999_999_999_999.0,
        -999_999_999_999_999.0,
        999_999_999_999_999.5,
        1e16,
        1e21,
        1e22,
        1e300,
        1e-7,
        1e-300,
        5e-324,
        f64::MIN_POSITIVE,
        f64::MAX,
        f64::MIN,
        f64::EPSILON,
        f64::NAN,
        -f64::NAN,
        f64::INFINITY,
        f64::NEG_INFINITY,
        4503599627370496.0,
        4503599627370495.5,
        4503599627370497.0,
        9007199254740992.0,
        9007199254740993.0,
        9223372036854775807.0,
        9223372036854775808.0,
        9223372036854774784.0,
        9223372036854777856.0,
        -9223372036854775808.0,
        -9223372036854777856.0,
        18446744073709551615.0,
        18446744073709551616.0,
        18446744073709549568.0,
        36893488147419103232.0,
    ];
    for exponent in 0..2048u64 {
        for fraction in [0u64, 1, 0x8_0000_0000_0000, 0xf_ffff_ffff_ffff, 0x5_5555_0000_0000] {
            out.push(f64::from_bits(exponent << 52 | fraction));
            out.push(f64::from_bits(1 << 63 | exponent << 52 | fraction));
        }
    }
    let mut state: u64 = 0x9e37_79b9_7f4a_7c15;
    for _ in 0..20_000 {
        state = state.wrapping_mul(6364136223846793005).wrapping_add(1442695040888963407);
        out.push(f64::from_bits(state));
        out.push((state >> 11) as f64);
        out.push(-((state >> 40) as f64) / 8.0);
    }
    out
}

fn displayed(fl: f64) -> String {
    if fl.is_nan() {
        format!("null")
    } else if fl.is_infinite() {
        format!("null")
    } else if fl.fract() == 0.0 && fl.abs() < 1e15 {
        format!("{:.0}", fl)
    } else {
        format!("{}", fl)
    }
}

fn converted(f: f64) -> Option<i64> {
    if f.is_finite() && f.fract() == 0.0 {
        let i = f as i64;
        if i as f64 == f {
            Some(i)
        } else {
            None
        }
    } else {
        None
    }
}

#[test]
fn the_kinds_of_bit_patterns() {
    for f in samples() {
        let bits = f.to_bits();
        assert_eq!(float::is_nan(bits), f.is_nan(), "{:?}", f);
        assert_eq!(float::is_infinite(bits), f.is_infinite(), "{:?}", f);
        assert_eq!(float::is_finite(bits), f.is_finite(), "{:?}", f);
    }
}

#[test]
fn whole_numbers_are_those_without_a_fraction() {
    for f in samples() {
        assert_eq!(float::is_whole(f.to_bits()), f.fract() == 0.0, "{:?}", f);
    }
    assert!(float::is_whole(42.0f64.to_bits()));
    assert!(!float::is_whole(3.14f64.to_bits()));
    assert!(!float::is_whole(f64::INFINITY.to_bits()));
}

#[test]
fn the_magnitude_of_a_whole_number() {
    assert_eq!(float::whole_magnitude_u64(0.0f64.to_bits()), Some(0));
    assert_eq!(float::whole_magnitude_u64((-0.0f64).to_bits()), Some(0));
    assert_eq!(float::whole_magnitude_u64(1.0f64.to_bits()), Some(1));
    assert_eq!(float::whole_magnitude_u64((-42.0f64).to_bits()), Some(42));
    assert_eq!(float::whole_magnitude_u64(1e15f64.to_bits()), Some(1_000_000_000_000_000));
    assert_eq!(
        float::whole_magnitude_u64(18446744073709549568.0f64.to_bits()),
        Some(18446744073709549568)
    );
    assert_eq!(float::whole_magnitude_u64(18446744073709551616.0f64.to_bits()), None);
    assert_eq!(float::whole_magnitude_u64(0.5f64.to_bits()), None);
    assert_eq!(float::whole_magnitude_u64(5e-324f64.to_bits()), None);
    assert_eq!(float::whole_magnitude_u64(f64::NAN.to_bits()), None);
    for f in samples() {
        if f.fract() == 0.0 && f.abs() < 18446744073709551616.0 {
            assert_eq!(float::whole_magnitude_u64(f.to_bits()), Some(f.abs() as u64), "{:?}", f);
        } else {
            assert_eq!(float::whole_magnitude_u64(f.to_bits()), None, "{:?}", f);
        }
    }
}

#[test]
fn a_float_as_a_signed_integer() {
    assert_eq!(float::as_i64(42.0f64.to_bits()), Some(42));
    assert_eq!(float::as_i64((-42.0f64).to_bits()), Some(-42));
    assert_eq!(float::as_i64(3.14f64.to_bits()), None);
    assert_eq!(float::as_i64((-0.0f64).to_bits()), Some(0));
    assert_eq!(float::as_i64(9223372036854775808.0f64.to_bits()), Some(i64::MAX));
    assert_eq!(float::as_i64((-9223372036854775808.0f64).to_bits()), Some(i64::MIN));
    assert_eq!(float::as_i64(9223372036854777856.0f64.to_bits()), None);
    assert_eq!(float::as_i64((-9223372036854777856.0f64).to_bits()), None);
    assert_eq!(float::as_i64(f64::NAN.to_bits()), None);
    assert_eq!(float::as_i64(f64::INFINITY.to_bits()), None);
    for f in samples() {
        assert_eq!(float::as_i64(f.to_bits()), converted(f), "{:?}", f);
    }
}

#[test]
fn the_three_forms_of_the_text_of_a_float() {
    let text = |f: f64| float::json_text(f.to_bits(), &format!("{}", f));
    assert_eq!(text(3.14159), "3.14159");
    assert_eq!(text(42.0), "42");
    assert_eq!(text(1.5e10), "15000000000");
    assert_eq!(text(f64::NAN), "null");
    assert_eq!(text(f64::INFINITY), "null");
    assert_eq!(text(f64::NEG_INFINITY), "null");
    assert_eq!(text(-0.0), "-0");
    assert_eq!(text(-7.0), "-7");
    assert_eq!(text(999_999_999_999_999.0), "999999999999999");
    assert_eq!(text(1e15), "1000000000000000");
    assert_eq!(text(1e21), "1000000000000000000000");
    assert_eq!(text(0.1), "0.1");
    assert_eq!(text(1e-7), "0.0000001");
    assert_eq!(float::json_text(1e15f64.to_bits(), "shortest"), "shortest");
    assert_eq!(float::json_text(0.5f64.to_bits(), "shortest"), "shortest");
    assert_eq!(float::json_text(1.0f64.to_bits(), "shortest"), "1");
    assert_eq!(float::json_text(f64::NAN.to_bits(), "shortest"), "null");
    for f in samples() {
        assert_eq!(text(f), displayed(f), "{:?}", f);
    }
}

fn display(num: f64) -> String {
    float::json_text(num.to_bits(), &format!("{}", num))
}

#[test]
fn test_display_float() {
    let num = 3.14159;
    assert_eq!(display(num), "3.14159");

    let whole = 42.0;
    assert_eq!(display(whole), "42");

    let sci = 1.5e10;
    assert_eq!(display(sci), "15000000000");
}

#[test]
fn test_display_special_floats() {
    let nan = f64::NAN;
    assert_eq!(display(nan), "null");

    let inf = f64::INFINITY;
    assert_eq!(display(inf), "null");

    let neg_inf = f64::NEG_INFINITY;
    assert_eq!(display(neg_inf), "null");
}
