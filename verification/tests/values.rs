use moonrust::interpreter::ASTExecError;
use moonrust::interpreter::LuaVal;
use moonrust::interpreter::LuaValue;

fn integer<'a>(i: i64) -> LuaValue<'a> {
    LuaValue::new(LuaVal::LuaNum(i.to_be_bytes(), false))
}

fn float<'a>(f: f64) -> LuaValue<'a> {
    LuaValue::new(LuaVal::LuaNum(f.to_be_bytes(), true))
}

fn text<'a>(s: &str) -> LuaValue<'a> {
    LuaValue::new(LuaVal::LuaString(s.to_string()))
}

fn nil<'a>() -> LuaValue<'a> {
    LuaValue::new(LuaVal::LuaNil)
}

fn boolean<'a>(b: bool) -> LuaValue<'a> {
    LuaValue::new(LuaVal::LuaBool(b))
}

#[test]
fn only_nil_and_false_are_false() {
    assert!(nil().is_false());
    assert!(boolean(false).is_false());
    assert!(!nil().is_true());
    assert!(!boolean(false).is_true());
    for v in [
        boolean(true),
        integer(0),
        float(0.0),
        integer(-1),
        text(""),
        text("false"),
        LuaValue::new(LuaVal::LuaTable(0)),
        LuaValue::new(LuaVal::Print),
        LuaValue::new(LuaVal::Read),
        LuaValue::new(LuaVal::Random),
    ] {
        assert!(v.is_true());
        assert!(!v.is_false());
    }
}

#[test]
fn tag_tests() {
    assert!(integer(1).is_numeral());
    assert!(float(1.5).is_numeral());
    assert!(!text("1").is_numeral());
    assert!(text("1").is_string());
    assert!(!integer(1).is_string());
    assert!(nil().is_nil());
    assert!(!boolean(false).is_nil());
}

#[test]
fn sign_tests() {
    assert!(integer(0).is_zero());
    assert!(float(0.0).is_zero());
    assert!(float(-0.0).is_zero());
    assert!(!integer(3).is_zero());
    assert!(!float(f64::NAN).is_zero());
    assert!(!text("0").is_zero());
    assert!(integer(3).is_positive());
    assert!(float(0.25).is_positive());
    assert!(float(f64::INFINITY).is_positive());
    assert!(!float(0.0).is_positive());
    assert!(!float(f64::NAN).is_positive());
    assert!(!integer(-3).is_positive());
    assert!(!nil().is_positive());
    assert!(integer(-3).is_negative());
    assert!(float(-0.25).is_negative());
    assert!(float(f64::NEG_INFINITY).is_negative());
    assert!(!float(-0.0).is_negative());
    assert!(!float(-f64::NAN).is_negative());
    assert!(!integer(3).is_negative());
    assert!(!boolean(true).is_negative());
}

#[test]
fn greater_or_equal_rounds_floats_down() {
    assert_eq!(integer(5).is_greater_or_equal(5), Ok::<bool, String>(true).map_err(ASTExecError));
    assert!(integer(5).is_greater_or_equal(5).unwrap());
    assert!(!integer(4).is_greater_or_equal(5).unwrap());
    assert!(!float(4.9).is_greater_or_equal(5).unwrap());
    assert!(float(5.0).is_greater_or_equal(5).unwrap());
    assert!(float(5.9).is_greater_or_equal(5).unwrap());
    assert!(!float(-4.1).is_greater_or_equal(-4).unwrap());
    assert!(float(-4.1).is_greater_or_equal(-5).unwrap());
    assert!(float(1e300).is_greater_or_equal(i64::MAX).unwrap());
    assert!(float(f64::INFINITY).is_greater_or_equal(i64::MAX).unwrap());
    assert!(!float(f64::NEG_INFINITY).is_greater_or_equal(i64::MIN + 1).unwrap());
    assert!(float(f64::NAN).is_greater_or_equal(0).unwrap());
    assert!(!float(f64::NAN).is_greater_or_equal(1).unwrap());
    assert!(float(0.5).is_greater_or_equal(0).unwrap());
    assert!(!float(-0.5).is_greater_or_equal(0).unwrap());
    assert!(float(4503599627370495.5).is_greater_or_equal(4503599627370495).unwrap());
    assert!(!float(4503599627370495.5).is_greater_or_equal(4503599627370496).unwrap());
}

#[test]
fn less_or_equal_rounds_floats_up() {
    assert!(integer(5).is_less_or_equal(5).unwrap());
    assert!(!integer(6).is_less_or_equal(5).unwrap());
    assert!(!float(5.1).is_less_or_equal(5).unwrap());
    assert!(float(5.0).is_less_or_equal(5).unwrap());
    assert!(float(4.1).is_less_or_equal(5).unwrap());
    assert!(float(-4.9).is_less_or_equal(-4).unwrap());
    assert!(!float(-4.9).is_less_or_equal(-5).unwrap());
    assert!(float(-1e300).is_less_or_equal(i64::MIN).unwrap());
    assert!(!float(0.5).is_less_or_equal(0).unwrap());
    assert!(float(-0.5).is_less_or_equal(0).unwrap());
    assert!(float(5e-324).is_less_or_equal(1).unwrap());
    assert!(!float(5e-324).is_less_or_equal(0).unwrap());
}

#[test]
fn comparing_a_string_with_a_number_fails() {
    let e = text("5").is_greater_or_equal(5).unwrap_err();
    assert_eq!(e.0, "Cannot compare values (types cannot be compared)");
    let e = text("5").is_less_or_equal(5).unwrap_err();
    assert_eq!(e.0, "Cannot compare values (types cannot be compared)");
    assert!(nil().is_greater_or_equal(0).is_err());
}

#[test]
fn negate_bool_is_for_booleans_only() {
    assert!(boolean(true).negate_bool().unwrap().is_false());
    assert!(boolean(false).negate_bool().unwrap().is_true());
    let e = nil().negate_bool().unwrap_err();
    assert_eq!(e.0, "Cannot negate value (only boolean can be negated)");
    assert!(integer(0).negate_bool().is_err());
}

#[test]
fn into_int_takes_whole_numbers() {
    assert_eq!(integer(23).into_int().unwrap(), 23);
    assert_eq!(integer(i64::MIN).into_int().unwrap(), i64::MIN);
    assert_eq!(float(23.0).into_int().unwrap(), 23);
    assert_eq!(float(-23.0).into_int().unwrap(), -23);
    assert_eq!(float(-0.0).into_int().unwrap(), 0);
    assert_eq!(float(9007199254740992.0).into_int().unwrap(), 9007199254740992);
    assert_eq!(float(1e300).into_int().unwrap(), i64::MAX);
    assert_eq!(float(-1e300).into_int().unwrap(), i64::MIN);
    assert_eq!(float(-9223372036854775808.0).into_int().unwrap(), i64::MIN);
    assert_eq!(float(f64::INFINITY).into_int().unwrap(), i64::MAX);
    let e = float(23.5).into_int().unwrap_err();
    assert_eq!(e.0, "Cannot convert float that does not have exact integer value to integer");
    assert!(float(f64::NAN).into_int().is_err());
    assert!(float(5e-324).into_int().is_err());
    let e = text("23").into_int().unwrap_err();
    assert_eq!(e.0, "Cannot convert value to integer (types cannot be converted)");
}

#[test]
fn into_string_formats_numbers() {
    assert_eq!(float(23.0).into_string().unwrap(), "23.0");
    assert_eq!(float(23.5).into_string().unwrap(), "23.5");
    assert_eq!(integer(23).into_string().unwrap(), "23");
    assert_eq!(integer(-23).into_string().unwrap(), "-23");
    assert_eq!(integer(0).into_string().unwrap(), "0");
    assert_eq!(integer(i64::MIN).into_string().unwrap(), "-9223372036854775808");
    assert_eq!(integer(i64::MAX).into_string().unwrap(), "9223372036854775807");
    assert_eq!(text("raw").into_string().unwrap(), "raw");
    let e = nil().into_string().unwrap_err();
    assert_eq!(e.0, "Cannot convert value to String (types cannot be converted)");
    assert!(boolean(true).into_string().is_err());
}

#[test]
fn float_text_matches_the_standard_form() {
    let samples = [
        0.0,
        -0.0,
        1.0,
        -1.0,
        23.0,
        23.5,
        -23.5,
        0.1,
        0.2,
        0.3,
        0.5,
        1.5,
        2.5,
        0.25,
        1e-7,
        1.5e-10,
        123456.789,
        3.141592653589793,
        2.718281828459045,
        1e15,
        1e16,
        1e17,
        1e21,
        1e22,
        1e23,
        1e300,
        1.7976931348623157e308,
        5e-324,
        1e-323,
        2.2250738585072014e-308,
        2.225073858507201e-308,
        4.9406564584124654e-324,
        9007199254740992.0,
        9007199254740993.0,
        4503599627370495.5,
        4503599627370496.0,
        0.30000000000000004,
        100.0,
        1e100,
        123456789012345680.0,
        0.000001,
        299792458.0,
        6.02214076e23,
        1.0000000000000002,
        0.9999999999999999,
        9.5,
        99.99,
        8.41e21,
        2.0f64.powi(-20),
        2.0f64.powi(-1022),
        2.0f64.powi(-1021),
        2.0f64.powi(-1074) * 3.0,
        2.0f64.powi(60),
        2.0f64.powi(63),
        2.0f64.powi(64),
        2.0f64.powi(1023),
        1.0 / 3.0,
        2.0 / 3.0,
        1e-5,
        5e-5,
        7.0e-10,
        f64::MIN_POSITIVE,
        f64::MAX,
        f64::EPSILON,
    ];
    for f in samples {
        for g in [f, -f] {
            let expected = if g.floor() != g.ceil() { g.to_string() } else { format!("{:.1}", g) };
            assert_eq!(float(g).to_string(), expected);
            assert_eq!(float(g).into_string().unwrap(), expected);
        }
    }
}

#[test]
fn float_text_of_special_values() {
    assert_eq!(float(f64::NAN).to_string(), "NaN");
    assert_eq!(float(-f64::NAN).to_string(), "NaN");
    assert_eq!(float(f64::INFINITY).to_string(), "inf");
    assert_eq!(float(f64::NEG_INFINITY).to_string(), "-inf");
    assert_eq!(float(-0.0).to_string(), "-0.0");
}

#[test]
fn float_text_over_many_patterns() {
    let mut bits: u64 = 0x0123_4567_89ab_cdef;
    let mut n = 0;
    while n < 3000 {
        bits = bits.wrapping_mul(6364136223846793005).wrapping_add(1442695040888963407);
        let g = f64::from_bits(bits);
        let expected = if g.floor() != g.ceil() { g.to_string() } else { format!("{:.1}", g) };
        assert_eq!(float(g).to_string(), expected);
        let small = f64::from_bits(bits >> 12 | 0x3c00_0000_0000_0000);
        assert_eq!(float(small).to_string(), small.to_string());
        n += 1;
    }
}

#[test]
fn display_text_of_other_values() {
    assert_eq!(nil().to_string(), "nil");
    assert_eq!(boolean(true).to_string(), "true");
    assert_eq!(boolean(false).to_string(), "false");
    assert_eq!(integer(-5).to_string(), "-5");
    assert_eq!(text("raw text").to_string(), "raw text");
    assert_eq!(LuaValue::new(LuaVal::LuaTable(12)).to_string(), "table: 12");
    assert_eq!(LuaValue::new(LuaVal::Print).to_string(), "print");
    assert_eq!(LuaValue::new(LuaVal::Read).to_string(), "read");
    assert_eq!(LuaValue::new(LuaVal::Random).to_string(), "random");
}

#[test]
fn first_return_value() {
    assert!(LuaValue::extract_first_return_val(vec![]).is_nil());
    let v = LuaValue::extract_first_return_val(vec![integer(4), integer(5)]);
    assert_eq!(v.to_string(), "4");
}

#[test]
fn clone_rc_gives_the_same_value() {
    let v = text("shared");
    let w = v.clone_rc();
    assert_eq!(v.to_string(), w.to_string());
    assert!(std::rc::Rc::ptr_eq(&v.0, &w.0));
}

#[test]
fn error_holds_its_message() {
    assert_eq!(ASTExecError::new("boom").0, "boom");
}

#[test]
fn error_text_is_its_message() {
    assert_eq!(ASTExecError::new("boom").to_string(), "boom");
}

#[test]
fn float_text_of_a_value_halfway_between_two_candidates() {
    let quarter = f64::from_bits(0x4310_0000_0000_0001);
    assert_eq!(quarter, 1125899906842624.25);
    assert_eq!(float(quarter).to_string(), quarter.to_string());
    assert_eq!(float(quarter).to_string(), "1125899906842624.3");
    assert_eq!(float(-quarter).to_string(), (-quarter).to_string());
    let three_quarters = f64::from_bits(0x4310_0000_0000_0003);
    assert_eq!(float(three_quarters).to_string(), three_quarters.to_string());
    assert_eq!(float(three_quarters).to_string(), "1125899906842624.8");
    let mut mantissa: u64 = 1;
    let mut n = 0;
    while n < 4000 {
        let g = f64::from_bits(0x4310_0000_0000_0000 | (mantissa & 0x000f_ffff_ffff_ffff));
        assert_eq!(float(g).to_string(), if g.floor() != g.ceil() { g.to_string() } else { format!("{:.1}", g) });
        let h = f64::from_bits(0x4320_0000_0000_0000 | (mantissa & 0x000f_ffff_ffff_ffff));
        assert_eq!(float(h).to_string(), if h.floor() != h.ceil() { h.to_string() } else { format!("{:.1}", h) });
        let e = f64::from_bits(0x4300_0000_0000_0000 | (mantissa & 0x000f_ffff_ffff_ffff));
        assert_eq!(float(e).to_string(), if e.floor() != e.ceil() { e.to_string() } else { format!("{:.1}", e) });
        mantissa = mantissa.wrapping_mul(6364136223846793005).wrapping_add(1442695040888963407);
        n += 1;
    }
}

#[test]
fn float_text_of_short_fractions() {
    let mut k = 1;
    while k <= 60 {
        let unit = 0.5f64.powi(k);
        for m in [1.0, 3.0, 5.0, 7.0, 9.0, 11.0, 25.0, 125.0, 1023.0, 65535.0, 1048577.0] {
            let g = unit * m;
            let expected = if g.floor() != g.ceil() { g.to_string() } else { format!("{:.1}", g) };
            assert_eq!(float(g).to_string(), expected);
        }
        k += 1;
    }
}
