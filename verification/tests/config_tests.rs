use libinput_scroll_hook::clamp_milli;
use libinput_scroll_hook::parse_scale_milli;
use libinput_scroll_hook::ScaleCfg;

#[test]
fn parses_plain_decimals() {
    assert_eq!(parse_scale_milli(b"2.0"), Some(2000));
    assert_eq!(parse_scale_milli(b"3"), Some(3000));
    assert_eq!(parse_scale_milli(b"0.05"), Some(50));
    assert_eq!(parse_scale_milli(b"0.001"), Some(1));
    assert_eq!(parse_scale_milli(b"100.0"), Some(100000));
    assert_eq!(parse_scale_milli(b"1.25"), Some(1250));
}

#[test]
fn parses_signs() {
    assert_eq!(parse_scale_milli(b"-2.5"), Some(-2500));
    assert_eq!(parse_scale_milli(b"+1.25"), Some(1250));
    assert_eq!(parse_scale_milli(b"-0"), Some(0));
}

#[test]
fn parses_bare_point_forms() {
    assert_eq!(parse_scale_milli(b".5"), Some(500));
    assert_eq!(parse_scale_milli(b"1."), Some(1000));
}

#[test]
fn drops_fractional_digits_beyond_the_third() {
    assert_eq!(parse_scale_milli(b"1.2345"), Some(1234));
    assert_eq!(parse_scale_milli(b"0.0509"), Some(50));
}

#[test]
fn saturates_huge_magnitudes() {
    assert_eq!(parse_scale_milli(b"9999999999"), Some(1_000_000_000));
    assert_eq!(parse_scale_milli(b"-9999999999.9"), Some(-1_000_000_000));
    assert_eq!(parse_scale_milli(b"1e999999999"), Some(1_000_000_000));
    assert_eq!(parse_scale_milli(b"99999999999999999999"), Some(1_000_000_000));
}

#[test]
fn long_literals_keep_their_scale() {
    assert_eq!(parse_scale_milli(b"1.0000000000000000"), Some(1000));
    assert_eq!(parse_scale_milli(b"2.000000000000000001"), Some(2000));
    assert_eq!(parse_scale_milli(b"20.000000000000000"), Some(20000));
    assert_eq!(parse_scale_milli(b"0.3333333333333333"), Some(333));
    assert_eq!(parse_scale_milli(b"-1.0000000000000000"), Some(-1000));
}

#[test]
fn long_literals_resolve_to_their_value() {
    let cfg = ScaleCfg::resolve(None, None, Some(b"1.0000000000000000"), None, None);
    assert_eq!(cfg.x_milli, 1000);
    assert_eq!(cfg.y_milli, 1000);
    let wheel = ScaleCfg::resolve(None, None, None, Some(b"1.0000000000000000"), None);
    assert_eq!(wheel.wheel_milli, Some(1000));
    let twenty = ScaleCfg::resolve(None, None, Some(b"20.000000000000000"), None, None);
    assert_eq!(twenty.x_milli, 20000);
}

#[test]
fn parses_exponent_forms() {
    assert_eq!(parse_scale_milli(b"1e3"), Some(1_000_000));
    assert_eq!(parse_scale_milli(b"1E-2"), Some(10));
    assert_eq!(parse_scale_milli(b".5e2"), Some(50_000));
    assert_eq!(parse_scale_milli(b"1e+2"), Some(100_000));
    assert_eq!(parse_scale_milli(b"2e-3"), Some(2));
    assert_eq!(parse_scale_milli(b"5e-4"), Some(0));
    assert_eq!(parse_scale_milli(b"1.2345e1"), Some(12_345));
    assert_eq!(parse_scale_milli(b"-2.5e1"), Some(-25_000));
    assert_eq!(parse_scale_milli(b"1.e3"), Some(1_000_000));
}

#[test]
fn parses_infinity_words() {
    assert_eq!(parse_scale_milli(b"inf"), Some(1_000_000_000));
    assert_eq!(parse_scale_milli(b"-inf"), Some(-1_000_000_000));
    assert_eq!(parse_scale_milli(b"+Inf"), Some(1_000_000_000));
    assert_eq!(parse_scale_milli(b"infinity"), Some(1_000_000_000));
    assert_eq!(parse_scale_milli(b"INFINITY"), Some(1_000_000_000));
    assert_eq!(parse_scale_milli(b"-Infinity"), Some(-1_000_000_000));
}

#[test]
fn rejects_not_a_number_words() {
    assert_eq!(parse_scale_milli(b"nan"), None);
    assert_eq!(parse_scale_milli(b"NaN"), None);
    assert_eq!(parse_scale_milli(b"-nan"), None);
}

#[test]
fn rejects_malformed_text() {
    assert_eq!(parse_scale_milli(b""), None);
    assert_eq!(parse_scale_milli(b"."), None);
    assert_eq!(parse_scale_milli(b"-"), None);
    assert_eq!(parse_scale_milli(b"+."), None);
    assert_eq!(parse_scale_milli(b"abc"), None);
    assert_eq!(parse_scale_milli(b"1.2.3"), None);
    assert_eq!(parse_scale_milli(b" 1"), None);
    assert_eq!(parse_scale_milli(b"1 "), None);
    assert_eq!(parse_scale_milli(b"2,5"), None);
    assert_eq!(parse_scale_milli(b"1e"), None);
    assert_eq!(parse_scale_milli(b"1e+"), None);
    assert_eq!(parse_scale_milli(b"e3"), None);
    assert_eq!(parse_scale_milli(b"1e2.5"), None);
    assert_eq!(parse_scale_milli(b".e3"), None);
    assert_eq!(parse_scale_milli(b"infx"), None);
    assert_eq!(parse_scale_milli(b"infinit"), None);
}

#[test]
fn clamps_into_the_valid_range() {
    assert_eq!(clamp_milli(2000), 2000);
    assert_eq!(clamp_milli(50), 50);
    assert_eq!(clamp_milli(20000), 20000);
    assert_eq!(clamp_milli(100000), 20000);
    assert_eq!(clamp_milli(1), 50);
    assert_eq!(clamp_milli(0), 50);
    assert_eq!(clamp_milli(-2500), 50);
}

#[test]
fn shared_value_scales_both_axes() {
    let cfg = ScaleCfg::resolve(None, None, Some(b"2.0"), None, None);
    assert_eq!(cfg.x_milli, 2000);
    assert_eq!(cfg.y_milli, 2000);
    assert_eq!(cfg.wheel_milli, None);
    assert!(!cfg.debug);
}

#[test]
fn dedicated_axis_value_takes_precedence() {
    let cfg = ScaleCfg::resolve(Some(b"3.0"), None, Some(b"2.0"), None, None);
    assert_eq!(cfg.x_milli, 3000);
    assert_eq!(cfg.y_milli, 2000);
}

#[test]
fn unparseable_dedicated_value_falls_back_to_shared() {
    let cfg = ScaleCfg::resolve(Some(b"junk"), None, Some(b"2.0"), None, None);
    assert_eq!(cfg.x_milli, 2000);
    assert_eq!(cfg.y_milli, 2000);
}

#[test]
fn absent_configuration_is_neutral() {
    let cfg = ScaleCfg::resolve(None, None, None, None, None);
    assert_eq!(cfg.x_milli, 1000);
    assert_eq!(cfg.y_milli, 1000);
    assert_eq!(cfg.wheel_milli, None);
    assert!(!cfg.debug);
}

#[test]
fn resolved_factors_are_clamped() {
    let high = ScaleCfg::resolve(None, None, Some(b"100.0"), None, None);
    assert_eq!(high.x_milli, 20000);
    assert_eq!(high.y_milli, 20000);
    let low = ScaleCfg::resolve(None, None, Some(b"0.001"), None, None);
    assert_eq!(low.x_milli, 50);
    assert_eq!(low.y_milli, 50);
    let exponent = ScaleCfg::resolve(None, None, Some(b"1e3"), None, None);
    assert_eq!(exponent.x_milli, 20000);
    assert_eq!(exponent.y_milli, 20000);
    let infinite = ScaleCfg::resolve(None, None, Some(b"inf"), None, None);
    assert_eq!(infinite.x_milli, 20000);
    let negative_infinite = ScaleCfg::resolve(None, None, Some(b"-inf"), None, None);
    assert_eq!(negative_infinite.x_milli, 50);
}

#[test]
fn not_a_number_falls_back_like_unparseable_text() {
    let cfg = ScaleCfg::resolve(Some(b"nan"), None, Some(b"2.0"), None, None);
    assert_eq!(cfg.x_milli, 2000);
    assert_eq!(cfg.y_milli, 2000);
}

#[test]
fn wheel_scaling_is_opt_in() {
    let off = ScaleCfg::resolve(None, None, Some(b"2.0"), None, None);
    assert_eq!(off.wheel_milli, None);
    let on = ScaleCfg::resolve(None, None, None, Some(b"2.0"), None);
    assert_eq!(on.wheel_milli, Some(2000));
    let bad = ScaleCfg::resolve(None, None, None, Some(b"oops"), None);
    assert_eq!(bad.wheel_milli, None);
    let clamped = ScaleCfg::resolve(None, None, None, Some(b"100"), None);
    assert_eq!(clamped.wheel_milli, Some(20000));
}

#[test]
fn debug_flag_is_any_value_but_zero_literal() {
    assert!(!ScaleCfg::resolve(None, None, None, None, None).debug);
    assert!(!ScaleCfg::resolve(None, None, None, None, Some(b"0")).debug);
    assert!(ScaleCfg::resolve(None, None, None, None, Some(b"1")).debug);
    assert!(ScaleCfg::resolve(None, None, None, None, Some(b"")).debug);
    assert!(ScaleCfg::resolve(None, None, None, None, Some(b"00")).debug);
}
