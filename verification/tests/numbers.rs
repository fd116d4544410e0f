use argand::numbers::{configured, valid_format, LabelKind, Numbers};

#[test]
fn configuration_override_controls_labels_hints_and_input_without_reading_system() {
    let numbers = configured("ru-RU", || -> String { panic!("override must not read system locale") });
    assert_eq!(numbers.axis_label("#424703", LabelKind::Samples), "424\u{a0}703");
    assert_eq!(numbers.axis_label("29.562 s", LabelKind::Seconds), "29,562");
    assert_eq!(
        numbers.text("424703 samples, 58.987 s"),
        "424\u{a0}703 samples, 58,987 s"
    );
    assert_eq!(numbers.canonical("45,5"), Ok("45.5".into()));
}

#[test]
fn system_setting_preserves_the_detected_numeric_locale() {
    for (locale, expected) in [("C", "1234.5"), ("ru-RU", "1\u{a0}234,5")] {
        let numbers = configured("system", || -> String { locale.into() });
        assert_eq!(numbers.format("1234.5", true), expected);
    }
}

#[test]
fn decimal_grouping_precision_and_large_integers_follow_locale() {
    for (locale, expected) in [
        ("en-US", "1,234,567.50"),
        ("de-DE", "1.234.567,50"),
        ("ru-RU", "1\u{a0}234\u{a0}567,50"),
        ("hi-IN", "12,34,567.50"),
    ] {
        let numbers = Numbers::new(locale);
        assert_eq!(numbers.format("1234567.50", true), expected);
        assert_eq!(numbers.canonical(expected), Ok("1234567.50".into()));
        let large = u64::MAX.to_string();
        assert_eq!(numbers.canonical(&numbers.format(&large, true)), Ok(large));
    }
}

#[test]
fn input_rejects_malformed_groups_and_accepts_local_decimals_and_exponents() {
    let numbers = Numbers::new("de-DE");
    assert!(numbers.canonical("1.5").is_err());
    assert_eq!(numbers.canonical("1,5"), Ok("1.5".into()));
    assert_eq!(numbers.canonical("1,5e+2"), Ok("1.5e+2".into()));
    assert!(numbers.canonical("1,5e").is_err());
    let numbers = Numbers::new("ru-RU");
    assert_eq!(numbers.canonical("1 234,5"), Ok("1234.5".into()));
    assert_eq!(numbers.clock("1:02:03.040"), "1:02:03,040");
    assert_eq!(
        numbers.text("16-bit, 128.5 samples."),
        "16-bit, 128,5 samples."
    );
    assert_eq!(Numbers::new("C").format("1234.5", true), "1234.5");
}

#[test]
fn native_digits_roundtrip() {
    let numbers = Numbers::new("ar-EG");
    let display = numbers.format("-12345.50", true);
    assert_eq!(numbers.canonical(&display), Ok("-12345.50".into()));
    assert_eq!(numbers.clock("0:02.050"), "٠:٠٢٫٠٥٠");
}

#[test]
fn unknown_locale_names_fall_back_to_us_english() {
    let numbers = Numbers::new("not a locale");
    assert_eq!(numbers.format("1234567.5", true), "1,234,567.5");
    assert_eq!(numbers.format("1234567.5", false), "1234567.5");
    assert_eq!(numbers.digits(), ['0', '1', '2', '3', '4', '5', '6', '7', '8', '9']);
}

#[test]
fn text_that_is_not_a_number_is_left_as_it_is() {
    let numbers = Numbers::new("de-DE");
    assert_eq!(numbers.format("abc", true), "abc");
    assert_eq!(numbers.format("\u{2212}1234", true), "-1.234");
    assert_eq!(numbers.text("v2.0-rc"), "v2,0-rc");
    assert_eq!(numbers.text("a\0b"), "ab");
}

#[test]
fn canonical_input_rejects_letters_and_bad_exponents() {
    let numbers = Numbers::new("en-US");
    assert_eq!(numbers.canonical("  1,234.5  "), Ok("1234.5".into()));
    assert!(numbers.canonical("12a").is_err());
    assert!(numbers.canonical("1e99999999999").is_err());
    assert_eq!(numbers.canonical("1E-3"), Ok("1e-3".into()));
    assert!(numbers.canonical("1,23,4").is_err());
}

#[test]
fn axis_labels_read_clock_fields_written_with_points() {
    let numbers = Numbers::new("de-DE");
    assert_eq!(numbers.axis_label("1.02.03", LabelKind::Time), "1:02:03");
    assert_eq!(numbers.axis_label("1:02.5", LabelKind::Time), "1:02,5");
    assert_eq!(numbers.axis_label("##12", LabelKind::Samples), "12");
    assert_eq!(numbers.axis_label("1234", LabelKind::Other), "1.234");
}

#[test]
fn formats_accepted_in_settings() {
    assert!(valid_format("system"));
    assert!(valid_format("POSIX"));
    assert!(valid_format("ar-EG-u-nu-latn"));
    assert!(!valid_format("not a locale"));
    assert!(!valid_format("ru_RU.UTF-8"));
}
