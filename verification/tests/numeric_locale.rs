use argand::numeric_locale::normalize;

#[test]
fn os_locale_identifiers_keep_numeric_region_and_numbering() {
    assert_eq!(normalize("ru_RU.UTF-8"), "ru-RU");
    assert_eq!(normalize("C.UTF-8"), "C");
    assert_eq!(normalize("de_DE@calendar=gregorian"), "de-DE");
    assert_eq!(
        normalize("ar_EG@calendar=gregorian;numbers=latn"),
        "ar-EG-u-nu-latn"
    );
}

#[test]
fn a_dot_after_the_keywords_does_not_cut_the_language() {
    assert_eq!(normalize("en_GB@numbers=arab.x"), "en-GB-u-nu-arab.x");
    assert_eq!(normalize(""), "");
    assert_eq!(normalize("fr_FR@numbers="), "fr-FR-u-nu-");
    assert_eq!(normalize("fr_FR@xnumbers=latn"), "fr-FR");
}
