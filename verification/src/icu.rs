//! The ICU4X calls number formatting makes, each behind a trusted wrapper.
//!
//! Every ICU value is carried together with the plain text it was made from:
//! a parsed locale with its identifier, a formatter with the locale and the
//! grouping it was built for, a parsed decimal with its text. Only the
//! wrappers here build these values (their fields are private to this
//! module), so what a formatter writes can be named over plain values.

use icu_decimal::input::Decimal;
use icu_decimal::DecimalFormatter;
use icu_locale_core::Locale;
use vstd::prelude::*;

verus! {

/// ICU4X's locale identifier.
#[verifier::external_type_specification]
#[verifier::external_body]
pub struct ExLocale(Locale);

/// ICU4X's decimal formatter, with the locale data it was built from.
#[verifier::external_type_specification]
#[verifier::external_body]
pub struct ExDecimalFormatter(DecimalFormatter);

/// The digits of a parsed decimal; with a sign (below) it is the `Decimal`
/// the formatter takes.
#[verifier::external_type_specification]
#[verifier::external_body]
pub struct ExUnsignedDecimal(fixed_decimal::UnsignedDecimal);

/// A signed value, as `Decimal` is a signed `UnsignedDecimal`.
#[verifier::external_type_specification]
#[verifier::external_body]
#[verifier::reject_recursive_types(T)]
pub struct ExSigned<T>(fixed_decimal::Signed<T>);

/// A locale, with the identifier it was parsed from.
pub struct ParsedLocale {
    name: String,
    locale: Locale,
}

impl View for ParsedLocale {
    type V = Seq<char>;

    closed spec fn view(&self) -> Seq<char> {
        self.name@
    }
}

/// A decimal formatter, with the locale identifier and the grouping it was
/// built for.
pub struct Formatter {
    locale: String,
    grouped: bool,
    formatter: DecimalFormatter,
}

impl View for Formatter {
    type V = (Seq<char>, bool);

    closed spec fn view(&self) -> (Seq<char>, bool) {
        (self.locale@, self.grouped)
    }
}

/// A decimal number, with the text it was parsed from.
pub struct DecimalText {
    text: String,
    value: Decimal,
}

impl View for DecimalText {
    type V = Seq<char>;

    closed spec fn view(&self) -> Seq<char> {
        self.text@
    }
}

/// Whether `Locale::from_str` accepts `name` as a BCP 47 locale identifier.
pub uninterp spec fn locale_syntax(name: Seq<char>) -> bool;

/// `Locale::from_str`: a locale for every well-formed identifier, such as
/// `en-US`, and none for anything else.
#[verifier::external_body]
pub(crate) fn parse_locale(name: &str) -> (locale: Option<ParsedLocale>)
    ensures
        locale is Some <==> locale_syntax(name@),
        name@ == seq!['e', 'n', '-', 'U', 'S'] ==> locale is Some,
        locale matches Some(l) ==> l@ == name@,
{
    match name.parse::<Locale>() {
        Ok(locale) => Some(ParsedLocale { name: name.to_owned(), locale }),
        Err(_) => None,
    }
}

/// Whether `DecimalFormatter::try_new` builds a formatter for the locale
/// `locale` names, grouping digits the locale's way or never. With the
/// compiled data this depends on those two alone.
pub uninterp spec fn formatter_data(locale: Seq<char>, grouped: bool) -> bool;

/// `DecimalFormatter::try_new` for a locale, with the options that group
/// digits the locale's way (`grouped`) or never.
#[verifier::external_body]
pub(crate) fn decimal_formatter(locale: &ParsedLocale, grouped: bool) -> (formatter: Option<Formatter>)
    ensures
        formatter is Some <==> formatter_data(locale@, grouped),
        formatter matches Some(f) ==> f@ == (locale@, grouped),
{
    let options = if grouped {
        Default::default()
    } else {
        icu_decimal::options::GroupingStrategy::Never.into()
    };
    match DecimalFormatter::try_new(locale.locale.clone().into(), options) {
        Ok(formatter) => Some(Formatter { locale: locale.name.clone(), grouped, formatter }),
        Err(_) => None,
    }
}

/// Whether `Decimal::from_str` reads `text` as a decimal number.
pub uninterp spec fn decimal_syntax(text: Seq<char>) -> bool;

/// `Decimal::from_str`: a decimal exactly for the texts it can read.
#[verifier::external_body]
pub(crate) fn parse_decimal(text: &str) -> (value: Option<DecimalText>)
    ensures
        value is Some <==> decimal_syntax(text@),
        value matches Some(v) ==> v@ == text@,
{
    match text.parse::<Decimal>() {
        Ok(value) => Some(DecimalText { text: text.to_owned(), value }),
        Err(_) => None,
    }
}

/// What `DecimalFormatter::format` writes for the decimal `value` spells,
/// with the formatter built for the locale `locale` names and the grouping
/// `grouped` chooses. With the compiled data this depends on those three
/// alone.
pub uninterp spec fn formatted(locale: Seq<char>, grouped: bool, value: Seq<char>) -> Seq<char>;

/// `DecimalFormatter::format`, written out as a string.
#[verifier::external_body]
pub(crate) fn format_decimal(formatter: &Formatter, value: &DecimalText) -> (text: String)
    ensures
        text@ == formatted(formatter@.0, formatter@.1, value@),
{
    format!("{}", formatter.formatter.format(&value.value))
}

} // verus!
