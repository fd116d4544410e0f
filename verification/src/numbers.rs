//! Numbers as the interface shows them and reads them back: the decimal
//! formatting of a locale for display, and the canonical ASCII spelling
//! that settings and the command line keep.

use vstd::prelude::*;

use crate::icu::{
    decimal_formatter, decimal_syntax, format_decimal, formatted, formatter_data, locale_syntax,
    parse_decimal, parse_locale, Formatter,
};

use crate::text::{
    append_chars, ascii_digit, chars_of, digit_char, first_at, i32_text, is_white, lemma_first_at,
    occurs, occurs_in, parses_as_i32, replace_all, replaced, same_text, string_from, string_of,
    trim_chars, trimmed, white_space,
};

verus! {

/// The minus sign U+2212.
pub open spec fn true_minus() -> char {
    '\u{2212}'
}

/// `value` with each minus sign U+2212 written as an ASCII hyphen.
pub open spec fn hyphenated(value: Seq<char>) -> Seq<char> {
    replaced(value, seq![true_minus()], seq!['-'])
}

/// The locale names that mean the C locale.
pub open spec fn c_locale(name: Seq<char>) -> bool {
    ||| name == seq!['C']
    ||| name == seq!['P', 'O', 'S', 'I', 'X']
    ||| name == seq!['C', '.', 'U', 'T', 'F', '-', '8']
    ||| name == seq!['C', '.', 'u', 't', 'f', '8']
}

/// `s` without the characters that occur in `drop`.
pub open spec fn without(s: Seq<char>, drop: Seq<char>) -> Seq<char>
    decreases s.len(),
{
    if s.len() == 0 {
        s
    } else if drop.contains(s.last()) {
        without(s.drop_last(), drop)
    } else {
        without(s.drop_last(), drop).push(s.last())
    }
}

/// The first character of `s`, or `default` where it is empty.
pub open spec fn first_or(s: Seq<char>, default: char) -> char {
    if s.len() > 0 {
        s[0]
    } else {
        default
    }
}

/// The locale `new` formats for: `name` where a locale parser reads it,
/// `en-US` where not.
pub open spec fn chosen_locale(name: Seq<char>) -> Seq<char> {
    if locale_syntax(name) {
        name
    } else {
        seq!['e', 'n', '-', 'U', 'S']
    }
}

/// The first character of `s`, if any, as a text.
pub open spec fn first_of(s: Seq<char>) -> Seq<char> {
    s.take(if s.len() > 0 { 1int } else { 0int })
}

/// Whether `name` names the C locale.
fn is_c_locale(name: &str) -> (c: bool)
    ensures
        c == c_locale(name@),
{
    proof {
        reveal_strlit("C");
        reveal_strlit("POSIX");
        reveal_strlit("C.UTF-8");
        reveal_strlit("C.utf8");
        assert("C"@ =~= seq!['C']);
        assert("POSIX"@ =~= seq!['P', 'O', 'S', 'I', 'X']);
        assert("C.UTF-8"@ =~= seq!['C', '.', 'U', 'T', 'F', '-', '8']);
        assert("C.utf8"@ =~= seq!['C', '.', 'u', 't', 'f', '8']);
    }
    same_text(name, "C") || same_text(name, "POSIX") || same_text(name, "C.UTF-8") || same_text(
        name,
        "C.utf8",
    )
}

/// The first character of `s`, if any.
fn first_char(s: &str) -> (first: String)
    ensures
        first@ == first_of(s@),
{
    let chars = chars_of(s);
    let mut first = String::new();
    if chars.len() > 0 {
        first.push(chars[0]);
    }
    assert(first@ =~= first_of(s@));
    first
}

/// A numeric description with the end marked by NUL, as `text` reads it.
pub open spec fn marked(value: Seq<char>) -> Seq<char> {
    value.push('\0')
}

/// Whether a digit follows position `i`.
pub open spec fn digit_follows(ext: Seq<char>, i: int) -> bool {
    i + 1 < ext.len() && ascii_digit(ext[i + 1])
}

/// Whether `c` can start a signed number.
pub open spec fn sign_char(c: char) -> bool {
    c == '-' || c == true_minus() || c == '+'
}

/// Whether the character at `i` belongs to a number, `open` telling
/// whether a number is being read: a digit always; a point inside a number
/// before a digit; a sign before a digit where no number is being read.
pub open spec fn numeric(ext: Seq<char>, i: int, open: bool) -> bool {
    ||| ascii_digit(ext[i])
    ||| ext[i] == '.' && open && digit_follows(ext, i)
    ||| !open && sign_char(ext[i]) && digit_follows(ext, i)
}

/// Where the number being read before position `i` started.
pub open spec fn run_start(ext: Seq<char>, i: int) -> Option<int>
    decreases i,
{
    if i <= 0 {
        None
    } else {
        let before = run_start(ext, i - 1);
        let num = numeric(ext, i - 1, before is Some);
        match before {
            None => if num {
                Some(i - 1)
            } else {
                None
            },
            Some(from) => if num {
                Some(from)
            } else {
                None
            },
        }
    }
}

/// Whether the number being read ends at position `i`.
pub open spec fn closes(ext: Seq<char>, i: int) -> bool {
    run_start(ext, i) is Some && !numeric(ext, i, true)
}

/// Whether the character at `i` is copied as it is.
pub open spec fn kept(ext: Seq<char>, i: int) -> bool {
    !numeric(ext, i, run_start(ext, i) is Some) && ext[i] != '\0'
}

/// How many numbers end before position `i`.
pub open spec fn closed_before(ext: Seq<char>, i: int) -> nat
    decreases i,
{
    if i <= 0 {
        0
    } else if closes(ext, i - 1) {
        closed_before(ext, i - 1) + 1
    } else {
        closed_before(ext, i - 1)
    }
}

/// The first `i` positions of a description written out, the `j`-th number
/// replaced by `shown[j]`.
pub open spec fn rendered(ext: Seq<char>, i: int, shown: Seq<Seq<char>>) -> Seq<char>
    decreases i,
{
    if i <= 0 {
        Seq::empty()
    } else {
        let k = i - 1;
        let number = if closes(ext, k) {
            shown[closed_before(ext, k) as int]
        } else {
            Seq::empty()
        };
        let copied = if kept(ext, k) {
            seq![ext[k]]
        } else {
            Seq::empty()
        };
        rendered(ext, k, shown) + number + copied
    }
}

proof fn lemma_closed_before_grows(ext: Seq<char>, k: int, i: int)
    requires
        0 <= k < i,
        closes(ext, k),
    ensures
        closed_before(ext, k) < closed_before(ext, i),
    decreases i - k,
{
    if k + 1 < i {
        lemma_closed_before_grows(ext, k, i - 1);
    }
}

proof fn lemma_rendered_prefix(ext: Seq<char>, i: int, shown: Seq<Seq<char>>, more: Seq<char>)
    requires
        0 <= i,
        shown.len() >= closed_before(ext, i),
    ensures
        rendered(ext, i, shown.push(more)) == rendered(ext, i, shown),
    decreases i,
{
    if i > 0 {
        lemma_rendered_prefix(ext, i - 1, shown, more);
        if closes(ext, i - 1) {
            assert(shown.push(more)[closed_before(ext, i - 1) as int] == shown[closed_before(ext, i - 1) as int]);
        }
    }
}

/// `s` with the first `k` of the locale's `digits` written as ASCII digits,
/// one after the other.
pub open spec fn undigited(s: Seq<char>, digits: Seq<char>, k: int) -> Seq<char>
    decreases k,
{
    if k <= 0 {
        s
    } else {
        replaced(undigited(s, digits, k - 1), seq![digits[k - 1]], seq![digit_char(k - 1)])
    }
}

/// The first position at or after `from` holding `e` or `E`.
pub open spec fn exponent_at(s: Seq<char>, from: int) -> Option<int>
    decreases s.len() - from,
{
    if from < 0 || from >= s.len() {
        None
    } else if s[from] == 'e' || s[from] == 'E' {
        Some(from)
    } else {
        exponent_at(s, from + 1)
    }
}

/// `s` with each white-space character written as `g`.
pub open spec fn spread(s: Seq<char>, g: Seq<char>) -> Seq<char>
    decreases s.len(),
{
    if s.len() == 0 {
        s
    } else {
        spread(s.drop_last(), g) + if white_space(s.last()) {
            g
        } else {
            seq![s.last()]
        }
    }
}

/// Whether every character of `s` is white space.
pub open spec fn all_white(s: Seq<char>) -> bool {
    forall|i: int| 0 <= i < s.len() ==> white_space(#[trigger] s[i])
}

/// Whether `c` may stand in a canonical number: an ASCII digit, a point or
/// a sign.
pub open spec fn plain_number_char(c: char) -> bool {
    ascii_digit(c) || c == '.' || c == '-' || c == '+'
}

/// Whether `s` holds a character that may not stand in a canonical number.
pub open spec fn has_foreign(s: Seq<char>) -> bool {
    exists|i: int| 0 <= i < s.len() && !plain_number_char(#[trigger] s[i])
}

/// The first position at or after `from` in `s` holding `e` or `E`.
fn find_exponent(s: &Vec<char>, from: usize) -> (found: Option<usize>)
    requires
        from <= s@.len(),
    ensures
        found == (match exponent_at(s@, from as int) {
            Some(i) => Some(i as usize),
            None => None,
        }),
    decreases s@.len() - from,
{
    if from >= s.len() {
        None
    } else if s[from] == 'e' || s[from] == 'E' {
        Some(from)
    } else {
        find_exponent(s, from + 1)
    }
}

/// The characters of `s` from `from` to `to`.
fn chars_between(s: &Vec<char>, from: usize, to: usize) -> (part: Vec<char>)
    requires
        from <= to <= s@.len(),
    ensures
        part@ == s@.subrange(from as int, to as int),
{
    let mut part: Vec<char> = Vec::new();
    let mut k = from;
    while k < to
        invariant
            from <= k <= to <= s@.len(),
            part@ == s@.subrange(from as int, k as int),
        decreases to - k,
    {
        part.push(s[k]);
        k = k + 1;
        assert(part@ =~= s@.subrange(from as int, k as int));
    }
    part
}

/// Whether `c` occurs in `s`.
fn contains_char(s: &Vec<char>, c: char) -> (found: bool)
    ensures
        found == s@.contains(c),
{
    let mut k: usize = 0;
    while k < s.len()
        invariant
            k <= s@.len(),
            forall|i: int| 0 <= i < k ==> s@[i] != c,
        decreases s@.len() - k,
    {
        if s[k] == c {
            return true;
        }
        k = k + 1;
    }
    false
}

/// Whether every character is white space.
fn all_white_chars(s: &Vec<char>) -> (white: bool)
    ensures
        white == all_white(s@),
{
    let mut k: usize = 0;
    while k < s.len()
        invariant
            k <= s@.len(),
            forall|i: int| 0 <= i < k ==> white_space(#[trigger] s@[i]),
        decreases s@.len() - k,
    {
        if !is_white(s[k]) {
            return false;
        }
        k = k + 1;
    }
    true
}

/// Each white-space character written as `g`.
fn spread_chars(s: &Vec<char>, g: &Vec<char>) -> (out: Vec<char>)
    ensures
        out@ == spread(s@, g@),
{
    let mut out: Vec<char> = Vec::new();
    let mut k: usize = 0;
    while k < s.len()
        invariant
            k <= s@.len(),
            out@ == spread(s@.take(k as int), g@),
        decreases s@.len() - k,
    {
        assert(s@.take(k + 1).drop_last() =~= s@.take(k as int));
        if is_white(s[k]) {
            append_chars(&mut out, g);
        } else {
            out.push(s[k]);
        }
        k = k + 1;
    }
    assert(s@.take(s@.len() as int) =~= s@);
    out
}

/// Whether a character that may not stand in a canonical number occurs.
fn foreign_char(s: &Vec<char>) -> (found: bool)
    ensures
        found == has_foreign(s@),
{
    let mut k: usize = 0;
    while k < s.len()
        invariant
            k <= s@.len(),
            forall|i: int| 0 <= i < k ==> plain_number_char(#[trigger] s@[i]),
        decreases s@.len() - k,
    {
        let c = s[k];
        if !(('0' <= c && c <= '9') || c == '.' || c == '-' || c == '+') {
            assert(!plain_number_char(s@[k as int]));
            return true;
        }
        k = k + 1;
    }
    false
}

proof fn lemma_exponent_at(s: Seq<char>, from: int)
    requires
        0 <= from,
    ensures
        exponent_at(s, from) matches Some(i) ==> from <= i < s.len() && (s[i] == 'e' || s[i] == 'E'),
    decreases s.len() - from,
{
    if 0 <= from < s.len() && !(s[from] == 'e' || s[from] == 'E') {
        lemma_exponent_at(s, from + 1);
    }
}

proof fn lemma_interleaved_empty(s: Seq<char>)
    ensures
        replaced(s, Seq::empty(), Seq::empty()) == s,
    decreases s.len(),
{
    if s.len() > 0 {
        lemma_interleaved_empty(s.skip(1));
        assert(seq![s[0]] + s.skip(1) =~= s);
    }
}

proof fn lemma_first_unique(s: Seq<char>, c: char, from: int)
    requires
        0 <= from,
    ensures
        forall|f: int|
            from <= f < s.len() && s[f] == c && (forall|i: int| from <= i < f ==> s[i] != c)
                ==> first_at(s, c, from) == Some(f),
        (forall|i: int| from <= i < s.len() ==> s[i] != c) ==> first_at(s, c, from) is None,
    decreases s.len() - from,
{
    if 0 <= from < s.len() && s[from] != c {
        lemma_first_unique(s, c, from + 1);
    }
}

/// The number format settings accept: `system`, the C locale, or a
/// locale identifier.
pub fn valid_format(format: &str) -> (valid: bool)
    ensures
        valid == (format@ == seq!['s', 'y', 's', 't', 'e', 'm'] || format@ == seq!['C']
            || format@ == seq!['P', 'O', 'S', 'I', 'X'] || locale_syntax(format@)),
{
    proof {
        reveal_strlit("system");
        reveal_strlit("C");
        reveal_strlit("POSIX");
        assert("system"@ =~= seq!['s', 'y', 's', 't', 'e', 'm']);
        assert("C"@ =~= seq!['C']);
        assert("POSIX"@ =~= seq!['P', 'O', 'S', 'I', 'X']);
    }
    same_text(format, "system") || same_text(format, "C") || same_text(format, "POSIX")
        || parse_locale(format).is_some()
}

/// Numbers for the configured format; `system` asks `system` for the
/// locale, which is not called for any other format.
pub fn configured<F: FnOnce() -> String>(format: &str, system: F) -> (numbers: Numbers)
    requires
        format@ == seq!['s', 'y', 's', 't', 'e', 'm'] ==> system.requires(()),
    ensures
        format@ == seq!['s', 'y', 's', 't', 'e', 'm'] ==> exists|name: String|
            system.ensures((), name) && #[trigger] numbers.built_for(name@),
        format@ != seq!['s', 'y', 's', 't', 'e', 'm'] ==> numbers.built_for(format@),
{
    proof {
        reveal_strlit("system");
        assert("system"@ =~= seq!['s', 'y', 's', 't', 'e', 'm']);
    }
    if same_text(format, "system") {
        let name = system();
        let numbers = Numbers::new(name.as_str());
        assert(system.ensures((), name) && numbers.built_for(name@));
        numbers
    } else {
        Numbers::new(format)
    }
}

/// The kinds of axis label that are read differently.
#[derive(Debug, Clone, Copy, PartialEq, Eq, Structural)]
pub enum LabelKind {
    /// A clock reading, fields separated by `:` or by `.`.
    Time,
    /// Seconds, written with a trailing ` s`.
    Seconds,
    /// A sample index, written with a leading `#`.
    Samples,
    /// Any other number.
    Other,
}

/// `s` without any number of trailing ` s`.
pub open spec fn without_seconds(s: Seq<char>) -> Seq<char>
    decreases s.len(),
{
    if s.len() >= 2 && s[s.len() - 2] == ' ' && s[s.len() - 1] == 's' {
        without_seconds(s.take(s.len() - 2))
    } else {
        s
    }
}

/// `s` without any number of leading `#`.
pub open spec fn without_hashes(s: Seq<char>) -> Seq<char>
    decreases s.len(),
{
    if s.len() > 0 && s[0] == '#' {
        without_hashes(s.skip(1))
    } else {
        s
    }
}

/// A clock reading written with `.` between fields, with `:` instead.
pub open spec fn colon_fields(s: Seq<char>) -> Seq<char> {
    if s.contains(':') {
        s
    } else {
        replaced(s, seq!['.'], seq![':'])
    }
}

/// Numbers as one locale writes them.
pub struct Numbers {
    grouped: Option<Formatter>,
    plain: Option<Formatter>,
    digits: [char; 10],
    decimal: String,
    grouping: String,
    minus: String,
    plus: String,
}

impl Numbers {
    /// The digits zero to nine, in the locale's numbering system.
    pub closed spec fn digit_set(&self) -> Seq<char> {
        self.digits@
    }

    /// What separates the integer part from the fraction.
    pub closed spec fn decimal_mark(&self) -> Seq<char> {
        self.decimal@
    }

    /// What separates digit groups; empty where the locale groups nothing.
    pub closed spec fn group_mark(&self) -> Seq<char> {
        self.grouping@
    }

    /// What a negative number starts with.
    pub closed spec fn minus_sign(&self) -> Seq<char> {
        self.minus@
    }

    /// What an explicitly positive number starts with.
    pub closed spec fn plus_sign(&self) -> Seq<char> {
        self.plus@
    }

    /// The locale and grouping of the formatter used with digit groups or
    /// without, where one was built.
    pub closed spec fn formatter_of(&self, grouped: bool) -> Option<(Seq<char>, bool)> {
        match if grouped {
            self.grouped
        } else {
            self.plain
        } {
            Some(f) => Some(f@),
            None => None,
        }
    }

    /// Whether a formatter was built, with digit groups or without.
    pub open spec fn formats(&self, grouped: bool) -> bool {
        self.formatter_of(grouped) is Some
    }

    /// What `format` gives for `value`: a decimal number in the writing of
    /// the formatter's locale (U+2212 read as a minus sign); a text that is
    /// not a decimal number, or that no formatter is there for, as it is.
    pub open spec fn display(&self, value: Seq<char>, grouped: bool) -> Seq<char> {
        match self.formatter_of(grouped) {
            Some((locale, grouping)) => if decimal_syntax(hyphenated(value)) {
                formatted(locale, grouping, hyphenated(value))
            } else {
                value
            },
            None => value,
        }
    }

    /// Whether `out` is what `format` gives for `value`.
    pub open spec fn shows(&self, value: Seq<char>, grouped: bool, out: Seq<char>) -> bool {
        out == self.display(value, grouped)
    }

    /// What `new` builds for the locale `name`: formatters for `name` where
    /// a locale parser reads it and for `en-US` where not, grouping digits the
    /// locale's way except in the C locale, each where ICU builds one; and the
    /// symbols read off them.
    pub open spec fn built_for(&self, name: Seq<char>) -> bool {
        let locale = chosen_locale(name);
        let grouping = !c_locale(name);
        &&& self.formatter_of(false) == if formatter_data(locale, false) {
            Some((locale, false))
        } else {
            None
        }
        &&& self.formatter_of(true) == if formatter_data(locale, grouping) {
            Some((locale, grouping))
        } else {
            None
        }
        &&& self.reads_symbols()
    }

    /// The digits, the decimal mark, the first grouping character and the
    /// signs are what `format` writes for `0` to `9`, `1.1`, `1000000`, `-1`
    /// and `+1`, less the digits (a digit the formatter writes nothing for
    /// stays ASCII).
    pub open spec fn reads_symbols(&self) -> bool {
        &&& forall|d: int|
            0 <= d < 10 ==> #[trigger] self.digit_set()[d] == first_or(
                self.display(seq![digit_char(d)], false),
                digit_char(d),
            )
        &&& self.decimal_mark() == without(self.display(seq!['1', '.', '1'], false), self.digit_set())
        &&& self.group_mark() == first_of(
            without(self.display(seq!['1', '0', '0', '0', '0', '0', '0'], true), self.digit_set()),
        )
        &&& self.minus_sign() == without(self.display(seq!['-', '1'], false), self.digit_set())
        &&& self.plus_sign() == without(self.display(seq!['+', '1'], false), self.digit_set())
    }

    /// Numbers as the locale `name` writes them. A name no locale parser
    /// reads is taken as `en-US`; the C locale never groups digits. The
    /// digits, signs and separators are read off what the formatter makes of
    /// `0` to `9`, `1.1`, `1000000`, `-1` and `+1`.
    pub fn new(name: &str) -> (numbers: Self)
        ensures
            numbers.built_for(name@),
    {
        let c_like = is_c_locale(name);
        let locale = match parse_locale(name) {
            Some(locale) => locale,
            None => {
                proof {
                    reveal_strlit("en-US");
                    assert("en-US"@ =~= seq!['e', 'n', '-', 'U', 'S']);
                }
                match parse_locale("en-US") {
                    Some(locale) => locale,
                    None => vstd::pervasive::unreached(),
                }
            },
        };
        assert(locale@ == chosen_locale(name@));
        let plain = decimal_formatter(&locale, false);
        let grouped = decimal_formatter(&locale, !c_like);
        Numbers::with_formatters(plain, grouped)
    }

    /// Numbers as `plain` (never grouping) and `grouped` write them, the
    /// digits, signs and separators read off what they make of `0` to `9`,
    /// `1.1`, `1000000`, `-1` and `+1`.
    pub fn with_formatters(plain: Option<Formatter>, grouped: Option<Formatter>) -> (numbers: Self)
        ensures
            numbers.formatter_of(false) == (match plain {
                Some(f) => Some(f@),
                None => None,
            }),
            numbers.formatter_of(true) == (match grouped {
                Some(f) => Some(f@),
                None => None,
            }),
            numbers.reads_symbols(),
    {
        let mut result = Numbers {
            grouped,
            plain,
            digits: ['0', '1', '2', '3', '4', '5', '6', '7', '8', '9'],
            decimal: String::from_str("."),
            grouping: String::new(),
            minus: String::from_str("-"),
            plus: String::from_str("+"),
        };
        let ghost shown_all: Seq<Seq<char>> = Seq::empty();
        let mut digit: usize = 0;
        while digit < 10
            invariant
                digit <= 10,
                result.formatter_of(false) == (match plain {
                    Some(f) => Some(f@),
                    None => None,
                }),
                result.formatter_of(true) == (match grouped {
                    Some(f) => Some(f@),
                    None => None,
                }),
                shown_all.len() == digit,
                forall|k: int|
                    0 <= k < digit ==> result.shows(seq![digit_char(k)], false, #[trigger] shown_all[k])
                        && result.digits@[k] == (if shown_all[k].len() > 0 {
                        shown_all[k][0]
                    } else {
                        digit_char(k)
                    }),
                forall|k: int| digit <= k < 10 ==> result.digits@[k] == digit_char(k),
            decreases 10 - digit,
        {
            let mut text = String::new();
            text.push(((48 + digit) as u8) as char);
            let shown = chars_of(result.format(text.as_str(), false).as_str());
            if shown.len() > 0 {
                result.digits[digit] = shown[0];
            }
            proof {
                assert(text@ == seq![digit_char(digit as int)]);
                shown_all = shown_all.push(shown@);
            }
            digit = digit + 1;
        }
        let ghost before = result;
        let decimal = result.symbols("1.1", false);
        let grouping_marks = result.symbols("1000000", true);
        let grouping = first_char(&grouping_marks);
        let minus = result.symbols("-1", false);
        let plus = result.symbols("+1", false);
        result.decimal = decimal;
        result.grouping = grouping;
        result.minus = minus;
        result.plus = plus;
        proof {
            reveal_strlit("1.1");
            reveal_strlit("1000000");
            reveal_strlit("-1");
            reveal_strlit("+1");
            assert("1.1"@ =~= seq!['1', '.', '1']);
            assert("1000000"@ =~= seq!['1', '0', '0', '0', '0', '0', '0']);
            assert("-1"@ =~= seq!['-', '1']);
            assert("+1"@ =~= seq!['+', '1']);
            assert(result.digit_set() == before.digit_set());
            assert(forall|v: Seq<char>, g: bool| #[trigger] result.display(v, g) == before.display(v, g));
            assert forall|d: int| 0 <= d < 10 implies #[trigger] result.digit_set()[d] == first_or(
                result.display(seq![digit_char(d)], false),
                digit_char(d),
            ) by {
                assert(before.shows(seq![digit_char(d)], false, shown_all[d]));
            }
        }
        result
    }

    /// How a clock reading writes one character: digits in the locale's
    /// digits, the point as the decimal mark, the rest as it is.
    pub open spec fn clock_piece(&self, c: char) -> Seq<char> {
        if ascii_digit(c) {
            seq![self.digit_set()[c as int - 48]]
        } else if c == '.' {
            self.decimal_mark()
        } else {
            seq![c]
        }
    }

    /// A clock reading in the locale's digits.
    pub open spec fn clock_text(&self, s: Seq<char>) -> Seq<char>
        decreases s.len(),
    {
        if s.len() == 0 {
            s
        } else {
            self.clock_text(s.drop_last()) + self.clock_piece(s.last())
        }
    }

    /// Clock fields keep their padding and punctuation; only the fraction is
    /// decimal.
    pub fn clock(&self, value: &str) -> (shown: String)
        ensures
            shown@ == self.clock_text(value@),
    {
        let chars = chars_of(value);
        let mut shown = String::new();
        let mut k: usize = 0;
        while k < chars.len()
            invariant
                k <= chars@.len(),
                chars@ == value@,
                self.digits@.len() == 10,
                shown@ == self.clock_text(chars@.take(k as int)),
            decreases chars@.len() - k,
        {
            let c = chars[k];
            assert(chars@.take(k + 1).drop_last() == chars@.take(k as int));
            if '0' <= c && c <= '9' {
                let d = (c as u32 - 48) as usize;
                shown.push(self.digits[d]);
            } else if c == '.' {
                shown.append(self.decimal.as_str());
            } else {
                shown.push(c);
            }
            k = k + 1;
        }
        assert(chars@.take(chars@.len() as int) == chars@);
        shown
    }

    /// Whether `shown` gives, in order, what `format` makes of each number
    /// in the description `ext`.
    pub open spec fn shows_numbers(&self, ext: Seq<char>, shown: Seq<Seq<char>>) -> bool {
        &&& shown.len() == closed_before(ext, ext.len() as int)
        &&& forall|i: int|
            0 <= i < ext.len() && #[trigger] closes(ext, i) ==> self.shows(
                ext.subrange(run_start(ext, i)->0, i),
                true,
                shown[closed_before(ext, i) as int],
            )
    }

    /// Whether `out` is `value` with each number in it as `format` shows it.
    pub open spec fn text_shown(&self, value: Seq<char>, out: Seq<char>) -> bool {
        exists|shown: Seq<Seq<char>>|
            #[trigger] self.shows_numbers(marked(value), shown) && out == rendered(
                marked(value),
                marked(value).len() as int,
                shown,
            )
    }

    /// Numbers inside a description in the locale's writing, the words
    /// around them as they are. Use only for numeric descriptions, never
    /// identifiers, paths or diagnostics.
    pub fn text(&self, value: &str) -> (shown: String)
        ensures
            self.text_shown(value@, shown@),
    {
        let mut ext = chars_of(value);
        ext.push('\0');
        let n = ext.len();
        let ghost e = ext@;
        assert(e == marked(value@));
        let mut result = String::new();
        let mut start: Option<usize> = None;
        let ghost pieces: Seq<Seq<char>> = Seq::empty();
        let mut i: usize = 0;
        while i < n
            invariant
                ext@ == e,
                n == e.len(),
                i <= n,
                match start {
                    Some(from) => run_start(e, i as int) == Some(from as int) && from < i,
                    None => run_start(e, i as int) is None,
                },
                pieces.len() == closed_before(e, i as int),
                forall|k: int|
                    0 <= k < i && #[trigger] closes(e, k) ==> self.shows(
                        e.subrange(run_start(e, k)->0, k),
                        true,
                        pieces[closed_before(e, k) as int],
                    ),
                result@ == rendered(e, i as int, pieces),
            decreases n - i,
        {
            let c = ext[i];
            let digit_next = i + 1 < n && '0' <= ext[i + 1] && ext[i + 1] <= '9';
            let is_numeric = ('0' <= c && c <= '9') || (c == '.' && start.is_some() && digit_next) || (
            start.is_none() && (c == '-' || c == '\u{2212}' || c == '+') && digit_next);
            assert(is_numeric == numeric(e, i as int, start is Some));
            let ghost before = pieces;
            match start {
                None => {
                    if is_numeric {
                        start = Some(i);
                    }
                },
                Some(from) => {
                    if !is_numeric {
                        let piece = self.format(string_of(&ext, from, i).as_str(), true);
                        proof {
                            lemma_rendered_prefix(e, i as int, pieces, piece@);
                            assert forall|k: int|
                                0 <= k < i && #[trigger] closes(e, k) implies pieces.push(piece@)[closed_before(e, k) as int]
                                    == pieces[closed_before(e, k) as int] by {
                                lemma_closed_before_grows(e, k, i as int);
                            }
                            pieces = pieces.push(piece@);
                        }
                        result.append(piece.as_str());
                        start = None;
                    }
                },
            }
            if !is_numeric && c != '\0' {
                result.push(c);
            }
            i = i + 1;
        }
        proof {
            assert(self.shows_numbers(e, pieces));
        }
        result
    }

    /// `s` with the locale's minus and plus signs as ASCII signs.
    pub open spec fn ascii_signs(&self, s: Seq<char>) -> Seq<char> {
        replaced(replaced(s, self.minus_sign(), seq!['-']), self.plus_sign(), seq!['+'])
    }

    /// An input trimmed, with ASCII signs and digits.
    pub open spec fn asciified(&self, value: Seq<char>) -> Seq<char> {
        undigited(self.ascii_signs(trimmed(value)), self.digit_set(), 10)
    }

    /// What comes before the exponent, with white space read as the group
    /// mark where the locale groups with white space.
    pub open spec fn mantissa_of(&self, value: Seq<char>) -> Seq<char> {
        let a = self.asciified(value);
        let m = match exponent_at(a, 0) {
            Some(i) => a.take(i),
            None => a,
        };
        if all_white(self.group_mark()) && self.group_mark().len() > 0 {
            spread(m, self.group_mark())
        } else {
            m
        }
    }

    /// What comes after the first `e` or `E`.
    pub open spec fn exponent_of(&self, value: Seq<char>) -> Seq<char> {
        let a = self.asciified(value);
        match exponent_at(a, 0) {
            Some(i) => a.skip(i + 1),
            None => Seq::empty(),
        }
    }

    /// Whether the input writes digit groups.
    pub open spec fn grouped_input(&self, value: Seq<char>) -> bool {
        self.group_mark().len() > 0 && occurs(self.mantissa_of(value), self.group_mark())
    }

    /// The mantissa without groups and with a point for the decimal mark.
    pub open spec fn candidate(&self, value: Seq<char>) -> Seq<char> {
        let m = self.mantissa_of(value);
        let base = if self.grouped_input(value) {
            replaced(m, self.group_mark(), Seq::empty())
        } else {
            m
        };
        replaced(base, self.decimal_mark(), seq!['.'])
    }

    /// `s` with each of the locale's digits as its ASCII digit.
    pub open spec fn ascii_digit_text(&self, s: Seq<char>) -> Seq<char> {
        s.map_values(
            |c: char|
                match first_at(self.digit_set(), c, 0) {
                    Some(n) => digit_char(n),
                    None => c,
                },
        )
    }

    /// The canonical spelling of an input, `expected` standing for what
    /// `format` makes of the candidate with digit groups: grouped input must
    /// be grouped the way the locale groups; only digits, a point and signs
    /// may remain; an exponent must be an `i32`, and an `e` must have one.
    pub open spec fn canonical_from(&self, value: Seq<char>, expected: Seq<char>) -> Option<Seq<char>> {
        let cand = self.candidate(value);
        let exponent = self.exponent_of(value);
        if self.grouped_input(value) && self.ascii_signs(self.ascii_digit_text(expected))
            != self.mantissa_of(value) {
            None
        } else if has_foreign(cand) {
            None
        } else if exponent.len() > 0 {
            if i32_text(exponent) {
                Some(cand + seq!['e'] + exponent)
            } else {
                None
            }
        } else if exponent_at(self.asciified(value), 0) is Some {
            None
        } else {
            Some(cand)
        }
    }

    /// The canonical spelling of `value`, grouped input checked against
    /// what `format` writes for its candidate with digit groups.
    pub open spec fn canonical_of(&self, value: Seq<char>) -> Option<Seq<char>> {
        self.canonical_from(value, self.display(self.candidate(value), true))
    }

    /// The canonical ASCII spelling of a number typed in the locale's
    /// writing, or `Err` where it is not one.
    pub fn canonical(&self, value: &str) -> (result: Result<String, ()>)
        ensures
            match result {
                Ok(t) => self.canonical_of(value@) == Some(t@),
                Err(_) => self.canonical_of(value@) is None,
            },
    {
        let trimmed_value = trim_chars(&chars_of(value));
        let minus = chars_of(self.minus.as_str());
        let plus = chars_of(self.plus.as_str());
        let hyphen = vec!['-'];
        let plus_ascii = vec!['+'];
        assert(hyphen@ == seq!['-']);
        assert(plus_ascii@ == seq!['+']);
        let signed = replace_all(&replace_all(&trimmed_value, &minus, &hyphen), &plus, &plus_ascii);
        let ascii = self.undigit(signed);
        assert(ascii@ == self.asciified(value@));
        let split = find_exponent(&ascii, 0);
        proof {
            lemma_exponent_at(ascii@, 0);
        }
        let n = ascii.len();
        let (head, exponent) = match split {
            Some(i) => (chars_between(&ascii, 0, i), chars_between(&ascii, i + 1, n)),
            None => (chars_between(&ascii, 0, n), Vec::new()),
        };
        assert(ascii@.subrange(0, n as int) =~= ascii@);
        proof {
            if let Some(i) = split {
                assert(ascii@.subrange(0, i as int) =~= ascii@.take(i as int));
                assert(ascii@.subrange(i + 1, n as int) =~= ascii@.skip(i + 1));
            }
        }
        assert(exponent@ == self.exponent_of(value@));
        let group = chars_of(self.grouping.as_str());
        let mantissa = if group.len() > 0 && all_white_chars(&group) {
            spread_chars(&head, &group)
        } else {
            head
        };
        assert(mantissa@ == self.mantissa_of(value@));
        let grouped = group.len() > 0 && occurs_in(&mantissa, &group);
        let empty: Vec<char> = Vec::new();
        let point = vec!['.'];
        assert(point@ == seq!['.']);
        assert(empty@ == Seq::<char>::empty());
        let base = if grouped {
            replace_all(&mantissa, &group, &empty)
        } else {
            replace_all(&mantissa, &empty, &empty)
        };
        proof {
            if !grouped {
                lemma_interleaved_empty(mantissa@);
            }
        }
        let candidate = replace_all(&base, &chars_of(self.decimal.as_str()), &point);
        assert(candidate@ == self.candidate(value@));
        let ghost expected = self.display(candidate@, true);
        if grouped {
            let shown = self.format(string_from(&candidate).as_str(), true);
            let unshaped = replace_all(
                &replace_all(&self.ascii_digits(&chars_of(shown.as_str())), &minus, &hyphen),
                &plus,
                &plus_ascii,
            );
            if !same_text(string_from(&unshaped).as_str(), string_from(&mantissa).as_str()) {
                assert(self.canonical_from(value@, expected) is None);
                return Err(());
            }
        }
        if foreign_char(&candidate) {
            return Err(());
        }
        if exponent.len() > 0 {
            if !parses_as_i32(&exponent) {
                return Err(());
            }
            let mut spelled = Vec::new();
            append_chars(&mut spelled, &candidate);
            spelled.push('e');
            append_chars(&mut spelled, &exponent);
            assert(spelled@ == candidate@ + seq!['e'] + exponent@);
            Ok(string_from(&spelled))
        } else if split.is_some() {
            Err(())
        } else {
            Ok(string_from(&candidate))
        }
    }

    /// `s` with the locale's digits as ASCII digits.
    fn undigit(&self, s: Vec<char>) -> (out: Vec<char>)
        ensures
            out@ == undigited(s@, self.digit_set(), 10),
    {
        let mut out = s;
        let mut index: usize = 0;
        while index < 10
            invariant
                index <= 10,
                self.digits@.len() == 10,
                out@ == undigited(s@, self.digit_set(), index as int),
            decreases 10 - index,
        {
            let pattern = vec![self.digits[index]];
            let digit = vec![((48 + index) as u8) as char];
            assert(pattern@ == seq![self.digit_set()[index as int]]);
            assert(digit@ == seq![digit_char(index as int)]);
            out = replace_all(&out, &pattern, &digit);
            index = index + 1;
        }
        out
    }

    /// `s` with each of the locale's digits as its ASCII digit.
    fn ascii_digits(&self, s: &Vec<char>) -> (out: Vec<char>)
        ensures
            out@ == self.ascii_digit_text(s@),
    {
        let mut out: Vec<char> = Vec::new();
        let mut k: usize = 0;
        while k < s.len()
            invariant
                k <= s@.len(),
                self.digits@.len() == 10,
                out@ == self.ascii_digit_text(s@.take(k as int)),
            decreases s@.len() - k,
        {
            let c = s[k];
            let mut found: Option<usize> = None;
            let mut j: usize = 0;
            proof {
                lemma_first_at(self.digit_set(), c, 0);
            }
            while j < 10
                invariant
                    j <= 10,
                    self.digits@.len() == 10,
                    found is None ==> forall|i: int| 0 <= i < j ==> self.digits@[i] != c,
                    found matches Some(f) ==> f < 10 && self.digits@[f as int] == c && forall|i: int|
                        0 <= i < f ==> self.digits@[i] != c,
                decreases 10 - j,
            {
                if found.is_none() && self.digits[j] == c {
                    found = Some(j);
                }
                j = j + 1;
            }
            let mapped = match found {
                Some(f) => ((48 + f) as u8) as char,
                None => c,
            };
            proof {
                lemma_first_unique(self.digit_set(), c, 0);
                assert(mapped == match first_at(self.digit_set(), c, 0) {
                    Some(n) => digit_char(n),
                    None => c,
                });
            }
            out.push(mapped);
            k = k + 1;
            assert(out@ =~= self.ascii_digit_text(s@.take(k as int)));
        }
        assert(s@.take(s@.len() as int) =~= s@);
        out
    }

    /// What the formatter writes for `value` besides digits.
    fn symbols(&self, value: &str, grouped: bool) -> (marks: String)
        ensures
            marks@ == without(self.display(value@, grouped), self.digit_set()),
    {
        let shown = chars_of(self.format(value, grouped).as_str());
        let mut marks = String::new();
        let mut k: usize = 0;
        while k < shown.len()
            invariant
                k <= shown@.len(),
                marks@ == without(shown@.take(k as int), self.digit_set()),
            decreases shown@.len() - k,
        {
            let c = shown[k];
            assert(shown@.take(k + 1).drop_last() == shown@.take(k as int));
            if !self.is_digit(c) {
                marks.push(c);
            }
            k = k + 1;
        }
        assert(shown@.take(shown@.len() as int) == shown@);
        marks
    }

    /// Whether `c` is one of the locale's digits.
    fn is_digit(&self, c: char) -> (found: bool)
        ensures
            found == self.digit_set().contains(c),
    {
        let mut k: usize = 0;
        while k < 10
            invariant
                k <= 10,
                self.digits@.len() == 10,
                forall|j: int| 0 <= j < k ==> self.digits@[j] != c,
            decreases 10 - k,
        {
            if self.digits[k] == c {
                return true;
            }
            k = k + 1;
        }
        false
    }

    /// An axis label as the locale writes it: a clock reading in the
    /// locale's digits, seconds and sample indices formatted without their
    /// unit marks, anything else formatted with digit groups.
    pub fn axis_label(&self, text: &str, kind: LabelKind) -> (label: String)
        ensures
            match kind {
                LabelKind::Time => label@ == self.clock_text(colon_fields(text@)),
                LabelKind::Seconds => self.shows(without_seconds(text@), true, label@),
                LabelKind::Samples => self.shows(without_hashes(text@), true, label@),
                LabelKind::Other => self.shows(text@, true, label@),
            },
    {
        let chars = chars_of(text);
        match kind {
            LabelKind::Time => {
                let point = vec!['.'];
                let colon = vec![':'];
                assert(point@ == seq!['.']);
                assert(colon@ == seq![':']);
                let fields = if contains_char(&chars, ':') {
                    string_from(&chars)
                } else {
                    string_from(&replace_all(&chars, &point, &colon))
                };
                self.clock(fields.as_str())
            },
            LabelKind::Seconds => {
                let mut end = chars.len();
                assert(chars@.take(end as int) =~= chars@);
                while end >= 2 && chars[end - 2] == ' ' && chars[end - 1] == 's'
                    invariant
                        end <= chars@.len(),
                        without_seconds(text@) == without_seconds(chars@.take(end as int)),
                        chars@ == text@,
                    decreases end,
                {
                    assert(chars@.take(end as int).take(end - 2) =~= chars@.take(end - 2));
                    end = end - 2;
                }
                self.format(string_of(&chars, 0, end).as_str(), true)
            },
            LabelKind::Samples => {
                let mut start: usize = 0;
                assert(chars@.skip(0) =~= chars@);
                while start < chars.len() && chars[start] == '#'
                    invariant
                        start <= chars@.len(),
                        without_hashes(text@) == without_hashes(chars@.skip(start as int)),
                        chars@ == text@,
                    decreases chars@.len() - start,
                {
                    assert(chars@.skip(start as int).skip(1) =~= chars@.skip(start + 1));
                    start = start + 1;
                }
                assert(chars@.subrange(start as int, chars@.len() as int) =~= chars@.skip(start as int));
                self.format(string_of(&chars, start, chars.len()).as_str(), true)
            },
            LabelKind::Other => self.format(text, true),
        }
    }

    /// The digits zero to nine as the locale writes them.
    pub fn digits(&self) -> (digits: [char; 10])
        ensures
            digits@ == self.digit_set(),
    {
        self.digits
    }

    /// A decimal number in the locale's writing, with or without digit
    /// groups; anything else unchanged. U+2212 is read as a minus sign.
    pub fn format(&self, value: &str, grouped: bool) -> (shown: String)
        ensures
            shown@ == self.display(value@, grouped),
    {
        let chars = chars_of(value);
        let minus = vec!['\u{2212}'];
        let hyphen = vec!['-'];
        assert(minus@ == seq![true_minus()]);
        assert(hyphen@ == seq!['-']);
        let normalized = string_from(&replace_all(&chars, &minus, &hyphen));
        assert(normalized@ == hyphenated(value@));
        let formatter = if grouped {
            &self.grouped
        } else {
            &self.plain
        };
        match formatter {
            Some(formatter) => match parse_decimal(normalized.as_str()) {
                Some(decimal) => format_decimal(formatter, &decimal),
                None => String::from_str(value),
            },
            None => String::from_str(value),
        }
    }
}

} // verus!
