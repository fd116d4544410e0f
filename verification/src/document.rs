//! What the window says about one open file: where it is in the sequence
//! open, analyse, show, and the descriptions shown in its hints.

use vstd::prelude::*;

use crate::text::{
    all_ascii_digits, ascii_digit, decimal, digits_value, first_at, lemma_decimal_reads_back,
    lemma_digits_value_concat, lemma_first_at_is, lemma_first_at_none, lemma_zero_padded_reads_back,
    pow10, push_decimal, push_padded, push_str, same_text, zero_padded,
};

verus! {

/// Where a document is in the sequence open, analyse, show.
#[derive(Debug, Clone, PartialEq)]
pub enum Status {
    /// Reading the header, and the level scan a normalized capture needs.
    Opening,
    /// A transform is running. `total` is zero until the first report.
    Analyzing { done: u64, total: u64 },
    /// What is on screen is current; the analysis took `elapsed_nanos`
    /// nanoseconds.
    Ready { elapsed_nanos: u64 },
    /// Nothing came of it, and this is what to tell the person.
    Failed(String),
}

/// What the window has to do about an update, beyond drawing again.
#[derive(Debug, Clone, Copy, PartialEq, Eq, Structural)]
pub enum Effect {
    /// Only what the status bar says has changed.
    Status,
    /// The file's own description arrived, so a request can now be built for it.
    Opened,
    /// A new picture replaced whatever was on screen.
    Analysis,
}

/// What an update from the analysis thread says about the work, apart from
/// the file description and pictures it carries, which the window keeps.
#[derive(Debug, Clone, PartialEq)]
pub enum Report {
    /// The file opened and described itself.
    Opened,
    /// A transform has done `done` of `total`.
    Progress { done: u64, total: u64 },
    /// A preview picture with `refined` of its `width` columns final.
    Snapshot { refined: u64, width: u64 },
    /// The finished picture, after `elapsed_nanos` nanoseconds.
    Ready { elapsed_nanos: u64 },
    /// Nothing came of it, for this reason.
    Failed(String),
}

/// The status a document moves to on a report, and what the window has to
/// do about it: an opened file waits for its first request, progress and
/// failures change only the status bar, a picture replaces what is drawn.
pub fn apply_report(report: Report) -> (next: (Status, Effect))
    ensures
        match report {
            Report::Opened => next == (Status::Analyzing { done: 0, total: 0 }, Effect::Opened),
            Report::Progress { done, total } => next == (Status::Analyzing { done, total }, Effect::Status),
            Report::Snapshot { refined, width } => next == (
                Status::Analyzing { done: refined, total: width },
                Effect::Analysis,
            ),
            Report::Ready { elapsed_nanos } => next == (Status::Ready { elapsed_nanos }, Effect::Analysis),
            Report::Failed(reason) => next.1 == Effect::Status && (next.0 matches Status::Failed(r)
                && r@ == reason@),
        },
{
    match report {
        Report::Opened => (Status::Analyzing { done: 0, total: 0 }, Effect::Opened),
        Report::Progress { done, total } => (Status::Analyzing { done, total }, Effect::Status),
        Report::Snapshot { refined, width } => (
            Status::Analyzing { done: refined, total: width },
            Effect::Analysis,
        ),
        Report::Ready { elapsed_nanos } => (Status::Ready { elapsed_nanos }, Effect::Analysis),
        Report::Failed(reason) => (Status::Failed(reason), Effect::Status),
    }
}

/// One line of the file description, and the hint behind it.
pub struct MetadataField {
    pub value: String,
    pub hint: MetadataHint,
}

/// A titled value and what it means.
pub struct MetadataHint {
    pub title: &'static str,
    pub value: String,
    pub explanation: String,
}

impl MetadataField {
    pub fn new(value: String, hint: MetadataHint) -> (field: Self)
        ensures
            field.value == value,
            field.hint == hint,
    {
        MetadataField { value, hint }
    }
}

impl MetadataHint {
    pub fn new(title: &'static str, value: String, explanation: String) -> (hint: Self)
        ensures
            hint.title == title,
            hint.value == value,
            hint.explanation == explanation,
    {
        MetadataHint { title, value, explanation }
    }

    /// The hint for a container type, explaining the ones the reader knows.
    pub fn container(container: &str) -> (hint: Self)
        ensures
            hint.title@ == "File container type"@,
            hint.value@ == container@,
            hint.explanation@ == (if container@ == "wav"@ {
                "The WAVE container stores samples and their format metadata"@
            } else if container@ == "rf64"@ {
                "The RF64 container extends WAVE for captures larger than 4 GiB"@
            } else if container@ == "bw64"@ {
                "The BW64 container extends broadcast WAVE for captures larger than 4 GiB"@
            } else if container@ == "flac"@ {
                "The FLAC container compresses samples losslessly and stores their format"@
            } else if container@ == "raw"@ {
                "Headerless samples use the format and rate supplied when opening the file"@
            } else {
                "The container defines how samples and metadata are stored in the file"@
            }),
    {
        let explanation = if same_text(container, "wav") {
            "The WAVE container stores samples and their format metadata"
        } else if same_text(container, "rf64") {
            "The RF64 container extends WAVE for captures larger than 4 GiB"
        } else if same_text(container, "bw64") {
            "The BW64 container extends broadcast WAVE for captures larger than 4 GiB"
        } else if same_text(container, "flac") {
            "The FLAC container compresses samples losslessly and stores their format"
        } else if same_text(container, "raw") {
            "Headerless samples use the format and rate supplied when opening the file"
        } else {
            "The container defines how samples and metadata are stored in the file"
        };
        Self::new("File container type", String::from_str(container), String::from_str(explanation))
    }
}

/// How far a transform has got, in whole percent, or `None` before it has
/// said: the total arrives with the first report, and a total of zero has
/// nothing to divide by. Work past the total counts as all of it.
pub fn percent(done: u64, total: u64) -> (percent: Option<u64>)
    ensures
        total == 0 ==> percent is None,
        total > 0 ==> percent == Some(((if done < total { done } else { total }) * 100 / (total as int)) as u64),
{
    if total == 0 {
        return None;
    }
    let done = if done < total { done } else { total };
    let scaled = (done as u128) * 100;
    let whole = scaled / (total as u128);
    proof {
        assert(done <= total);
        assert(scaled / (total as u128) <= 100) by (nonlinear_arith)
            requires
                scaled == done * 100,
                done <= total,
                total > 0,
        ;
    }
    Some(whole as u64)
}

impl Status {
    /// What the status bar says about the work, as opposed to the file, with
    /// `ready_in` the time a finished analysis took, as the window writes
    /// durations. A failure is named rather than quoted: the reason is shown
    /// in full where the picture would have been.
    pub fn message(&self, ready_in: &str) -> (message: String)
        ensures
            match self {
                Status::Opening => message@ == "opening..."@,
                Status::Analyzing { done, total } => message@ == if *total > 0 {
                    "analysing... "@ + decimal(((if *done < *total { *done } else { *total }) * 100
                        / (*total as int)) as nat) + "%"@
                } else {
                    "analysing..."@
                },
                Status::Ready { .. } => message@ == "ready in "@ + ready_in@,
                Status::Failed(_) => message@ == "cannot be read"@,
            },
    {
        match self {
            Status::Opening => String::from_str("opening..."),
            Status::Analyzing { done, total } => match percent(*done, *total) {
                Some(p) => {
                    proof {
                        let d = if *done < *total { *done as int } else { *total as int };
                        assert(0 <= d * 100 / (*total as int) <= 100) by (nonlinear_arith)
                            requires
                                0 <= d <= *total,
                                *total > 0,
                        ;
                    }
                    let mut text = String::from_str("analysing... ");
                    push_decimal(&mut text, p);
                    push_str(&mut text, "%");
                    text
                },
                None => String::from_str("analysing..."),
            },
            Status::Ready { .. } => {
                let mut text = String::from_str("ready in ");
                push_str(&mut text, ready_in);
                text
            },
            Status::Failed(_) => String::from_str("cannot be read"),
        }
    }

    /// The analysis-time hint, which only a finished analysis has, with
    /// `elapsed` the time it took as the window writes it: seconds to three
    /// decimals and the unit.
    pub fn hint(&self, elapsed: &str) -> (hint: Option<MetadataHint>)
        ensures
            hint is Some <==> self is Ready,
            hint matches Some(h) ==> h.title@ == "Analysis time"@ && h.explanation@
                == "Includes sample reading, transforms and image preparation, excluding file opening and window drawing"@
                && h.value@ == elapsed@,
    {
        match self {
            Status::Ready { .. } => Some(
                MetadataHint::new(
                    "Analysis time",
                    elapsed.to_owned(),
                    String::from_str(
                        "Includes sample reading, transforms and image preparation, excluding file opening and window drawing",
                    ),
                ),
            ),
            _ => None,
        }
    }
}

/// A duration in milliseconds as `m:ss.mmm`, the minutes not wrapping at
/// an hour.
pub open spec fn clock_duration(millis: nat) -> Seq<char> {
    decimal(millis / 60_000) + seq![':'] + zero_padded(millis / 1000 % 60, 2) + seq!['.']
        + zero_padded(millis % 1000, 3)
}

/// `s` without the zeros it ends in.
pub open spec fn trim_trailing_zeros(s: Seq<char>) -> Seq<char>
    decreases s.len(),
{
    if s.len() > 0 && s.last() == '0' {
        trim_trailing_zeros(s.drop_last())
    } else {
        s
    }
}

/// A duration in milliseconds the short way: `1h2m3.04s`, leaving out
/// whatever is zero (but saying `0s` of nothing at all).
pub open spec fn compact_duration(millis: nat) -> Seq<char> {
    let hours = millis / 3_600_000;
    let minutes = millis / 60_000 % 60;
    let seconds = millis / 1000 % 60;
    let fraction = millis % 1000;
    let h = if hours > 0 { decimal(hours) + seq!['h'] } else { Seq::empty() };
    let m = if minutes > 0 { decimal(minutes) + seq!['m'] } else { Seq::empty() };
    let s = if fraction > 0 {
        trim_trailing_zeros(decimal(seconds) + seq!['.'] + zero_padded(fraction, 3)) + seq!['s']
    } else if seconds == 0 && millis > 0 {
        Seq::empty()
    } else {
        decimal(seconds) + seq!['s']
    };
    h + m + s
}

/// The number written before the first `unit` of `text`, and what follows
/// that unit; without the unit, zero, and all of `text`.
pub open spec fn unit_field(text: Seq<char>, unit: char) -> (nat, Seq<char>) {
    match first_at(text, unit, 0) {
        Some(i) => (digits_value(text.take(i)), text.skip(i + 1)),
        None => (0, text),
    }
}

/// The milliseconds written before the `s` of a seconds field: whole
/// seconds, then after a `.` up to three decimals; no `s`, no time.
pub open spec fn seconds_field(text: Seq<char>) -> nat {
    match first_at(text, 's', 0) {
        None => 0,
        Some(i) => {
            let body = text.take(i);
            match first_at(body, '.', 0) {
                Some(p) => {
                    let decimals = body.skip(p + 1);
                    digits_value(body.take(p)) * 1000 + digits_value(decimals) * pow10((3 - decimals.len()) as nat)
                },
                None => digits_value(body) * 1000,
            }
        },
    }
}

/// How a compact duration reads: hours before `h`, minutes before `m`, and
/// milliseconds from the seconds before `s`.
pub open spec fn compact_fields(text: Seq<char>) -> (nat, nat, nat) {
    let (hours, rest) = unit_field(text, 'h');
    let (minutes, rest) = unit_field(rest, 'm');
    (hours, minutes, seconds_field(rest))
}

/// Dropping the zeros a text ends in leaves what is in front of its last
/// nonzero character alone.
proof fn lemma_trim_keeps_front(x: Seq<char>, y: Seq<char>)
    requires
        trim_trailing_zeros(y).len() > 0,
    ensures
        trim_trailing_zeros(x + y) == x + trim_trailing_zeros(y),
    decreases y.len(),
{
    if y.len() > 0 && y.last() == '0' {
        assert((x + y).drop_last() =~= x + y.drop_last());
        lemma_trim_keeps_front(x, y.drop_last());
    } else {
        assert(y.len() > 0);
    }
}

/// Trailing zeros carry a power of ten: the digits read as what is left
/// times ten for each zero dropped, and what is left is a front part.
proof fn lemma_trim_value(t: Seq<char>)
    requires
        all_ascii_digits(t),
    ensures
        trim_trailing_zeros(t).len() <= t.len(),
        trim_trailing_zeros(t) == t.take(trim_trailing_zeros(t).len() as int),
        trim_trailing_zeros(t).len() > 0 ==> trim_trailing_zeros(t).last() != '0',
        digits_value(t) == digits_value(trim_trailing_zeros(t)) * pow10(
            (t.len() - trim_trailing_zeros(t).len()) as nat,
        ),
    decreases t.len(),
{
    if t.len() > 0 && t.last() == '0' {
        let d = t.drop_last();
        lemma_trim_value(d);
        let r = trim_trailing_zeros(d);
        assert(trim_trailing_zeros(t) == r);
        assert(r =~= t.take(r.len() as int));
        let k = (d.len() - r.len()) as nat;
        assert(((t.len() - r.len()) as nat) == k + 1);
        assert(pow10(k + 1) == 10 * pow10(k));
        assert(digits_value(t) == digits_value(d) * 10);
        assert(digits_value(r) * pow10(k) * 10 == digits_value(r) * (10 * pow10(k))) by (nonlinear_arith);
    } else {
        assert(t.take(t.len() as int) =~= t);
        assert(pow10(0) == 1);
        assert(digits_value(t) * 1 == digits_value(t));
    }
}

/// Digits hold no unit letter and no decimal point.
proof fn lemma_digits_hold_no_marks(d: Seq<char>)
    requires
        all_ascii_digits(d),
    ensures
        forall|i: int| 0 <= i < d.len() ==> d[i] != 'h' && d[i] != 'm' && d[i] != 's' && d[i] != '.',
{
    assert forall|i: int| 0 <= i < d.len() implies d[i] != 'h' && d[i] != 'm' && d[i] != 's' && d[i] != '.' by {
        assert(ascii_digit(d[i]));
    }
}

/// Below a thousand, a number has at most three digits.
proof fn lemma_decimal_short(n: nat)
    requires
        n < 1000,
    ensures
        decimal(n).len() <= 3,
{
    reveal_with_fuel(decimal, 3);
    if n >= 10 {
        if n / 10 >= 10 {
            assert(n / 10 / 10 < 10);
        }
    }
}

/// The seconds part of a compact duration reads back as the milliseconds
/// within the minute.
proof fn lemma_seconds_part_reads_back(seconds: nat, fraction: nat, empty: bool, part: Seq<char>)
    requires
        fraction < 1000,
        empty ==> seconds == 0 && fraction == 0,
        part == (if fraction > 0 {
            trim_trailing_zeros(decimal(seconds) + seq!['.'] + zero_padded(fraction, 3)) + seq!['s']
        } else if empty {
            Seq::<char>::empty()
        } else {
            decimal(seconds) + seq!['s']
        }),
    ensures
        seconds_field(part) == seconds * 1000 + fraction,
        forall|i: int| 0 <= i < part.len() ==> part[i] != 'h' && part[i] != 'm',
        first_at(part, 's', 0) is Some <==> !empty,
        first_at(part, '.', 0) is Some <==> fraction > 0,
        fraction > 0 ==> part.len() >= 2 && part[part.len() - 2] != '0',
{
    let d = decimal(seconds);
    lemma_decimal_reads_back(seconds);
    lemma_digits_hold_no_marks(d);
    if fraction > 0 {
        let p = zero_padded(fraction, 3);
        lemma_zero_padded_reads_back(fraction, 3);
        lemma_decimal_short(fraction);
        assert(p.len() == 3);
        lemma_trim_value(p);
        let r = trim_trailing_zeros(p);
        if r.len() == 0 {
            assert(digits_value(r) == 0);
            let k = pow10((p.len() - r.len()) as nat);
            assert(digits_value(r) * k == 0) by (nonlinear_arith)
                requires
                    digits_value(r) == 0,
            ;
        }
        assert(d + seq!['.'] + p =~= (d + seq!['.']) + p);
        lemma_trim_keeps_front(d + seq!['.'], p);
        let body = d + seq!['.'] + r;
        let part = body + seq!['s'];
        assert(all_ascii_digits(r)) by {
            assert forall|i: int| 0 <= i < r.len() implies ascii_digit(#[trigger] r[i]) by {
                assert(r[i] == p[i]);
            }
        }
        lemma_digits_hold_no_marks(r);
        assert forall|i: int| 0 <= i < part.len() implies part[i] != 'h' && part[i] != 'm' by {
            if i < d.len() {
                assert(part[i] == d[i]);
            } else if i > d.len() && i < body.len() {
                assert(part[i] == r[i - d.len() - 1]);
            }
        }
        assert forall|j: int| 0 <= j < body.len() implies part[j] != 's' by {
            if j < d.len() {
                assert(part[j] == d[j]);
            } else if j > d.len() {
                assert(part[j] == r[j - d.len() - 1]);
            }
        }
        lemma_first_at_is(part, 's', body.len() as int);
        assert(part.take(body.len() as int) =~= body);
        assert forall|j: int| 0 <= j < d.len() implies body[j] != '.' by {
            assert(body[j] == d[j]);
        }
        lemma_first_at_is(body, '.', d.len() as int);
        assert(body.take(d.len() as int) =~= d);
        assert(body.skip(d.len() + 1int) =~= r);
        assert(r.len() <= 3);
        assert(fraction == digits_value(r) * pow10((3 - r.len()) as nat));
        assert(r.last() != '0');
        assert(part[part.len() - 2] == r.last());
        assert(part[d.len() as int] == '.');
        crate::text::lemma_first_at(part, '.', 0);
    } else if empty {
        lemma_first_at_none(Seq::<char>::empty(), 's');
        lemma_first_at_none(Seq::<char>::empty(), '.');
    } else {
        let part = d + seq!['s'];
        assert forall|j: int| 0 <= j < part.len() implies part[j] != '.' by {
            if j < d.len() {
                assert(part[j] == d[j]);
            }
        }
        lemma_first_at_none(part, '.');
        assert forall|j: int| 0 <= j < d.len() implies part[j] != 's' && part[j] != 'h' && part[j] != 'm' by {
            assert(part[j] == d[j]);
        }
        lemma_first_at_is(part, 's', d.len() as int);
        assert(part.take(d.len() as int) =~= d);
        lemma_first_at_none(d, '.');
    }
}

/// A unit field in front of the rest reads as its number, and leaves the rest.
proof fn lemma_unit_field_reads_back(n: nat, unit: char, present: bool, rest: Seq<char>, text: Seq<char>)
    requires
        unit == 'h' || unit == 'm',
        !present ==> n == 0,
        forall|i: int| 0 <= i < rest.len() ==> rest[i] != unit,
        text == (if present { decimal(n) + seq![unit] } else { Seq::<char>::empty() }) + rest,
    ensures
        unit_field(text, unit) == (n, rest),
        first_at(text, unit, 0) is Some <==> present,
{
    let d = decimal(n);
    lemma_decimal_reads_back(n);
    lemma_digits_hold_no_marks(d);
    if present {
        assert forall|j: int| 0 <= j < d.len() implies text[j] != unit by {
            assert(text[j] == d[j]);
        }
        lemma_first_at_is(text, unit, d.len() as int);
        assert(text.take(d.len() as int) =~= d);
        assert(text.skip(d.len() + 1int) =~= rest);
    } else {
        assert(text =~= rest);
        lemma_first_at_none(rest, unit);
    }
}

/// A time in milliseconds is its hours, its minutes within the hour, its
/// seconds within the minute and its milliseconds within the second.
proof fn lemma_split_millis(millis: nat)
    ensures
        millis == (millis / 3_600_000) * 3_600_000 + (millis / 60_000 % 60) * 60_000 + (millis / 1000 % 60) * 1000
            + millis % 1000,
        (millis / 1000 % 60) * 1000 + millis % 1000 < 60_000,
        millis / 60_000 % 60 < 60,
        millis % 1000 < 1000,
{
    let t = millis / 1000;
    let mi = millis / 60_000;
    assert(mi == t / 60) by {
        vstd::arithmetic::div_mod::lemma_div_denominator(millis as int, 1000, 60);
    }
    assert(millis / 3_600_000 == mi / 60) by {
        vstd::arithmetic::div_mod::lemma_div_denominator(millis as int, 60_000, 60);
    }
    assert(millis == t * 1000 + millis % 1000);
    assert(t == (t / 60) * 60 + t % 60);
    assert(mi == (mi / 60) * 60 + mi % 60);
}

/// A compact duration reads back as the time it was written from: hours
/// before `h`, minutes before `m` and seconds before `s` add up to the
/// milliseconds given, with fewer than sixty minutes and less than a minute
/// of seconds, so each part holds exactly its share. An hours, minutes or
/// seconds part is written exactly when that share is not zero (seconds
/// also for no time at all).
pub proof fn lemma_compact_duration_reads_back(millis: nat)
    ensures
        ({
            let text = compact_duration(millis);
            let (hours, minutes, rest) = compact_fields(text);
            &&& hours * 3_600_000 + minutes * 60_000 + rest == millis
            &&& minutes < 60
            &&& rest < 60_000
            &&& (first_at(text, 'h', 0) is Some <==> hours > 0)
            &&& (first_at(text, 'm', 0) is Some <==> minutes > 0)
            &&& (first_at(text, 's', 0) is Some <==> rest > 0 || millis == 0)
            &&& (first_at(text, '.', 0) is Some <==> millis % 1000 > 0)
            &&& (millis % 1000 > 0 ==> text.len() >= 2 && text[text.len() - 2] != '0')
        }),
{
    let hours = millis / 3_600_000;
    let minutes = millis / 60_000 % 60;
    let seconds = millis / 1000 % 60;
    let fraction = millis % 1000;
    let empty = fraction == 0 && seconds == 0 && millis > 0;
    let s = if fraction > 0 {
        trim_trailing_zeros(decimal(seconds) + seq!['.'] + zero_padded(fraction, 3)) + seq!['s']
    } else if empty {
        Seq::<char>::empty()
    } else {
        decimal(seconds) + seq!['s']
    };
    lemma_split_millis(millis);
    lemma_seconds_part_reads_back(seconds, fraction, empty, s);
    let m = if minutes > 0 { decimal(minutes) + seq!['m'] } else { Seq::<char>::empty() };
    let ms = m + s;
    lemma_unit_field_reads_back(minutes, 'm', minutes > 0, s, ms);
    let dm = decimal(minutes);
    lemma_decimal_reads_back(minutes);
    lemma_digits_hold_no_marks(dm);
    assert forall|i: int| 0 <= i < ms.len() implies ms[i] != 'h' by {
        if i < m.len() {
            if i < dm.len() {
                assert(ms[i] == dm[i]);
            }
        } else {
            assert(ms[i] == s[i - m.len()]);
        }
    }
    let h = if hours > 0 { decimal(hours) + seq!['h'] } else { Seq::<char>::empty() };
    let text = compact_duration(millis);
    assert(text == h + ms);
    lemma_unit_field_reads_back(hours, 'h', hours > 0, ms, text);
    // Whether `m` or `s` occurs is decided behind the parts holding neither.
    let dh = decimal(hours);
    lemma_decimal_reads_back(hours);
    lemma_digits_hold_no_marks(dh);
    assert forall|j: int| 0 <= j < h.len() implies h[j] != 'm' && h[j] != 's' && h[j] != '.' by {
        if j < dh.len() {
            assert(h[j] == dh[j]);
        }
    }
    assert forall|j: int| 0 <= j < m.len() implies m[j] != 's' && m[j] != '.' by {
        if j < dm.len() {
            assert(m[j] == dm[j]);
        }
    }
    lemma_occurs_behind(h, ms, 'm');
    lemma_occurs_behind(h, ms, 's');
    lemma_occurs_behind(m, s, 's');
    lemma_occurs_behind(h, ms, '.');
    lemma_occurs_behind(m, s, '.');
    if fraction > 0 {
        assert(text[text.len() - 2] == s[s.len() - 2]);
    }
}

/// Whether `c` occurs in `a + b`, when `a` holds no `c`, is whether it
/// occurs in `b`.
proof fn lemma_occurs_behind(a: Seq<char>, b: Seq<char>, c: char)
    requires
        forall|j: int| 0 <= j < a.len() ==> a[j] != c,
    ensures
        first_at(a + b, c, 0) is Some <==> first_at(b, c, 0) is Some,
{
    crate::text::lemma_first_at(a + b, c, 0);
    crate::text::lemma_first_at(b, c, 0);
    if let Some(i) = first_at(a + b, c, 0) {
        if i >= a.len() {
            assert(b[i - a.len()] == (a + b)[i]);
        }
    }
    if let Some(i) = first_at(b, c, 0) {
        assert((a + b)[a.len() + i] == b[i]);
    }
}

/// A capture's duration in clock form, as the summary and the
/// signal-duration hint show it.
pub fn capture_duration(millis: u64) -> (text: String)
    ensures
        text@ == clock_duration(millis as nat),
{
    let mut text = String::new();
    push_decimal(&mut text, millis / 60_000);
    text.push(':');
    push_padded(&mut text, millis / 1000 % 60, 2);
    text.push('.');
    push_padded(&mut text, millis % 1000, 3);
    assert(text@ =~= clock_duration(millis as nat));
    text
}

/// Drop the zeros `text` ends in.
fn trim_zeros(text: &mut String)
    ensures
        final(text)@ == trim_trailing_zeros(old(text)@),
{
    let chars = crate::text::chars_of(text.as_str());
    let mut end = chars.len();
    assert(chars@.take(end as int) =~= chars@);
    while end > 0 && chars[end - 1] == '0'
        invariant
            end <= chars@.len(),
            chars@ == old(text)@,
            trim_trailing_zeros(old(text)@) == trim_trailing_zeros(chars@.take(end as int)),
        decreases end,
    {
        assert(chars@.take(end as int).drop_last() =~= chars@.take(end - 1));
        end = end - 1;
    }
    let mut trimmed = String::new();
    let mut k: usize = 0;
    while k < end
        invariant
            k <= end <= chars@.len(),
            trimmed@ == chars@.take(k as int),
        decreases end - k,
    {
        trimmed.push(chars[k]);
        k = k + 1;
        assert(trimmed@ =~= chars@.take(k as int));
    }
    *text = trimmed;
}

/// A capture's duration the short way, as the one-line file summary
/// shows it.
pub fn compact_capture_duration(millis: u64) -> (text: String)
    ensures
        text@ == compact_duration(millis as nat),
{
    let hours = millis / 3_600_000;
    let minutes = millis / 60_000 % 60;
    let seconds = millis / 1000 % 60;
    let fraction = millis % 1000;
    let ghost h = if hours > 0 { decimal(hours as nat) + seq!['h'] } else { Seq::<char>::empty() };
    let ghost m = if minutes > 0 { decimal(minutes as nat) + seq!['m'] } else { Seq::<char>::empty() };
    let mut text = String::new();
    if hours > 0 {
        push_decimal(&mut text, hours);
        text.push('h');
    }
    assert(text@ =~= h);
    if minutes > 0 {
        push_decimal(&mut text, minutes);
        text.push('m');
    }
    assert(text@ =~= h + m);
    let ghost front = text@;
    if fraction > 0 {
        let mut part = String::new();
        push_decimal(&mut part, seconds);
        part.push('.');
        push_padded(&mut part, fraction, 3);
        assert(part@ =~= decimal(seconds as nat) + seq!['.'] + zero_padded(fraction as nat, 3));
        trim_zeros(&mut part);
        part.push('s');
        push_str(&mut text, part.as_str());
        assert(text@ =~= front + (trim_trailing_zeros(decimal(seconds as nat) + seq!['.'] + zero_padded(fraction as nat, 3)) + seq!['s']));
    } else if seconds == 0 && millis > 0 {
        assert(text@ =~= front + Seq::<char>::empty());
    } else {
        push_decimal(&mut text, seconds);
        text.push('s');
        assert(text@ =~= front + (decimal(seconds as nat) + seq!['s']));
    }
    assert(text@ =~= compact_duration(millis as nat));
    text
}

} // verus!
