//! Building and reading text one character at a time, and the decimal
//! spelling of counts.

use vstd::prelude::*;

verus! {

pub assume_specification[ String::push ](s: &mut String, ch: char)
    ensures
        final(s)@ == old(s)@.push(ch),
;

/// The characters of `s`, in order.
pub fn chars_of(s: &str) -> (chars: Vec<char>)
    ensures
        chars@ == s@,
{
    let mut chars: Vec<char> = Vec::new();
    for c in iter: s.chars()
        invariant
            chars@.len() == iter.index(),
            forall|i: int| 0 <= i < chars@.len() ==> chars@[i] == iter.seq()[i],
    {
        chars.push(c);
    }
    proof {
        assert(chars@ =~= s@);
    }
    chars
}


/// The character for a decimal digit.
pub open spec fn digit_char(d: int) -> char {
    (48 + d) as char
}

/// The decimal spelling of `n`, without sign or leading zeros.
pub open spec fn decimal(n: nat) -> Seq<char>
    decreases n,
{
    if n < 10 {
        seq![digit_char(n as int)]
    } else {
        decimal(n / 10).push(digit_char((n % 10) as int))
    }
}

/// The decimal spelling of `n`, zero-filled on the left to at least `width` characters.
pub open spec fn zero_padded(n: nat, width: nat) -> Seq<char> {
    let digits = decimal(n);
    if digits.len() >= width {
        digits
    } else {
        Seq::new((width - digits.len()) as nat, |i: int| '0') + digits
    }
}

pub proof fn lemma_decimal_nonempty(n: nat)
    ensures
        decimal(n).len() >= 1,
    decreases n,
{
    if n >= 10 {
        lemma_decimal_nonempty(n / 10);
    }
}

/// Append the decimal spelling of `n`.
pub fn push_decimal(out: &mut String, n: u64)
    ensures
        final(out)@ == old(out)@ + decimal(n as nat),
    decreases n,
{
    if n >= 10 {
        push_decimal(out, n / 10);
    }
    let d = (n % 10) as u8;
    out.push((48u8 + d) as char);
    proof {
        if n >= 10 {
            assert(final(out)@ =~= old(out)@ + decimal(n as nat));
        } else {
            assert(final(out)@ =~= old(out)@ + decimal(n as nat));
        }
    }
}

/// Append the decimal spelling of `n`, zero-filled to at least `width` characters.
pub fn push_padded(out: &mut String, n: u64, width: usize)
    ensures
        final(out)@ == old(out)@ + zero_padded(n as nat, width as nat),
{
    let mut spelled = String::new();
    push_decimal(&mut spelled, n);
    let digits = chars_of(spelled.as_str()).len();
    assert(spelled@ =~= decimal(n as nat));
    let ghost start = out@;
    let mut k = digits;
    while k < width
        invariant
            digits <= k <= width || (k == digits && width < digits),
            out@ == start + Seq::new((k - digits) as nat, |i: int| '0'),
        decreases width - k,
    {
        out.push('0');
        k = k + 1;
        assert(out@ =~= start + Seq::new((k - digits) as nat, |i: int| '0'));
    }
    push_decimal(out, n);
    assert(final(out)@ =~= old(out)@ + zero_padded(n as nat, width as nat));
}

/// Append a string.
pub fn push_str(out: &mut String, s: &str)
    ensures
        final(out)@ == old(out)@ + s@,
{
    out.append(s);
}

/// Whether two strings spell the same characters.
pub fn same_text(a: &str, b: &str) -> (same: bool)
    ensures
        same == (a@ == b@),
{
    let x = chars_of(a);
    let y = chars_of(b);
    if x.len() != y.len() {
        return false;
    }
    let mut k: usize = 0;
    while k < x.len()
        invariant
            k <= x@.len() == y@.len(),
            x@ == a@,
            y@ == b@,
            forall|i: int| 0 <= i < k ==> x@[i] == y@[i],
        decreases x@.len() - k,
    {
        if x[k] != y[k] {
            assert(x@[k as int] != y@[k as int]);
            assert(a@[k as int] != b@[k as int]);
            return false;
        }
        k = k + 1;
    }
    assert(x@ =~= y@);
    true
}

/// The first position at or after `from` holding `c`.
pub open spec fn first_at(s: Seq<char>, c: char, from: int) -> Option<int>
    decreases s.len() - from,
{
    if from < 0 || from >= s.len() {
        None
    } else if s[from] == c {
        Some(from)
    } else {
        first_at(s, c, from + 1)
    }
}

pub proof fn lemma_first_at(s: Seq<char>, c: char, from: int)
    requires
        0 <= from,
    ensures
        first_at(s, c, from) matches Some(i) ==> 0 <= from <= i < s.len() && s[i] == c
            && forall|j: int| from <= j < i ==> s[j] != c,
        first_at(s, c, from) is None ==> forall|j: int| from <= j < s.len() ==> s[j] != c,
    decreases s.len() - from,
{
    if 0 <= from < s.len() && s[from] != c {
        lemma_first_at(s, c, from + 1);
    }
}

/// `k` is where `c` first occurs in `s` when it occurs there and nowhere before.
pub(crate) proof fn lemma_first_at_is(s: Seq<char>, c: char, k: int)
    requires
        0 <= k < s.len(),
        s[k] == c,
        forall|j: int| 0 <= j < k ==> s[j] != c,
    ensures
        first_at(s, c, 0) == Some(k),
{
    lemma_first_at(s, c, 0);
}

/// `c` does not occur in `s` when no position holds it.
pub(crate) proof fn lemma_first_at_none(s: Seq<char>, c: char)
    requires
        forall|j: int| 0 <= j < s.len() ==> s[j] != c,
    ensures
        first_at(s, c, 0) is None,
{
    lemma_first_at(s, c, 0);
}

/// What comes before the first `c` in `s`, or all of `s` without one.
pub open spec fn before_first(s: Seq<char>, c: char) -> Seq<char> {
    match first_at(s, c, 0) {
        Some(i) => s.take(i),
        None => s,
    }
}

/// What comes after the first `c` in `s`, if there is one.
pub open spec fn after_first(s: Seq<char>, c: char) -> Option<Seq<char>> {
    match first_at(s, c, 0) {
        Some(i) => Some(s.skip(i + 1)),
        None => None,
    }
}

/// The first position at or after `from` in `chars` holding `c`.
pub fn find_char(chars: &[char], c: char, from: usize) -> (found: Option<usize>)
    ensures
        found == (match first_at(chars@, c, from as int) {
            Some(i) => Some(i as usize),
            None => None,
        }),
{
    let mut k = from;
    while k < chars.len()
        invariant
            from <= k,
            first_at(chars@, c, from as int) == first_at(chars@, c, k as int),
        decreases chars@.len() - k,
    {
        if chars[k] == c {
            return Some(k);
        }
        k = k + 1;
    }
    None
}

/// A new string holding `chars[from..to]`.
pub fn string_of(chars: &[char], from: usize, to: usize) -> (text: String)
    requires
        from <= to <= chars@.len(),
    ensures
        text@ == chars@.subrange(from as int, to as int),
{
    let mut text = String::new();
    let mut k = from;
    while k < to
        invariant
            from <= k <= to <= chars@.len(),
            text@ == chars@.subrange(from as int, k as int),
        decreases to - k,
    {
        text.push(chars[k]);
        k = k + 1;
        assert(text@ =~= chars@.subrange(from as int, k as int));
    }
    text
}

/// `r` before each character of `s` and after the last, as `str::replace`
/// does with an empty pattern.
pub open spec fn interleaved(s: Seq<char>, r: Seq<char>) -> Seq<char>
    decreases s.len(),
{
    if s.len() == 0 {
        r
    } else {
        r + seq![s[0]] + interleaved(s.skip(1), r)
    }
}

/// Whether `s` starts with `p`.
pub open spec fn starts_with(s: Seq<char>, p: Seq<char>) -> bool {
    s.len() >= p.len() && s.take(p.len() as int) == p
}

/// `s` with every occurrence of `p`, found left to right without overlap,
/// replaced by `r`: what `str::replace` computes.
pub open spec fn replaced(s: Seq<char>, p: Seq<char>, r: Seq<char>) -> Seq<char>
    decreases s.len(),
{
    if p.len() == 0 {
        interleaved(s, r)
    } else if s.len() == 0 {
        s
    } else if starts_with(s, p) {
        r + replaced(s.skip(p.len() as int), p, r)
    } else {
        seq![s[0]] + replaced(s.skip(1), p, r)
    }
}

/// Whether `p` occurs in `s`.
pub open spec fn occurs(s: Seq<char>, p: Seq<char>) -> bool {
    exists|i: int| 0 <= i <= s.len() - p.len() && #[trigger] s.subrange(i, i + p.len()) == p
}

/// Whether `p` occurs in `chars` at `at`.
pub fn matches_at(chars: &Vec<char>, p: &Vec<char>, at: usize) -> (found: bool)
    requires
        at <= chars@.len(),
    ensures
        found == starts_with(chars@.skip(at as int), p@),
{
    if chars.len() - at < p.len() {
        return false;
    }
    let mut k: usize = 0;
    while k < p.len()
        invariant
            at + p@.len() <= chars@.len(),
            chars@.len() <= usize::MAX,
            k <= p@.len(),
            forall|i: int| 0 <= i < k ==> chars@[at + i] == p@[i],
        decreases p@.len() - k,
    {
        if chars[at + k] != p[k] {
            assert(chars@.skip(at as int).take(p@.len() as int)[k as int] != p@[k as int]);
            return false;
        }
        k = k + 1;
    }
    assert(chars@.skip(at as int).take(p@.len() as int) =~= p@);
    true
}

/// Whether `p` occurs in `chars`.
pub fn occurs_in(chars: &Vec<char>, p: &Vec<char>) -> (found: bool)
    ensures
        found == occurs(chars@, p@),
{
    if p.len() > chars.len() {
        return false;
    }
    let limit = chars.len() - p.len();
    let mut at: usize = 0;
    loop
        invariant
            p@.len() <= chars@.len(),
            limit == chars@.len() - p@.len(),
            at <= limit,
            forall|i: int| 0 <= i < at ==> #[trigger] chars@.subrange(i, i + p@.len()) != p@,
        decreases limit - at,
    {
        assert(chars@.subrange(at as int, at + p@.len()) =~= chars@.skip(at as int).take(p@.len() as int));
        if matches_at(chars, p, at) {
            return true;
        }
        if at == limit {
            return false;
        }
        at = at + 1;
    }
}

proof fn lemma_interleaved_step(s: Seq<char>, k: int, r: Seq<char>)
    requires
        0 <= k < s.len(),
    ensures
        interleaved(s.skip(k), r) == r + seq![s[k]] + interleaved(s.skip(k + 1), r),
{
    assert(s.skip(k).skip(1) =~= s.skip(k + 1));
}

proof fn lemma_replaced_step(s: Seq<char>, k: int, p: Seq<char>, r: Seq<char>)
    requires
        0 <= k < s.len(),
        p.len() > 0,
    ensures
        starts_with(s.skip(k), p) ==> replaced(s.skip(k), p, r) == r + replaced(s.skip(k + p.len()), p, r),
        !starts_with(s.skip(k), p) ==> replaced(s.skip(k), p, r) == seq![s[k]] + replaced(s.skip(k + 1), p, r),
{
    assert(s.skip(k).skip(1) =~= s.skip(k + 1));
    if starts_with(s.skip(k), p) {
        assert(s.skip(k).skip(p.len() as int) =~= s.skip(k + p.len()));
    }
}

/// `str::replace` on character vectors.
pub fn replace_all(s: &Vec<char>, p: &Vec<char>, r: &Vec<char>) -> (out: Vec<char>)
    ensures
        out@ == replaced(s@, p@, r@),
{
    let mut out: Vec<char> = Vec::new();
    let mut k: usize = 0;
    assert(s@.skip(0) =~= s@);
    if p.len() == 0 {
        while k < s.len()
            invariant
                k <= s@.len(),
                p@.len() == 0,
                out@ + interleaved(s@.skip(k as int), r@) == replaced(s@, p@, r@),
            decreases s@.len() - k,
        {
            proof {
                lemma_interleaved_step(s@, k as int, r@);
            }
            let ghost before = out@;
            append_chars(&mut out, r);
            out.push(s[k]);
            assert(out@ == before + r@ + seq![s@[k as int]]);
            k = k + 1;
        }
        assert(s@.skip(k as int) =~= Seq::<char>::empty());
        append_chars(&mut out, r);
        return out;
    }
    assert(s@.skip(0) =~= s@);
    while k < s.len()
        invariant
            k <= s@.len(),
            p@.len() > 0,
            out@ + replaced(s@.skip(k as int), p@, r@) == replaced(s@, p@, r@),
        decreases s@.len() - k,
    {
        proof {
            lemma_replaced_step(s@, k as int, p@, r@);
        }
        if matches_at(s, p, k) {
            let ghost before = out@;
            append_chars(&mut out, r);
            assert(out@ == before + r@);
            assert(s@.skip(k as int).len() >= p@.len());
            k = k + p.len();
        } else {
            out.push(s[k]);
            k = k + 1;
        }
        proof {
            assert(out@ + replaced(s@.skip(k as int), p@, r@) =~= replaced(s@, p@, r@));
        }
    }
    assert(s@.skip(k as int) =~= Seq::<char>::empty());
    assert(out@ =~= replaced(s@, p@, r@));
    out
}

/// Append the characters of `more`.
pub fn append_chars(out: &mut Vec<char>, more: &Vec<char>)
    ensures
        final(out)@ == old(out)@ + more@,
{
    let mut k: usize = 0;
    while k < more.len()
        invariant
            k <= more@.len(),
            out@ == old(out)@ + more@.take(k as int),
        decreases more@.len() - k,
    {
        out.push(more[k]);
        k = k + 1;
        assert(out@ =~= old(out)@ + more@.take(k as int));
    }
    assert(more@.take(more@.len() as int) =~= more@);
}

/// A string of the given characters.
pub fn string_from(chars: &Vec<char>) -> (text: String)
    ensures
        text@ == chars@,
{
    string_of(chars.as_slice(), 0, chars.len())
}

/// The characters of each string of a list.
pub open spec fn spellings(list: Seq<String>) -> Seq<Seq<char>> {
    list.map_values(|s: String| s@)
}

/// Whether `c` is an ASCII digit.
pub open spec fn ascii_digit(c: char) -> bool {
    '0' <= c && c <= '9'
}

/// Whether `c` has the Unicode property White_Space, which is what
/// `char::is_whitespace` tests.
pub open spec fn white_space(c: char) -> bool {
    ||| '\u{9}' <= c && c <= '\u{d}'
    ||| c == ' ' || c == '\u{85}' || c == '\u{a0}' || c == '\u{1680}'
    ||| '\u{2000}' <= c && c <= '\u{200a}'
    ||| c == '\u{2028}' || c == '\u{2029}' || c == '\u{202f}' || c == '\u{205f}' || c == '\u{3000}'
}

/// `char::is_whitespace`.
pub fn is_white(c: char) -> (white: bool)
    ensures
        white == white_space(c),
{
    ('\u{9}' <= c && c <= '\u{d}') || c == ' ' || c == '\u{85}' || c == '\u{a0}' || c == '\u{1680}'
        || ('\u{2000}' <= c && c <= '\u{200a}') || c == '\u{2028}' || c == '\u{2029}' || c
        == '\u{202f}' || c == '\u{205f}' || c == '\u{3000}'
}

/// `s` without its leading white space.
pub open spec fn trim_start(s: Seq<char>) -> Seq<char>
    decreases s.len(),
{
    if s.len() > 0 && white_space(s[0]) {
        trim_start(s.skip(1))
    } else {
        s
    }
}

/// `s` without its trailing white space.
pub open spec fn trim_end(s: Seq<char>) -> Seq<char>
    decreases s.len(),
{
    if s.len() > 0 && white_space(s.last()) {
        trim_end(s.drop_last())
    } else {
        s
    }
}

/// `s` without leading and trailing white space, as `str::trim` gives it.
pub open spec fn trimmed(s: Seq<char>) -> Seq<char> {
    trim_end(trim_start(s))
}

/// `str::trim` on characters.
pub fn trim_chars(s: &Vec<char>) -> (t: Vec<char>)
    ensures
        t@ == trimmed(s@),
{
    let n = s.len();
    let mut a: usize = 0;
    assert(s@.skip(0) =~= s@);
    while a < n && is_white(s[a])
        invariant
            a <= n == s@.len(),
            trim_start(s@) == trim_start(s@.skip(a as int)),
        decreases n - a,
    {
        assert(s@.skip(a as int).skip(1) =~= s@.skip(a + 1));
        a = a + 1;
    }
    assert(trim_start(s@) == s@.skip(a as int));
    let mut b: usize = n;
    assert(s@.skip(a as int) =~= s@.subrange(a as int, b as int));
    while b > a && is_white(s[b - 1])
        invariant
            a <= b <= n == s@.len(),
            trimmed(s@) == trim_end(s@.subrange(a as int, b as int)),
        decreases b - a,
    {
        assert(s@.subrange(a as int, b as int).drop_last() =~= s@.subrange(a as int, b - 1));
        b = b - 1;
    }
    assert(trim_end(s@.subrange(a as int, b as int)) == s@.subrange(a as int, b as int));
    let mut t: Vec<char> = Vec::new();
    let mut k = a;
    while k < b
        invariant
            a <= k <= b <= n == s@.len(),
            t@ == s@.subrange(a as int, k as int),
        decreases b - k,
    {
        t.push(s[k]);
        k = k + 1;
        assert(t@ =~= s@.subrange(a as int, k as int));
    }
    t
}

/// The number a run of ASCII digits spells.
pub open spec fn digits_value(s: Seq<char>) -> nat
    decreases s.len(),
{
    if s.len() == 0 {
        0
    } else {
        digits_value(s.drop_last()) * 10 + (s.last() as int - 48) as nat
    }
}

/// Ten to the power `n`.
pub open spec fn pow10(n: nat) -> nat
    decreases n,
{
    if n == 0 {
        1
    } else {
        10 * pow10((n - 1) as nat)
    }
}

/// A decimal spelling is all digits, and reads back as the number spelled.
pub(crate) proof fn lemma_decimal_reads_back(n: nat)
    ensures
        all_ascii_digits(decimal(n)),
        digits_value(decimal(n)) == n,
    decreases n,
{
    let last = (n % 10) as int;
    assert(digit_char(last) as int == 48 + last);
    if n >= 10 {
        lemma_decimal_reads_back(n / 10);
        let d = decimal(n);
        assert(d.drop_last() =~= decimal(n / 10));
        assert(forall|i: int| 0 <= i < d.len() - 1 ==> d[i] == decimal(n / 10)[i]);
        assert(d.last() == digit_char(last));
        assert(digits_value(d) == (n / 10) * 10 + last);
    } else {
        let d = decimal(n);
        assert(d.drop_last() =~= Seq::<char>::empty());
        assert(digits_value(d) == digits_value(d.drop_last()) * 10 + last);
    }
}

/// Digits read as a number: those in front count for ten per digit behind.
pub(crate) proof fn lemma_digits_value_concat(a: Seq<char>, b: Seq<char>)
    ensures
        digits_value(a + b) == digits_value(a) * pow10(b.len()) + digits_value(b),
    decreases b.len(),
{
    if b.len() == 0 {
        assert(a + b =~= a);
        assert(pow10(0) == 1);
        assert(digits_value(a) * 1 == digits_value(a));
    } else {
        assert((a + b).drop_last() =~= a + b.drop_last());
        lemma_digits_value_concat(a, b.drop_last());
        let x = digits_value(a);
        let p = pow10(b.drop_last().len());
        assert((x * p + digits_value(b.drop_last())) * 10 == x * (10 * p) + digits_value(b.drop_last()) * 10)
            by (nonlinear_arith);
        assert((a + b).last() == b.last());
        assert(pow10(b.len()) == 10 * p);
        assert(digits_value(a + b) == digits_value((a + b).drop_last()) * 10 + ((a + b).last() as int - 48) as nat);
        assert(digits_value(b) == digits_value(b.drop_last()) * 10 + (b.last() as int - 48) as nat);
        let l = (b.last() as int - 48) as nat;
        let y = digits_value(b.drop_last());
        assert(digits_value(a + b) == (x * p + y) * 10 + l);
        assert(digits_value(a + b) == x * pow10(b.len()) + (y * 10 + l));
    }
}

/// Zeros in front of a decimal spelling do not change what it reads as.
pub(crate) proof fn lemma_zero_padded_reads_back(n: nat, width: nat)
    ensures
        all_ascii_digits(zero_padded(n, width)),
        digits_value(zero_padded(n, width)) == n,
        zero_padded(n, width).len() == (if decimal(n).len() >= width { decimal(n).len() } else { width }),
{
    lemma_decimal_reads_back(n);
    let digits = decimal(n);
    if digits.len() < width {
        let zeros = Seq::new((width - digits.len()) as nat, |i: int| '0');
        lemma_digits_value_concat(zeros, digits);
        lemma_zeros_read_as_zero(zeros);
        assert forall|i: int| 0 <= i < zeros.len() + digits.len() implies ascii_digit(#[trigger] (zeros + digits)[i]) by {
            if i >= zeros.len() {
                assert((zeros + digits)[i] == digits[i - zeros.len()]);
            }
        }
    }
}

proof fn lemma_zeros_read_as_zero(zeros: Seq<char>)
    requires
        forall|i: int| 0 <= i < zeros.len() ==> zeros[i] == '0',
    ensures
        digits_value(zeros) == 0,
    decreases zeros.len(),
{
    if zeros.len() > 0 {
        lemma_zeros_read_as_zero(zeros.drop_last());
    }
}

/// The largest number with `n` digits is below ten to the `n`.
pub(crate) proof fn lemma_digits_value_below(s: Seq<char>)
    requires
        all_ascii_digits(s),
    ensures
        digits_value(s) < pow10(s.len()),
    decreases s.len(),
{
    if s.len() > 0 {
        lemma_digits_value_below(s.drop_last());
        assert(ascii_digit(s[s.len() - 1]));
        let x = digits_value(s.drop_last());
        let p = pow10(s.drop_last().len());
        assert(x * 10 + 9 < 10 * p) by (nonlinear_arith)
            requires
                x < p,
        ;
    }
}

/// Whether every character of `s` is an ASCII digit.
pub open spec fn all_ascii_digits(s: Seq<char>) -> bool {
    forall|i: int| 0 <= i < s.len() ==> ascii_digit(#[trigger] s[i])
}

/// Whether `i32::from_str` reads `s`: an optional sign, then at least one
/// ASCII digit, within the range of `i32`.
pub open spec fn i32_text(s: Seq<char>) -> bool {
    let negative = s.len() > 0 && s[0] == '-';
    let body = if s.len() > 0 && (s[0] == '+' || s[0] == '-') {
        s.skip(1)
    } else {
        s
    };
    &&& body.len() > 0
    &&& all_ascii_digits(body)
    &&& digits_value(body) <= if negative {
        2147483648nat
    } else {
        2147483647nat
    }
}

/// Whether `i32::from_str` reads the characters.
pub fn parses_as_i32(s: &Vec<char>) -> (ok: bool)
    ensures
        ok == i32_text(s@),
{
    let n = s.len();
    if n == 0 {
        return false;
    }
    let negative = s[0] == '-';
    let start: usize = if s[0] == '+' || s[0] == '-' {
        1
    } else {
        0
    };
    let ghost body = if start == 1 {
        s@.skip(1)
    } else {
        s@
    };
    assert(body =~= s@.subrange(start as int, n as int));
    if start == n {
        return false;
    }
    let limit: u64 = if negative {
        2147483648
    } else {
        2147483647
    };
    let mut value: u64 = 0;
    let mut k = start;
    assert(s@.subrange(start as int, start as int) =~= Seq::<char>::empty());
    while k < n
        invariant
            start <= k <= n == s@.len(),
            limit <= 2147483648,
            i32_text(s@) == (all_ascii_digits(s@.subrange(start as int, n as int)) && digits_value(
                s@.subrange(start as int, n as int),
            ) <= limit),
            all_ascii_digits(s@.subrange(start as int, k as int)),
            value as int == if digits_value(s@.subrange(start as int, k as int)) > limit {
                limit + 1
            } else {
                digits_value(s@.subrange(start as int, k as int)) as int
            },
        decreases n - k,
    {
        let c = s[k];
        if !('0' <= c && c <= '9') {
            assert(!all_ascii_digits(s@.subrange(start as int, n as int))) by {
                assert(s@.subrange(start as int, n as int)[k - start] == c);
            }
            return false;
        }
        let d = (c as u32 - 48) as u64;
        assert(s@.subrange(start as int, k + 1).drop_last() =~= s@.subrange(start as int, k as int));
        if value <= limit {
            let next = value * 10 + d;
            value = if next > limit {
                limit + 1
            } else {
                next
            };
        }
        k = k + 1;
        assert(all_ascii_digits(s@.subrange(start as int, k as int))) by {
            assert forall|i: int| 0 <= i < k - start implies ascii_digit(
                #[trigger] s@.subrange(start as int, k as int)[i],
            ) by {
                if i < k - 1 - start {
                    assert(s@.subrange(start as int, k as int)[i] == s@.subrange(
                        start as int,
                        k - 1,
                    )[i]);
                }
            }
        }
    }
    value <= limit
}

} // verus!
