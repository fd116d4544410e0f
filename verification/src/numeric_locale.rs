//! The numeric region an operating-system locale name asks for, spelled
//! the way a locale parser reads it.

use vstd::prelude::*;

use crate::text::{after_first, before_first, chars_of, find_char, first_at, lemma_first_at, string_of};

verus! {

/// The keyword that names a numbering system.
pub open spec fn numbers_key() -> Seq<char> {
    seq!['n', 'u', 'm', 'b', 'e', 'r', 's', '=']
}

/// What a locale extension for a numbering system starts with.
pub open spec fn numbering_extension() -> Seq<char> {
    seq!['-', 'u', '-', 'n', 'u', '-']
}

/// Where the `;`-separated entry starting at `start` ends.
pub open spec fn entry_end(keywords: Seq<char>, start: int) -> int {
    match first_at(keywords, ';', start) {
        Some(j) => j,
        None => keywords.len() as int,
    }
}

/// The numbering system named by the first `numbers=` entry of the
/// `;`-separated keywords, looking from the entry at `start` on.
pub open spec fn numbering_from(keywords: Seq<char>, start: int) -> Option<Seq<char>>
    decreases keywords.len() - start,
{
    if start < 0 || start > keywords.len() {
        None
    } else {
        let end = entry_end(keywords, start);
        proof {
            lemma_first_at(keywords, ';', start);
        }
        let entry = keywords.subrange(start, end);
        if entry.len() >= 8 && entry.take(8) == numbers_key() {
            Some(entry.skip(8))
        } else if end < keywords.len() {
            numbering_from(keywords, end + 1)
        } else {
            None
        }
    }
}

/// `ll_CC.encoding@keywords` as `ll-CC`, keeping a requested numbering
/// system as a `-u-nu-` extension.
pub open spec fn normalized(name: Seq<char>) -> Seq<char> {
    let base = before_first(name, '@');
    let keywords = match after_first(name, '@') {
        Some(k) => k,
        None => Seq::empty(),
    };
    let language = before_first(base, '.').map_values(|c: char| if c == '_' { '-' } else { c });
    match numbering_from(keywords, 0) {
        Some(numbering) => language + numbering_extension() + numbering,
        None => language,
    }
}

/// The numbering system named in `keywords[start..]`, by the same search.
fn find_numbering(keywords: &[char], start: usize) -> (found: Option<(usize, usize)>)
    requires
        start <= keywords@.len(),
    ensures
        match numbering_from(keywords@, start as int) {
            Some(n) => found matches Some((from, to)) && from <= to <= keywords@.len()
                && keywords@.subrange(from as int, to as int) == n,
            None => found is None,
        },
    decreases keywords@.len() - start,
{
    let n = keywords.len();
    let end = match find_char(keywords, ';', start) {
        Some(j) => j,
        None => keywords.len(),
    };
    proof {
        lemma_first_at(keywords@, ';', start as int);
    }
    assert(end == entry_end(keywords@, start as int));
    assert(start <= end);
    let ghost entry = keywords@.subrange(start as int, end as int);
    if end - start >= 8 {
        let key = ['n', 'u', 'm', 'b', 'e', 'r', 's', '='];
        let mut k: usize = 0;
        let mut same = true;
        while k < 8
            invariant
                k <= 8,
                start + 8 <= end <= keywords@.len(),
                same == (forall|i: int| 0 <= i < k ==> keywords@[start + i] == key@[i]),
            decreases 8 - k,
        {
            if keywords[start + k] != key[k] {
                same = false;
            }
            k = k + 1;
        }
        proof {
            assert(key@ =~= numbers_key());
            if same {
                assert(entry.take(8) =~= numbers_key());
            } else {
                let i = choose|i: int| 0 <= i < 8 && keywords@[start + i] != key@[i];
                assert(entry.take(8)[i] != numbers_key()[i]);
            }
        }
        if same {
            assert(entry.skip(8) =~= keywords@.subrange(start + 8, end as int));
            return Some((start + 8, end));
        }
    }
    if end < keywords.len() {
        find_numbering(keywords, end + 1)
    } else {
        None
    }
}

/// Read an OS locale identifier as a locale name: `ru_RU.UTF-8` is
/// `ru-RU`, and `ar_EG@calendar=gregorian;numbers=latn` keeps its
/// numbering as `ar-EG-u-nu-latn`.
pub fn normalize(name: &str) -> (locale: String)
    ensures
        locale@ == normalized(name@),
{
    let chars = chars_of(name);
    let n = chars.len();
    let at = find_char(chars.as_slice(), '@', 0);
    proof {
        lemma_first_at(chars@, '@', 0);
    }
    let base_end = match at {
        Some(i) => i,
        None => chars.len(),
    };
    let dot = find_char(chars.as_slice(), '.', 0);
    proof {
        lemma_first_at(chars@, '.', 0);
        let base = before_first(name@, '@');
        assert(base =~= chars@.take(base_end as int));
        // The first '.' of the base is the first '.' of the name when it
        // comes before the '@'.
        lemma_first_at(base, '.', 0);
    }
    let language_end = match dot {
        Some(j) => if j < base_end { j } else { base_end },
        None => base_end,
    };
    let mut locale = String::new();
    let mut k: usize = 0;
    while k < language_end
        invariant
            k <= language_end <= chars@.len(),
            locale@ == chars@.take(k as int).map_values(|c: char| if c == '_' { '-' } else { c }),
        decreases language_end - k,
    {
        let c = chars[k];
        locale.push(if c == '_' { '-' } else { c });
        k = k + 1;
        assert(locale@ =~= chars@.take(k as int).map_values(|c: char| if c == '_' { '-' } else { c }));
    }
    let ghost keywords = match after_first(name@, '@') {
        Some(k) => k,
        None => Seq::<char>::empty(),
    };
    proof {
        let base = before_first(name@, '@');
        assert(base =~= chars@.take(base_end as int));
        lemma_first_at_prefix(chars@, '.', base_end as int, 0);
        match first_at(chars@, '.', 0) {
            Some(j) => {
                if j < base_end {
                    assert(before_first(base, '.') =~= chars@.take(language_end as int));
                } else {
                    assert(before_first(base, '.') =~= chars@.take(language_end as int));
                }
            },
            None => {
                assert(before_first(base, '.') =~= chars@.take(language_end as int));
            },
        }
    }
    match at {
        Some(i) => {
            let rest = string_of(chars.as_slice(), i + 1, chars.len());
            let tail = chars_of(rest.as_str());
            assert(tail@ =~= keywords);
            match find_numbering(tail.as_slice(), 0) {
                Some((from, to)) => {
                    let numbering = string_of(tail.as_slice(), from, to);
                    crate::text::push_str(&mut locale, "-u-nu-");
                    proof {
                        reveal_strlit("-u-nu-");
                        assert("-u-nu-"@ =~= numbering_extension());
                    }
                    crate::text::push_str(&mut locale, numbering.as_str());
                },
                None => {},
            }
        },
        None => {
            assert(keywords =~= Seq::<char>::empty());
            proof {
                assert(numbering_from(keywords, 0) is None) by {
                    assert(entry_end(keywords, 0) == 0);
                }
            }
        },
    }
    locale
}

/// Whether a `;`-separated entry of `keywords` starts at `a` and begins
/// with `numbers=`.
pub open spec fn numbers_entry_at(keywords: Seq<char>, a: int) -> bool {
    &&& 0 <= a
    &&& a == 0 || keywords[a - 1] == ';'
    &&& a + 8 <= keywords.len()
    &&& keywords.subrange(a, a + 8) == seq!['n', 'u', 'm', 'b', 'e', 'r', 's', '=']
}

/// Whether the first entry of `keywords` that begins with `numbers=`
/// starts at `a`.
pub open spec fn first_numbers_entry(keywords: Seq<char>, a: int) -> bool {
    &&& numbers_entry_at(keywords, a)
    &&& forall|b: int| 0 <= b < a ==> !#[trigger] numbers_entry_at(keywords, b)
}

/// Whether no entry of `keywords` begins with `numbers=`.
pub open spec fn no_numbers_entry(keywords: Seq<char>) -> bool {
    forall|b: int| !#[trigger] numbers_entry_at(keywords, b)
}

/// Whether `e` ends the entry whose text runs on from `from`: the first `;`
/// at or after `from`, or the end of the keywords.
pub open spec fn ends_entry(keywords: Seq<char>, from: int, e: int) -> bool {
    &&& from <= e <= keywords.len()
    &&& e == keywords.len() || keywords[e] == ';'
    &&& forall|i: int| from <= i < e ==> keywords[i] != ';'
}

/// The search for a numbering looks at whole entries from an entry start on.
proof fn lemma_numbering_from_entries(keywords: Seq<char>, start: int, a: int, e: int)
    requires
        0 <= start <= keywords.len(),
        start == 0 || keywords[start - 1] == ';',
    ensures
        (forall|b: int| start <= b && #[trigger] numbers_entry_at(keywords, b) ==> false) ==> numbering_from(
            keywords,
            start,
        ) is None,
        start <= a && numbers_entry_at(keywords, a) && (forall|b: int|
            start <= b < a ==> !#[trigger] numbers_entry_at(keywords, b)) && ends_entry(keywords, a + 8, e)
            ==> numbering_from(keywords, start) == Some(keywords.subrange(a + 8, e)),
    decreases keywords.len() - start,
{
    lemma_first_at(keywords, ';', start);
    let end = entry_end(keywords, start);
    let entry = keywords.subrange(start, end);
    assert(start <= end <= keywords.len());
    assert(forall|i: int| start <= i < end ==> keywords[i] != ';');
    assert(end == keywords.len() || keywords[end] == ';');
    let key = numbers_key();
    if entry.len() >= 8 && entry.take(8) == key {
        assert(keywords.subrange(start, start + 8) =~= entry.take(8));
        assert(numbers_entry_at(keywords, start));
        if start <= a && numbers_entry_at(keywords, a) && (forall|b: int|
            start <= b < a ==> !#[trigger] numbers_entry_at(keywords, b)) && ends_entry(keywords, a + 8, e) {
            assert(a == start);
            if e < end {
                assert(keywords[e] != ';');
            } else if e > end {
                assert(keywords[end] == ';');
            }
            assert(entry.skip(8) =~= keywords.subrange(a + 8, e));
        }
    } else {
        if numbers_entry_at(keywords, start) {
            assert forall|i: int| start <= i < start + 8 implies keywords[i] != ';' by {
                assert(keywords.subrange(start, start + 8)[i - start] == key[i - start]);
            }
            if end < start + 8 {
                assert(keywords[end] != ';');
            }
            assert(entry.take(8) =~= keywords.subrange(start, start + 8));
        }
        assert forall|b: int| start < b <= end && #[trigger] numbers_entry_at(keywords, b) implies false by {
            assert(keywords[b - 1] != ';');
        }
        if end < keywords.len() {
            lemma_numbering_from_entries(keywords, end + 1, a, e);
            assert forall|b: int| start <= b && #[trigger] numbers_entry_at(keywords, b) implies end + 1 <= b by {
                if b <= end {
                    if b > start {
                        assert(keywords[b - 1] != ';');
                    }
                }
            }
        } else {
            assert forall|b: int| start <= b && #[trigger] numbers_entry_at(keywords, b) implies false by {
                if b > start {
                    assert(keywords[b - 1] != ';');
                }
            }
        }
    }
}

/// What the keywords of a locale name add to it: nothing, unless one of
/// its `;`-separated entries is `numbers=...`; then the first such entry,
/// whole and without its `numbers=`, follows `-u-nu-` after the locale the
/// name has without any keywords.
#[verifier::spinoff_prover]
pub proof fn lemma_numbering_is_a_whole_entry(name: Seq<char>, a: int, e: int)
    ensures
        ({
            let base = before_first(name, '@');
            let keywords = match after_first(name, '@') {
                Some(k) => k,
                None => Seq::<char>::empty(),
            };
            &&& no_numbers_entry(keywords) ==> normalized(name) == normalized(base)
            &&& first_numbers_entry(keywords, a) && ends_entry(keywords, a + 8, e) ==> normalized(name) == normalized(base) + seq!['-', 'u', '-', 'n', 'u', '-']
                + keywords.subrange(a + 8, e)
        }),
{
    let base = before_first(name, '@');
    let keywords = match after_first(name, '@') {
        Some(k) => k,
        None => Seq::<char>::empty(),
    };
    lemma_first_at(name, '@', 0);
    lemma_first_at(base, '@', 0);
    if let Some(i) = first_at(name, '@', 0) {
        assert(base =~= name.take(i));
        if let Some(j) = first_at(base, '@', 0) {
            assert(name[j] == '@');
        }
    }
    assert(first_at(base, '@', 0) is None);
    assert(before_first(base, '@') == base);
    assert(after_first(base, '@') is None);
    assert(numbering_from(Seq::<char>::empty(), 0) is None) by {
        assert(entry_end(Seq::<char>::empty(), 0) == 0);
    }
    lemma_numbering_from_entries(keywords, 0, a, e);
    let language = before_first(base, '.').map_values(|c: char| if c == '_' { '-' } else { c });
    assert(normalized(base) == language);
    if no_numbers_entry(keywords) {
        assert(numbering_from(keywords, 0) is None);
        assert(normalized(name) == normalized(base));
    }
    if first_numbers_entry(keywords, a) && ends_entry(keywords, a + 8, e) {
        assert(numbering_from(keywords, 0) == Some(keywords.subrange(a + 8, e)));
        assert(normalized(name) == language + numbering_extension() + keywords.subrange(a + 8, e));
    }
}

/// A locale name without keywords keeps what comes before its first `.`
/// (its encoding) and nothing after, with each `_` written as `-`.
pub proof fn lemma_language_before_the_encoding(name: Seq<char>, j: int)
    requires
        forall|i: int| 0 <= i < name.len() ==> name[i] != '@',
        0 <= j <= name.len(),
        j == name.len() || name[j] == '.',
        forall|i: int| 0 <= i < j ==> name[i] != '.',
    ensures
        normalized(name).len() == j,
        forall|i: int|
            0 <= i < j ==> #[trigger] normalized(name)[i] == (if name[i] == '_' { '-' } else { name[i] }),
{
    lemma_first_at(name, '@', 0);
    lemma_first_at(name, '.', 0);
    assert(first_at(name, '@', 0) is None);
    assert(numbering_from(Seq::<char>::empty(), 0) is None) by {
        assert(entry_end(Seq::<char>::empty(), 0) == 0);
    }
    if j < name.len() {
        assert(first_at(name, '.', 0) == Some(j));
        assert(before_first(name, '.') == name.take(j));
    } else {
        assert(first_at(name, '.', 0) is None);
        assert(name.take(j) =~= name);
    }
}

/// In a prefix of `s` ending at `end`, the first `c` is the first `c` of `s`
/// if that lies before `end`, and there is none otherwise.
proof fn lemma_first_at_prefix(s: Seq<char>, c: char, end: int, from: int)
    requires
        0 <= from,
        0 <= end <= s.len(),
    ensures
        first_at(s.take(end), c, from) == (match first_at(s, c, from) {
            Some(j) => if j < end { Some(j) } else { None },
            None => None,
        }),
    decreases s.len() - from,
{
    if from < s.len() && s[from] != c {
        lemma_first_at_prefix(s, c, end, from + 1);
    }
}

} // verus!
