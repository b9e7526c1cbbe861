//! Texts as sequences of characters: searching, splitting, and numbers in decimal notation.
use vstd::prelude::*;
use vstd::string::StrSliceExecFns;
use vstd::string::StringExecFns;
use vstd::utf8;

verus! {

/// `pattern` stands in `text` at position `i`.
pub open spec fn occurs_at(text: Seq<char>, pattern: Seq<char>, i: int) -> bool {
    0 <= i && i + pattern.len() <= text.len() && text.subrange(i, i + pattern.len() as int)
        == pattern
}

/// The first position, from `from` on, at which `pattern` stands in `text`.
pub open spec fn find_from(text: Seq<char>, pattern: Seq<char>, from: int) -> Option<int>
    decreases text.len() - from,
{
    if from + pattern.len() > text.len() || from < 0 {
        None
    } else if occurs_at(text, pattern, from) {
        Some(from)
    } else if from >= text.len() {
        None
    } else {
        find_from(text, pattern, from + 1)
    }
}

/// What stands before and behind the first occurrence of `pattern` in `text`.
pub open spec fn split_once_at(text: Seq<char>, pattern: Seq<char>) -> Option<
    (Seq<char>, Seq<char>),
> {
    match find_from(text, pattern, 0) {
        None => None,
        Some(i) => Some((text.take(i), text.skip(i + pattern.len() as int))),
    }
}

/// A position that was found is one at which the pattern stands.
pub proof fn lemma_found(text: Seq<char>, pattern: Seq<char>, from: int)
    requires
        from >= 0,
    ensures
        find_from(text, pattern, from) matches Some(i) ==> from <= i && occurs_at(text, pattern, i)
            && forall|j: int| from <= j < i ==> !occurs_at(text, pattern, j),
        find_from(text, pattern, from) is None ==> forall|j: int|
            from <= j ==> !occurs_at(text, pattern, j),
    decreases text.len() - from,
{
    if from + pattern.len() <= text.len() && !occurs_at(text, pattern, from) && from < text.len() {
        lemma_found(text, pattern, from + 1);
    }
}

/// A line without its line ending.
pub open spec fn without_carriage_return(line: Seq<char>) -> Seq<char> {
    if line.len() > 0 && line.last() == '\r' {
        line.drop_last()
    } else {
        line
    }
}

/// The lines of a text. A line ends with a line feed, or a carriage return and a line feed; the
/// last line may end with the text instead.
pub open spec fn lines_of(text: Seq<char>) -> Seq<Seq<char>>
    decreases text.len(),
    via lines_of_decreases
{
    if text.len() == 0 {
        Seq::empty()
    } else {
        match find_from(text, seq!['\n'], 0) {
            None => seq![text],
            Some(i) => seq![without_carriage_return(text.take(i))] + lines_of(text.skip(i + 1)),
        }
    }
}

#[via_fn]
proof fn lines_of_decreases(text: Seq<char>) {
    lemma_found(text, seq!['\n'], 0);
}

/// The characters that separate words.
pub open spec fn is_white_space(c: char) -> bool {
    ||| '\u{9}' <= c <= '\u{D}'
    ||| c == ' '
    ||| c == '\u{85}'
    ||| c == '\u{A0}'
    ||| c == '\u{1680}'
    ||| '\u{2000}' <= c <= '\u{200A}'
    ||| c == '\u{2028}'
    ||| c == '\u{2029}'
    ||| c == '\u{202F}'
    ||| c == '\u{205F}'
    ||| c == '\u{3000}'
}

/// How many characters at the beginning of a text are white space, or are not.
pub open spec fn run_length(text: Seq<char>, white: bool) -> int
    decreases text.len(),
{
    if text.len() == 0 || is_white_space(text[0]) != white {
        0
    } else {
        1 + run_length(text.skip(1), white)
    }
}

proof fn lemma_run_length(text: Seq<char>, white: bool)
    ensures
        0 <= run_length(text, white) <= text.len(),
    decreases text.len(),
{
    if text.len() > 0 && is_white_space(text[0]) == white {
        lemma_run_length(text.skip(1), white);
    }
}

/// The words of a text: what is left when it is cut at white space.
pub open spec fn words_of(text: Seq<char>) -> Seq<Seq<char>>
    decreases text.len(),
    via words_of_decreases
{
    let start = run_length(text, true);
    let rest = text.skip(start);
    if rest.len() == 0 {
        Seq::empty()
    } else {
        let len = run_length(rest, false);
        seq![rest.take(len)] + words_of(rest.skip(len))
    }
}

#[via_fn]
proof fn words_of_decreases(text: Seq<char>) {
    lemma_run_length(text, true);
    let rest = text.skip(run_length(text, true));
    lemma_run_length(rest, false);
    if rest.len() > 0 {
        lemma_word_follows(text);
    }
}

/// What follows the white space at the beginning of a text is not white space.
proof fn lemma_word_follows(text: Seq<char>)
    ensures
        ({
            let start = run_length(text, true);
            start < text.len() ==> !is_white_space(text[start])
        }),
        ({
            let rest = text.skip(run_length(text, true));
            rest.len() > 0 ==> run_length(rest, false) > 0
        }),
    decreases text.len(),
{
    lemma_run_length(text, true);
    if text.len() > 0 && is_white_space(text[0]) {
        lemma_word_follows(text.skip(1));
        lemma_run_length(text.skip(1), true);
        assert(text.skip(1).skip(run_length(text.skip(1), true)) =~= text.skip(
            run_length(text, true),
        ));
    }
    let rest = text.skip(run_length(text, true));
    if rest.len() > 0 {
        lemma_run_length(rest.skip(1), false);
    }
}

pub open spec fn is_digit(c: char) -> bool {
    '0' <= c <= '9'
}

pub open spec fn digit_value(c: char) -> int {
    c as int - '0' as int
}

pub open spec fn all_digits(text: Seq<char>) -> bool {
    forall|i: int| 0 <= i < text.len() ==> is_digit(#[trigger] text[i])
}

/// The number that a sequence of digits stands for.
pub open spec fn digits_value(text: Seq<char>) -> int
    decreases text.len(),
{
    if text.len() == 0 {
        0
    } else {
        digits_value(text.drop_last()) * 10 + digit_value(text.last())
    }
}

/// The digits of a number that may have a plus sign in front.
pub open spec fn unsigned_digits(text: Seq<char>) -> Seq<char> {
    if text.len() > 0 && text[0] == '+' {
        text.skip(1)
    } else {
        text
    }
}

/// The number that a text stands for, if it is one and fits into a machine word.
pub open spec fn number_of(text: Seq<char>) -> Option<int> {
    let digits = unsigned_digits(text);
    if digits.len() > 0 && all_digits(digits) && digits_value(digits) <= usize::MAX {
        Some(digits_value(digits))
    } else {
        None
    }
}

/// The character for a digit.
pub open spec fn digit_char(d: int) -> char {
    (d + '0' as int) as char
}

/// A number in decimal notation, without leading zeros.
pub open spec fn decimal(n: nat) -> Seq<char>
    decreases n,
{
    if n < 10 {
        seq![digit_char(n as int)]
    } else {
        decimal(n / 10).push(digit_char((n % 10) as int))
    }
}

/// A number in decimal notation, with at least two digits.
pub open spec fn two_digits(n: nat) -> Seq<char> {
    if n < 10 {
        seq!['0'] + decimal(n)
    } else {
        decimal(n)
    }
}

/// The lower case form of an ASCII letter; other characters stay.
pub open spec fn ascii_lowercase(c: char) -> char {
    if 'A' <= c <= 'Z' {
        (c as int + 32) as char
    } else {
        c
    }
}

pub open spec fn ascii_lowercase_text(text: Seq<char>) -> Seq<char> {
    text.map_values(|c: char| ascii_lowercase(c))
}

/// The characters of a text.
pub fn chars_of(text: &str) -> (chars: Vec<char>)
    ensures
        chars@ == text@,
{
    let mut chars: Vec<char> = Vec::new();
    for c in it: text.chars()
        invariant
            it.seq() == text@,
            chars@ == text@.take(it.index() as int),
    {
        proof {
            assert(text@.take(it.index() as int).push(c) =~= text@.take(it.index() + 1));
        }
        chars.push(c);
    }
    assert(text@.take(text@.len() as int) =~= text@);
    chars
}

/// Where a sequence of bytes stops being text. Nothing is known of its contents.
#[verifier::external_type_specification]
#[verifier::external_body]
pub struct ExUtf8Error(core::str::Utf8Error);

/// [`core::str::from_utf8`] reads bytes as text. It succeeds on UTF-8, and nowhere else.
pub assume_specification[ core::str::from_utf8 ](v: &[u8]) -> (result: Result<
    &str,
    core::str::Utf8Error,
>)
    ensures
        result is Ok <==> utf8::valid_utf8(v@),
        result matches Ok(read) ==> read@ == utf8::decode_utf8(v@),
;

/// [`String::push`] adds one character at the end of a text.
pub assume_specification[ String::push ](string: &mut String, c: char)
    ensures
        final(string)@ == old(string)@.push(c),
;

/// Whether `pattern` stands in `text` at position `i`.
fn stands_at(text: &Vec<char>, pattern: &Vec<char>, i: usize) -> (result: bool)
    requires
        i + pattern@.len() <= text@.len(),
    ensures
        result == occurs_at(text@, pattern@, i as int),
{
    let mut j: usize = 0;
    while j < pattern.len()
        invariant
            j <= pattern.len(),
            i + pattern.len() <= text.len(),
            forall|k: int| 0 <= k < j ==> text@[i + k] == #[trigger] pattern@[k],
        decreases pattern.len() - j,
    {
        if text[i + j] != pattern[j] {
            assert(text@.subrange(i as int, i + pattern@.len())[j as int] != pattern@[j as int]);
            return false;
        }
        j = j + 1;
    }
    assert(text@.subrange(i as int, i + pattern@.len()) =~= pattern@);
    true
}

/// Finds the first occurrence of a pattern, from a position on.
pub fn find(text: &Vec<char>, pattern: &Vec<char>, from: usize) -> (position: Option<usize>)
    ensures
        match position {
            None => find_from(text@, pattern@, from as int) is None,
            Some(i) => find_from(text@, pattern@, from as int) == Some(i as int),
        },
{
    if pattern.len() > text.len() {
        return None;
    }
    let last: usize = text.len() - pattern.len();
    let mut i: usize = from;
    while i <= last
        invariant
            last == text@.len() - pattern@.len(),
            find_from(text@, pattern@, from as int) == find_from(text@, pattern@, i as int),
        decreases last + 1 - i,
    {
        if stands_at(text, pattern, i) {
            return Some(i);
        }
        if i == text.len() {
            return None;
        }
        i = i + 1;
    }
    None
}

/// Cuts a text at the first occurrence of a pattern.
pub fn split_once<'a>(text: &'a str, pattern: &str) -> (parts: Option<(&'a str, &'a str)>)
    ensures
        match parts {
            None => split_once_at(text@, pattern@) is None,
            Some((before, behind)) => split_once_at(text@, pattern@) == Some(
                (before@, behind@),
            ),
        },
{
    let chars = chars_of(text);
    let pattern_chars = chars_of(pattern);
    match find(&chars, &pattern_chars, 0) {
        None => None,
        Some(i) => {
            proof {
                lemma_found(text@, pattern@, 0);
            }
            assert(i + pattern_chars.len() <= chars.len());
            let before = text.substring_char(0, i);
            let behind = text.substring_char(i + pattern_chars.len(), chars.len());
            Some((before, behind))
        },
    }
}

/// The texts of a list.
pub open spec fn views(list: Seq<&str>) -> Seq<Seq<char>> {
    list.map_values(|text: &str| text@)
}

proof fn lemma_views_push(list: Seq<&str>, text: &str)
    ensures
        views(list.push(text)) == views(list).push(text@),
{
    assert(views(list.push(text)) =~= views(list).push(text@));
}

/// The lines of a text.
pub fn lines<'a>(text: &'a str) -> (lines: Vec<&'a str>)
    ensures
        views(lines@) == lines_of(text@),
{
    let chars = chars_of(text);
    let mut line_feed: Vec<char> = Vec::new();
    line_feed.push('\n');
    assert(line_feed@ =~= seq!['\n']);
    let mut lines: Vec<&'a str> = Vec::new();
    let mut start: usize = 0;
    assert(text@.skip(0) =~= text@);
    assert(views(lines@) + lines_of(text@) =~= lines_of(text@));
    while start < chars.len()
        invariant
            chars@ == text@,
            line_feed@ == seq!['\n'],
            start <= chars@.len(),
            views(lines@) + lines_of(text@.skip(start as int)) == lines_of(text@),
        decreases chars.len() - start,
    {
        let ghost rest = text@.skip(start as int);
        proof {
            lemma_find_in_rest(text@, seq!['\n'], start as int, 0);
            lemma_found(rest, seq!['\n'], 0);
        }
        match find(&chars, &line_feed, start) {
            None => {
                let line = text.substring_char(start, chars.len());
                proof {
                    assert(line@ =~= rest);
                    lemma_views_push(lines@, line);
                    assert(text@.skip(chars@.len() as int).len() == 0);
                    assert(lines_of(rest) =~= seq![rest]);
                    assert(views(lines@.push(line)) + lines_of(text@.skip(chars@.len() as int))
                        =~= views(lines@) + lines_of(rest));
                }
                lines.push(line);
                start = chars.len();
            },
            Some(i) => {
                let end: usize = if i > start && chars[i - 1] == '\r' {
                    i - 1
                } else {
                    i
                };
                let line = text.substring_char(start, end);
                proof {
                    let full = rest.take(i - start);
                    assert(full.len() > 0 ==> full.last() == text@[i - 1]);
                    assert(line@ =~= without_carriage_return(full));
                    lemma_views_push(lines@, line);
                    assert(rest.skip(i - start + 1) =~= text@.skip(i + 1));
                    assert(views(lines@.push(line)) + lines_of(text@.skip(i + 1)) =~= views(lines@)
                        + lines_of(rest));
                }
                lines.push(line);
                start = i + 1;
            },
        }
    }
    assert(text@.skip(start as int).len() == 0);
    assert(views(lines@) + lines_of(text@.skip(start as int)) =~= views(lines@));
    lines
}

/// Searching in the rest of a text finds the same position, counted from the rest.
proof fn lemma_find_in_rest(text: Seq<char>, pattern: Seq<char>, start: int, from: int)
    requires
        0 <= start <= text.len(),
        0 <= from,
    ensures
        find_from(text, pattern, start + from) == match find_from(
            text.skip(start),
            pattern,
            from,
        ) {
            None => None,
            Some(i) => Some(start + i),
        },
    decreases text.len() - start - from,
{
    let rest = text.skip(start);
    if from + pattern.len() <= rest.len() {
        assert(rest.subrange(from, from + pattern.len() as int) =~= text.subrange(
            start + from,
            start + from + pattern.len() as int,
        ));
        assert(occurs_at(rest, pattern, from) == occurs_at(text, pattern, start + from));
        if from < rest.len() {
            lemma_find_in_rest(text, pattern, start, from + 1);
        }
    }
}

/// Whether a character separates words.
pub fn is_space(c: char) -> (result: bool)
    ensures
        result == is_white_space(c),
{
    ('\u{9}' <= c && c <= '\u{D}') || c == ' ' || c == '\u{85}' || c == '\u{A0}' || c == '\u{1680}'
        || ('\u{2000}' <= c && c <= '\u{200A}') || c == '\u{2028}' || c == '\u{2029}' || c
        == '\u{202F}' || c == '\u{205F}' || c == '\u{3000}'
}

/// The end of the run of white space, or of other characters, that starts at `start`.
fn end_of_run(chars: &Vec<char>, start: usize, white: bool) -> (end: usize)
    requires
        start <= chars@.len(),
    ensures
        end == start + run_length(chars@.skip(start as int), white),
        start <= end <= chars@.len(),
{
    let mut i: usize = start;
    proof {
        lemma_run_length(chars@.skip(start as int), white);
    }
    while i < chars.len() && is_space(chars[i]) == white
        invariant
            start <= i <= chars@.len(),
            start + run_length(chars@.skip(start as int), white) == i + run_length(
                chars@.skip(i as int),
                white,
            ),
        decreases chars.len() - i,
    {
        assert(chars@.skip(i as int).skip(1) =~= chars@.skip(i + 1));
        i = i + 1;
    }
    i
}

/// The words of a text.
pub fn words<'a>(text: &'a str) -> (words: Vec<&'a str>)
    ensures
        views(words@) == words_of(text@),
{
    let chars = chars_of(text);
    let mut words: Vec<&'a str> = Vec::new();
    let mut position: usize = 0;
    assert(text@.skip(0) =~= text@);
    assert(views(words@) + words_of(text@) =~= words_of(text@));
    loop
        invariant
            chars@ == text@,
            position <= chars@.len(),
            views(words@) + words_of(text@.skip(position as int)) == words_of(text@),
        decreases chars.len() - position,
    {
        let ghost before = text@.skip(position as int);
        let start: usize = end_of_run(&chars, position, true);
        proof {
            lemma_word_follows(before);
            assert(before.skip(start - position) =~= text@.skip(start as int));
        }
        if start == chars.len() {
            assert(views(words@) + words_of(before) =~= views(words@));
            return words;
        }
        let end: usize = end_of_run(&chars, start, false);
        let word = text.substring_char(start, end);
        proof {
            let rest = text@.skip(start as int);
            assert(word@ =~= rest.take(end - start));
            assert(rest.skip(end - start) =~= text@.skip(end as int));
            lemma_views_push(words@, word);
            assert(views(words@.push(word)) + words_of(text@.skip(end as int)) =~= views(words@)
                + words_of(before));
        }
        words.push(word);
        position = end;
    }
}

/// Reads a number in decimal notation.
pub fn parse_number(text: &str) -> (number: Option<usize>)
    ensures
        match number {
            None => number_of(text@) is None,
            Some(n) => number_of(text@) == Some(n as int),
        },
{
    let chars = chars_of(text);
    let start: usize = if chars.len() > 0 && chars[0] == '+' {
        1
    } else {
        0
    };
    let ghost digits = unsigned_digits(text@);
    assert(digits =~= text@.skip(start as int));
    if start == chars.len() {
        return None;
    }
    let mut number: usize = 0;
    let mut i: usize = start;
    assert(digits.take(0) =~= Seq::<char>::empty());
    while i < chars.len()
        invariant
            chars@ == text@,
            start <= i <= chars@.len(),
            digits == text@.skip(start as int),
            digits == unsigned_digits(text@),
            all_digits(digits.take(i - start)),
            number == digits_value(digits.take(i - start)),
        decreases chars.len() - i,
    {
        let c = chars[i];
        let ghost read = digits.take(i - start);
        let ghost longer = digits.take(i - start + 1);
        assert(longer.drop_last() =~= read);
        assert(longer.last() == c);
        if !('0' <= c && c <= '9') {
            assert(!is_digit(digits[i - start]));
            return None;
        }
        let digit: usize = c as usize - '0' as usize;
        assert(digits_value(longer) == number * 10 + digit);
        if number > (usize::MAX - digit) / 10 {
            proof {
                lemma_digits_grow(digits, i - start + 1);
            }
            return None;
        }
        number = number * 10 + digit;
        proof {
            assert forall|k: int| 0 <= k < longer.len() implies is_digit(#[trigger] longer[k]) by {
                if k < read.len() {
                    assert(is_digit(read[k]));
                }
            }
        }
        i = i + 1;
    }
    assert(digits.take(i - start) =~= digits);
    Some(number)
}

/// A longer sequence of digits stands for a number that is not smaller.
proof fn lemma_digits_grow(digits: Seq<char>, n: int)
    requires
        0 <= n <= digits.len(),
    ensures
        all_digits(digits) ==> digits_value(digits.take(n)) <= digits_value(digits),
        all_digits(digits) ==> 0 <= digits_value(digits),
    decreases digits.len(),
{
    if n == digits.len() {
        assert(digits.take(n) =~= digits);
    }
    if all_digits(digits) && digits.len() > 0 {
        let shorter = digits.drop_last();
        assert forall|i: int| 0 <= i < shorter.len() implies is_digit(#[trigger] shorter[i]) by {
            assert(shorter[i] == digits[i]);
        }
        assert(is_digit(digits[digits.len() - 1]));
        if n < digits.len() {
            lemma_digits_grow(shorter, n);
            assert(shorter.take(n) =~= digits.take(n));
        } else {
            lemma_digits_grow(shorter, 0);
        }
    }
}

/// Appends a number in decimal notation.
pub fn push_decimal(text: &mut String, n: u64)
    ensures
        final(text)@ == old(text)@ + decimal(n as nat),
    decreases n,
{
    if n >= 10 {
        push_decimal(text, n / 10);
    }
    let digit = (48u8 + (n % 10) as u8) as char;
    text.push(digit);
    assert(text@ =~= old(text)@ + decimal(n as nat));
}

/// Appends a number in decimal notation, with at least two digits.
pub fn push_two_digits(text: &mut String, n: u64)
    ensures
        final(text)@ == old(text)@ + two_digits(n as nat),
{
    if n < 10 {
        text.push('0');
    }
    push_decimal(text, n);
    assert(text@ =~= old(text)@ + two_digits(n as nat));
}

/// Changes ASCII letters to lower case.
pub fn to_ascii_lowercase(text: &str) -> (lower: String)
    ensures
        lower@ == ascii_lowercase_text(text@),
{
    let chars = chars_of(text);
    let mut lower = String::new();
    let mut i: usize = 0;
    while i < chars.len()
        invariant
            chars@ == text@,
            i <= chars@.len(),
            lower@ == ascii_lowercase_text(text@.take(i as int)),
        decreases chars.len() - i,
    {
        let c = chars[i];
        let l = if 'A' <= c && c <= 'Z' {
            (c as u8 + 32) as char
        } else {
            c
        };
        lower.push(l);
        assert(lower@ =~= ascii_lowercase_text(text@.take(i + 1)));
        i = i + 1;
    }
    assert(text@.take(i as int) =~= text@);
    lower
}

/// Whether two texts are the same.
pub fn same_text(a: &str, b: &str) -> (result: bool)
    ensures
        result == (a@ == b@),
{
    let left = chars_of(a);
    let right = chars_of(b);
    if left.len() != right.len() {
        return false;
    }
    let mut i: usize = 0;
    while i < left.len()
        invariant
            left@ == a@,
            right@ == b@,
            left@.len() == right@.len(),
            i <= left@.len(),
            forall|j: int| 0 <= j < i ==> #[trigger] left@[j] == right@[j],
        decreases left.len() - i,
    {
        if left[i] != right[i] {
            return false;
        }
        i = i + 1;
    }
    assert(left@ =~= right@);
    true
}

/// Writing a number and reading it gives the number again.
pub proof fn law_numbers_round_trip(n: nat)
    requires
        n <= usize::MAX,
    ensures
        number_of(decimal(n)) == Some(n as int),
{
    lemma_decimal(n);
    let text = decimal(n);
    assert(is_digit(text[0]));
    assert(unsigned_digits(text) == text);
}

proof fn lemma_decimal(n: nat)
    ensures
        decimal(n).len() > 0,
        all_digits(decimal(n)),
        digits_value(decimal(n)) == n,
    decreases n,
{
    reveal_with_fuel(digits_value, 2);
    let last = digit_char((n % 10) as int);
    assert(is_digit(last) && digit_value(last) == n % 10);
    if n < 10 {
        assert(seq![last].drop_last() =~= Seq::<char>::empty());
    } else {
        lemma_decimal(n / 10);
        assert(decimal(n).drop_last() =~= decimal(n / 10));
    }
}

/// A search finds the first place from its start on at which the pattern stands, and misses none.
pub proof fn law_searches_find_the_first_place(text: Seq<char>, pattern: Seq<char>, from: int)
    requires
        from >= 0,
    ensures
        find_from(text, pattern, from) matches Some(i) ==> {
            &&& from <= i <= i + pattern.len() <= text.len()
            &&& text.subrange(i, i + pattern.len() as int) == pattern
        },
        forall|j: int|
            from <= j && j + pattern.len() <= text.len() && #[trigger] text.subrange(
                j,
                j + pattern.len() as int,
            ) == pattern ==> (find_from(text, pattern, from) matches Some(i) && i <= j),
{
    lemma_found(text, pattern, from);
    assert forall|j: int|
        from <= j && j + pattern.len() <= text.len() && #[trigger] text.subrange(
            j,
            j + pattern.len() as int,
        ) == pattern implies (find_from(text, pattern, from) matches Some(i) && i <= j) by {
        assert(occurs_at(text, pattern, j));
    }
}

/// Cutting a text loses nothing: the two parts with the pattern between them are the text. The cut
/// is at the first place where the pattern stands, and a text that holds the pattern is cut.
pub proof fn law_cutting_loses_nothing(text: Seq<char>, pattern: Seq<char>)
    ensures
        split_once_at(text, pattern) matches Some((before, behind)) ==> text == before + pattern
            + behind,
        forall|j: int|
            0 <= j && j + pattern.len() <= text.len() && #[trigger] text.subrange(
                j,
                j + pattern.len() as int,
            ) == pattern ==> (split_once_at(text, pattern) matches Some((before, _)) && before.len()
                <= j),
{
    law_searches_find_the_first_place(text, pattern, 0);
    if let Some(i) = find_from(text, pattern, 0) {
        assert(text =~= text.take(i) + text.subrange(i, i + pattern.len() as int) + text.skip(
            i + pattern.len() as int,
        ));
    }
}

/// The first place at which a pattern stands is the one that is found.
proof fn lemma_first_place(text: Seq<char>, pattern: Seq<char>, from: int, n: int)
    requires
        0 <= from <= n,
        occurs_at(text, pattern, n),
        forall|j: int| from <= j < n ==> !occurs_at(text, pattern, j),
    ensures
        find_from(text, pattern, from) == Some(n),
    decreases n - from,
{
    if from < n {
        assert(!occurs_at(text, pattern, from));
        lemma_first_place(text, pattern, from + 1, n);
    }
}

/// A pattern whose first character a text does not hold is found behind the text.
proof fn lemma_found_behind(before: Seq<char>, pattern: Seq<char>, behind: Seq<char>)
    requires
        pattern.len() > 0,
        !before.contains(pattern[0]),
    ensures
        find_from(before + pattern + behind, pattern, 0) == Some(before.len() as int),
        (before + pattern + behind).take(before.len() as int) == before,
        (before + pattern + behind).skip(before.len() + pattern.len() as int) == behind,
{
    let text = before + pattern + behind;
    let n = before.len() as int;
    assert(text.subrange(n, n + pattern.len() as int) =~= pattern);
    assert forall|j: int| 0 <= j < n implies !occurs_at(text, pattern, j) by {
        if occurs_at(text, pattern, j) {
            assert(text.subrange(j, j + pattern.len() as int)[0] == text[j]);
            assert(before[j] == pattern[0]);
        }
    }
    lemma_first_place(text, pattern, 0, n);
    assert(text.take(n) =~= before);
    assert(text.skip(n + pattern.len() as int) =~= behind);
}

/// A text is cut where the pattern first stands.
pub proof fn law_texts_are_cut_at_the_first_place(text: Seq<char>, pattern: Seq<char>, n: int)
    requires
        0 <= n <= text.len() - pattern.len(),
        text.subrange(n, n + pattern.len()) == pattern,
        forall|i: int|
            0 <= i < n ==> #[trigger] text.subrange(i, i + pattern.len() as int) != pattern,
    ensures
        split_once_at(text, pattern) == Some((text.take(n), text.skip(n + pattern.len()))),
{
    lemma_first_place(text, pattern, 0, n);
}

/// Texts that are joined by a character which the first does not hold are cut apart again there.
pub proof fn law_joined_texts_are_cut_apart(before: Seq<char>, c: char, behind: Seq<char>)
    requires
        !before.contains(c),
    ensures
        split_once_at(before + seq![c] + behind, seq![c]) == Some((before, behind)),
{
    lemma_found_behind(before, seq![c], behind);
}

/// Texts that are joined by a pattern are cut apart again there, where the first text does not hold
/// the character that the pattern begins with.
pub proof fn law_joined_texts_are_cut_apart_at_a_pattern(
    before: Seq<char>,
    pattern: Seq<char>,
    behind: Seq<char>,
)
    requires
        pattern.len() > 0,
        !before.contains(pattern[0]),
    ensures
        split_once_at(before + pattern + behind, pattern) == Some((before, behind)),
{
    lemma_found_behind(before, pattern, behind);
}

/// A text without a line feed is one line, unless it is empty, which is none.
pub proof fn law_a_text_without_line_feeds_is_one_line(text: Seq<char>)
    requires
        !text.contains('\n'),
    ensures
        text.len() == 0 ==> lines_of(text).len() == 0,
        text.len() > 0 ==> lines_of(text) == seq![text],
{
    law_searches_find_the_first_place(text, seq!['\n'], 0);
    if let Some(i) = find_from(text, seq!['\n'], 0) {
        assert(text.subrange(i, i + 1)[0] == text[i]);
    }
}

/// A line ends at the first line feed, with or without a carriage return before it, and the lines
/// behind it are those of the rest.
pub proof fn law_lines_end_at_line_feeds(line: Seq<char>, rest: Seq<char>)
    requires
        !line.contains('\n'),
    ensures
        lines_of(line + seq!['\r', '\n'] + rest) == seq![line] + lines_of(rest),
        line.len() == 0 || line[line.len() - 1] != '\r' ==> lines_of(line + seq!['\n'] + rest)
            == seq![line] + lines_of(rest),
{
    lemma_first_of_the_lines(line, rest);
    let marked = line.push('\r');
    assert(!marked.contains('\n')) by {
        if marked.contains('\n') {
            let i = choose|i: int| 0 <= i < marked.len() && marked[i] == '\n';
            assert(line[i] == '\n');
        }
    }
    lemma_first_of_the_lines(marked, rest);
    assert(line + seq!['\r', '\n'] + rest =~= marked + seq!['\n'] + rest);
    assert(marked.drop_last() =~= line);
}

proof fn lemma_first_of_the_lines(line: Seq<char>, rest: Seq<char>)
    requires
        !line.contains('\n'),
    ensures
        lines_of(line + seq!['\n'] + rest) == seq![without_carriage_return(line)] + lines_of(rest),
{
    lemma_found_behind(line, seq!['\n'], rest);
    assert(lines_of(line + seq!['\n'] + rest) == seq![without_carriage_return(line)] + lines_of(
        (line + seq!['\n'] + rest).skip(line.len() as int + 1),
    ));
}

/// White space is the blank, the controls from tab to carriage return, and the blanks of other
/// scripts.
pub proof fn law_white_space_is_listed(c: char)
    ensures
        is_white_space(c) <==> seq![
            0x9int,
            0xA,
            0xB,
            0xC,
            0xD,
            0x20,
            0x85,
            0xA0,
            0x1680,
            0x2000,
            0x2001,
            0x2002,
            0x2003,
            0x2004,
            0x2005,
            0x2006,
            0x2007,
            0x2008,
            0x2009,
            0x200A,
            0x2028,
            0x2029,
            0x202F,
            0x205F,
            0x3000,
        ].contains(c as int),
{
    let listed = seq![
        0x9int,
        0xA,
        0xB,
        0xC,
        0xD,
        0x20,
        0x85,
        0xA0,
        0x1680,
        0x2000,
        0x2001,
        0x2002,
        0x2003,
        0x2004,
        0x2005,
        0x2006,
        0x2007,
        0x2008,
        0x2009,
        0x200A,
        0x2028,
        0x2029,
        0x202F,
        0x205F,
        0x3000,
    ];
    let n = c as int;
    if is_white_space(c) {
        let place = if n <= 0xD {
            n - 9
        } else if n == 0x20 {
            5
        } else if n == 0x85 {
            6
        } else if n == 0xA0 {
            7
        } else if n == 0x1680 {
            8
        } else if n <= 0x200A {
            n - 0x2000 + 9
        } else if n == 0x2028 {
            20
        } else if n == 0x2029 {
            21
        } else if n == 0x202F {
            22
        } else if n == 0x205F {
            23
        } else {
            24
        };
        assert(listed[place] == n);
    }
}

/// White space in front of a text is no part of its words.
pub proof fn law_leading_white_space_is_skipped(c: char, text: Seq<char>)
    requires
        is_white_space(c),
    ensures
        words_of(seq![c] + text) == words_of(text),
{
    let padded = seq![c] + text;
    assert(padded.skip(1) =~= text);
    lemma_run_length(text, true);
    assert(padded.skip(run_length(padded, true)) =~= text.skip(run_length(text, true)));
}

/// A word ends where white space begins, and the words behind it are those of the rest.
pub proof fn law_words_end_at_white_space(word: Seq<char>, rest: Seq<char>)
    requires
        word.len() > 0,
        forall|i: int| 0 <= i < word.len() ==> !is_white_space(#[trigger] word[i]),
        rest.len() > 0 ==> is_white_space(rest[0]),
    ensures
        words_of(word + rest) == seq![word] + words_of(rest),
        words_of(Seq::<char>::empty()).len() == 0,
{
    let text = word + rest;
    assert(text[0] == word[0]);
    assert(run_length(text, true) == 0);
    assert(text.skip(0) =~= text);
    lemma_word_length(word, rest);
    assert(text.take(word.len() as int) =~= word);
    assert(text.skip(word.len() as int) =~= rest);
    lemma_run_length(Seq::<char>::empty(), true);
}

proof fn lemma_word_length(word: Seq<char>, rest: Seq<char>)
    requires
        forall|i: int| 0 <= i < word.len() ==> !is_white_space(#[trigger] word[i]),
        rest.len() > 0 ==> is_white_space(rest[0]),
    ensures
        run_length(word + rest, false) == word.len(),
    decreases word.len(),
{
    if word.len() == 0 {
        assert(word + rest =~= rest);
    } else {
        let shorter = word.skip(1);
        assert forall|i: int| 0 <= i < shorter.len() implies !is_white_space(
            #[trigger] shorter[i],
        ) by {
            assert(shorter[i] == word[i + 1]);
        }
        lemma_word_length(shorter, rest);
        assert((word + rest).skip(1) =~= shorter + rest);
    }
}

/// A digit behind a number makes it ten times as large, and adds the value of the digit. A number
/// that does not fit into a machine word is none.
pub proof fn law_numbers_are_read_digit_by_digit(text: Seq<char>, digit: char)
    requires
        '0' <= digit <= '9',
    ensures
        number_of(seq![digit]) == Some(digit as int - 0x30),
        number_of(text) matches Some(n) ==> number_of(text.push(digit)) == (if 10 * n + (
        digit as int - 0x30) <= usize::MAX {
            Some(10 * n + (digit as int - 0x30))
        } else {
            None
        }),
        number_of(text) is None && text.len() > 0 && text != seq!['+'] ==> number_of(
            text.push(digit),
        ) is None,
{
    reveal_with_fuel(digits_value, 2);
    let single = seq![digit];
    assert(single.drop_last() =~= Seq::<char>::empty());
    assert(unsigned_digits(single) == single);
    assert(digits_value(single) == digit_value(digit));
    let longer = text.push(digit);
    let digits = unsigned_digits(text);
    if text.len() > 0 {
        assert(longer[0] == text[0]);
        assert(unsigned_digits(longer) =~= digits.push(digit));
        assert(digits.push(digit).drop_last() =~= digits);
        if all_digits(digits.push(digit)) {
            assert forall|i: int| 0 <= i < digits.len() implies is_digit(#[trigger] digits[i]) by {
                assert(digits.push(digit)[i] == digits[i]);
            }
            lemma_digits_value_is_not_negative(digits);
        }
        if digits.len() == 0 {
            assert(text =~= seq!['+']);
        }
    }
}

proof fn lemma_digits_value_is_not_negative(digits: Seq<char>)
    requires
        all_digits(digits),
    ensures
        digits_value(digits) >= 0,
    decreases digits.len(),
{
    if digits.len() > 0 {
        let shorter = digits.drop_last();
        assert forall|i: int| 0 <= i < shorter.len() implies is_digit(#[trigger] shorter[i]) by {
            assert(shorter[i] == digits[i]);
        }
        assert(is_digit(digits[digits.len() - 1]));
        lemma_digits_value_is_not_negative(shorter);
    }
}

/// A number is never negative, and fits into a machine word.
pub proof fn law_numbers_fit(text: Seq<char>)
    ensures
        number_of(text) matches Some(n) ==> 0 <= n <= usize::MAX,
{
    if number_of(text) is Some {
        lemma_digits_value_is_not_negative(unsigned_digits(text));
    }
}

/// A plus sign in front of a number changes nothing, unless it is the second one.
pub proof fn law_a_plus_sign_changes_nothing(text: Seq<char>)
    ensures
        text.len() == 0 || text[0] != '+' ==> number_of(seq!['+'] + text) == number_of(text),
        text.len() > 0 && text[0] == '+' ==> number_of(seq!['+'] + text) is None,
{
    let signed = seq!['+'] + text;
    assert(signed.skip(1) =~= text);
    if text.len() > 0 && text[0] == '+' {
        assert(!is_digit(text[0]));
    }
}

/// A text that is no number: one without a digit, or with anything but digits behind its first
/// character.
pub proof fn law_other_texts_are_no_numbers(text: Seq<char>, i: int)
    ensures
        text.len() == 0 ==> number_of(text) is None,
        text == seq!['+'] ==> number_of(text) is None,
        0 <= i < text.len() && !('0' <= text[i] <= '9') && (i > 0 || text[i] != '+') ==> number_of(
            text,
        ) is None,
{
    if 0 <= i < text.len() && !('0' <= text[i] <= '9') && (i > 0 || text[i] != '+') {
        let digits = unsigned_digits(text);
        if text[0] == '+' {
            assert(digits[i - 1] == text[i]);
        } else {
            assert(digits[i] == text[i]);
        }
    }
}

/// A number is written with digits alone, without a zero in front unless it is zero.
pub proof fn law_numbers_are_written_without_leading_zeros(n: nat)
    ensures
        decimal(n).len() > 0,
        forall|i: int| 0 <= i < decimal(n).len() ==> '0' <= #[trigger] decimal(n)[i] <= '9',
        n > 0 ==> decimal(n)[0] != '0',
        n == 0 ==> decimal(n).len() == 1,
        n >= 10 ==> decimal(n).len() == decimal(n / 10).len() + 1,
    decreases n,
{
    lemma_decimal(n);
    assert forall|i: int| 0 <= i < decimal(n).len() implies '0' <= #[trigger] decimal(n)[i]
        <= '9' by {
        assert(is_digit(decimal(n)[i]));
    }
    if n >= 10 {
        law_numbers_are_written_without_leading_zeros(n / 10);
        assert(decimal(n)[0] == decimal(n / 10)[0]);
    }
}

/// A number below a hundred takes two digits, a larger one as many as it has; either is read as
/// the number again.
pub proof fn law_two_digits_stand_for_the_number(n: nat)
    requires
        n <= usize::MAX,
    ensures
        number_of(two_digits(n)) == Some(n as int),
        n < 100 ==> two_digits(n).len() == 2,
        n >= 10 ==> two_digits(n) == decimal(n),
{
    law_numbers_round_trip(n);
    law_numbers_are_written_without_leading_zeros(n);
    if n < 10 {
        reveal_with_fuel(digits_value, 3);
        let text = two_digits(n);
        assert(text =~= seq!['0', digit_char(n as int)]);
        assert(unsigned_digits(text) == text);
        assert(text.drop_last() =~= seq!['0']);
        assert(seq!['0'].drop_last() =~= Seq::<char>::empty());
    } else if n < 100 {
        law_numbers_are_written_without_leading_zeros(n / 10);
        assert(decimal(n / 10).len() == 1);
    }
}

/// The lower case form of a text has no capital letter, differs from the text only where a capital
/// stood, and is its own lower case form.
pub proof fn law_lower_case_changes_capitals_only(text: Seq<char>)
    ensures
        ascii_lowercase_text(text).len() == text.len(),
        forall|i: int|
            0 <= i < text.len() ==> {
                let lower = #[trigger] ascii_lowercase_text(text)[i];
                &&& !('A' <= lower <= 'Z')
                &&& !('A' <= text[i] <= 'Z') ==> lower == text[i]
                &&& 'A' <= text[i] <= 'Z' ==> lower as int - 'a' as int == text[i] as int
                    - 'A' as int
            },
        ascii_lowercase_text(ascii_lowercase_text(text)) == ascii_lowercase_text(text),
{
    let lower = ascii_lowercase_text(text);
    assert forall|i: int| 0 <= i < text.len() implies ascii_lowercase(
        #[trigger] lower[i],
    ) == lower[i] by {}
    assert(ascii_lowercase_text(lower) =~= lower);
}

/// The texts of a list are those of its members, in their order.
pub proof fn law_lists_keep_their_order(list: Seq<&str>, i: int)
    requires
        0 <= i < list.len(),
    ensures
        views(list).len() == list.len(),
        views(list)[i] == list[i]@,
{
}

} // verus!
