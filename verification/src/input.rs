//! What a player types: a square, or the wish to stop.

use crate::board::BOARD_SIZE;
use vstd::prelude::*;

verus! {

/// What one line of input asks for.
#[derive(Debug, Clone, Copy, PartialEq, Eq, Structural)]
pub enum Entry {
    /// The player wants to stop.
    Quit,
    /// The square `(row, col)` of the grid.
    Move(usize, usize),
    /// The line does not consist of two words.
    NotTwoParts,
    /// One of the two words is not a number.
    NotNumbers,
    /// The two numbers do not name a square of the grid.
    OutOfRange,
}

/// Whether `c` is white space: a character with the Unicode property
/// `White_Space`.
pub open spec fn is_space(c: char) -> bool {
    ||| '\u{9}' <= c <= '\u{D}'
    ||| c == ' '
    ||| c == '\u{85}'
    ||| c == '\u{A0}'
    ||| c == '\u{1680}'
    ||| '\u{2000}' <= c <= '\u{200A}'
    ||| c == '\u{2028}'
    ||| c == '\u{2029}'
    ||| c == '\u{202F}'
    ||| c == '\u{205F}'
    ||| c == '\u{3000}'
}

/// `text` without the white space at its start.
pub open spec fn trim_start(text: Seq<char>) -> Seq<char>
    decreases text.len(),
{
    if text.len() > 0 && is_space(text[0]) {
        trim_start(text.drop_first())
    } else {
        text
    }
}

/// `text` without the white space at its end.
pub open spec fn trim_end(text: Seq<char>) -> Seq<char>
    decreases text.len(),
{
    if text.len() > 0 && is_space(text.last()) {
        trim_end(text.drop_last())
    } else {
        text
    }
}

/// `text` without the white space at either end.
pub open spec fn trim(text: Seq<char>) -> Seq<char> {
    trim_end(trim_start(text))
}

/// The letter `c` in lower case, if it is one of `A` to `Z`; else `c`.
pub open spec fn ascii_lower(c: char) -> char {
    if 'A' <= c <= 'Z' {
        ((c as u8 + 32) as u8) as char
    } else {
        c
    }
}

/// The two texts are equal up to the case of the letters `a` to `z`.
pub open spec fn same_ignoring_case(a: Seq<char>, b: Seq<char>) -> bool {
    &&& a.len() == b.len()
    &&& forall|i: int| 0 <= i < a.len() ==> ascii_lower(a[i]) == ascii_lower(b[i])
}

/// What a left-to-right reading of `text` has found: the words that have
/// ended, and the word that is still open (empty between words).
pub open spec fn scan_words(text: Seq<char>) -> (Seq<Seq<char>>, Seq<char>)
    decreases text.len(),
{
    if text.len() == 0 {
        (Seq::empty(), Seq::empty())
    } else {
        let (closed, open) = scan_words(text.drop_last());
        if !is_space(text.last()) {
            (closed, open.push(text.last()))
        } else if open.len() > 0 {
            (closed.push(open), Seq::empty())
        } else {
            (closed, open)
        }
    }
}

/// The words of `text`: its longest stretches without white space, first to
/// last.
pub open spec fn words(text: Seq<char>) -> Seq<Seq<char>> {
    let (closed, open) = scan_words(text);
    if open.len() > 0 {
        closed.push(open)
    } else {
        closed
    }
}

/// Whether `c` is one of the digits `0` to `9`.
pub open spec fn is_digit(c: char) -> bool {
    '0' <= c <= '9'
}

/// The value of the digit `c`; zero for any other character.
pub open spec fn digit_value(c: char) -> nat {
    if is_digit(c) {
        (c as u8 - '0' as u8) as nat
    } else {
        0
    }
}

/// Whether `text` holds digits only.
pub open spec fn all_digits(text: Seq<char>) -> bool {
    forall|i: int| 0 <= i < text.len() ==> is_digit(#[trigger] text[i])
}

/// The number that the digits of `digits` write in base ten.
pub open spec fn decimal(digits: Seq<char>) -> nat
    decreases digits.len(),
{
    if digits.len() == 0 {
        0
    } else {
        10 * decimal(digits.drop_last()) + digit_value(digits.last())
    }
}

/// The number that `digits` writes, where it holds one digit or more, nothing
/// else, and the number is no greater than `usize::MAX`.
pub open spec fn unsigned_of(digits: Seq<char>) -> Option<usize> {
    if digits.len() > 0 && all_digits(digits) && decimal(digits) <= usize::MAX {
        Some(decimal(digits) as usize)
    } else {
        None
    }
}

/// The number that `word` writes: an optional `+`, then what `unsigned_of`
/// accepts. `None` for any other word.
pub open spec fn number_of(word: Seq<char>) -> Option<usize> {
    if word.len() > 0 && word[0] == '+' {
        unsigned_of(word.drop_first())
    } else {
        unsigned_of(word)
    }
}

/// What `line` asks for. White space around it does not count. `quit` and
/// `q`, in any case, ask to stop. Otherwise the line must hold two words, both
/// must be numbers, and both numbers must be less than 3: they are the row
/// and the column of a square.
pub open spec fn entry_of(line: Seq<char>) -> Entry {
    let text = trim(line);
    if same_ignoring_case(text, seq!['q', 'u', 'i', 't']) || same_ignoring_case(text, seq!['q']) {
        Entry::Quit
    } else if words(text).len() != 2 {
        Entry::NotTwoParts
    } else {
        match (number_of(words(text)[0]), number_of(words(text)[1])) {
            (Some(row), Some(col)) => if row < 3 && col < 3 {
                Entry::Move(row, col)
            } else {
                Entry::OutOfRange
            },
            _ => Entry::NotNumbers,
        }
    }
}

/// Whether `c` is white space.
fn is_whitespace(c: char) -> (space: bool)
    ensures
        space == is_space(c),
{
    ('\u{9}' <= c && c <= '\u{D}') || c == ' ' || c == '\u{85}' || c == '\u{A0}' || c == '\u{1680}'
        || ('\u{2000}' <= c && c <= '\u{200A}') || c == '\u{2028}' || c == '\u{2029}' || c
        == '\u{202F}' || c == '\u{205F}' || c == '\u{3000}'
}

/// `c` in lower case, where it is one of `A` to `Z`.
fn to_lower(c: char) -> (lower: char)
    ensures
        lower == ascii_lower(c),
{
    if 'A' <= c && c <= 'Z' {
        ((c as u8) + 32) as char
    } else {
        c
    }
}

/// The characters of `line`.
fn chars_of(line: &str) -> (chars: Vec<char>)
    ensures
        chars@ == line@,
{
    let mut chars: Vec<char> = Vec::new();
    for c in it: line.chars()
        invariant
            chars@ == it.seq().take(it.index()),
    {
        chars.push(c);
    }
    chars
}

/// No word holds white space and none is empty, neither among those that a
/// reading has closed nor the one it has open.
pub proof fn lemma_words_hold_no_space(text: Seq<char>)
    ensures
        forall|k: int, i: int|
            0 <= k < words(text).len() && 0 <= i < words(text)[k].len() ==> !is_space(
                #[trigger] words(text)[k][i],
            ),
        forall|k: int| 0 <= k < words(text).len() ==> (#[trigger] words(text)[k]).len() > 0,
{
    lemma_scan_holds_no_space(text);
}

/// `lemma_words_hold_no_space`, for a reading in progress.
proof fn lemma_scan_holds_no_space(text: Seq<char>)
    ensures
        forall|k: int, i: int|
            0 <= k < scan_words(text).0.len() && 0 <= i < scan_words(text).0[k].len() ==> !is_space(
                #[trigger] scan_words(text).0[k][i],
            ),
        forall|k: int|
            0 <= k < scan_words(text).0.len() ==> (#[trigger] scan_words(text).0[k]).len() > 0,
        forall|i: int|
            0 <= i < scan_words(text).1.len() ==> !is_space(#[trigger] scan_words(text).1[i]),
    decreases text.len(),
{
    if text.len() > 0 {
        lemma_scan_holds_no_space(text.drop_last());
        let (closed, open) = scan_words(text.drop_last());
        let (closed_now, open_now) = scan_words(text);
        assert forall|k: int| 0 <= k < closed_now.len() implies (#[trigger] closed_now[k]).len() > 0
            && (forall|i: int| 0 <= i < closed_now[k].len() ==> !is_space(closed_now[k][i])) by {
            if k < closed.len() {
                assert(closed_now[k] == closed[k]);
                assert forall|i: int| 0 <= i < closed[k].len() implies !is_space(closed[k][i]) by {
                    assert(!is_space(scan_words(text.drop_last()).0[k][i]));
                }
            } else {
                assert(closed_now[k] == open);
            }
        }
    }
}

/// A prefix of a digit string writes no greater a number than the whole.
proof fn lemma_decimal_grows(digits: Seq<char>, n: int)
    requires
        0 <= n <= digits.len(),
    ensures
        decimal(digits.take(n)) <= decimal(digits),
    decreases digits.len() - n,
{
    if n < digits.len() {
        lemma_decimal_grows(digits, n + 1);
        assert(digits.take(n + 1).drop_last() == digits.take(n));
    } else {
        assert(digits.take(n) == digits);
    }
}

/// Where `chars` begins once the white space at its start is left out.
fn skip_spaces(chars: &Vec<char>) -> (start: usize)
    ensures
        start <= chars.len(),
        trim_start(chars@) == chars@.skip(start as int),
{
    let mut start: usize = 0;
    assert(chars@.skip(0) == chars@);
    while start < chars.len() && is_whitespace(chars[start])
        invariant
            start <= chars.len(),
            trim_start(chars@) == trim_start(chars@.skip(start as int)),
        decreases chars.len() - start,
    {
        assert(chars@.skip(start as int).drop_first() == chars@.skip(start + 1));
        start += 1;
    }
    start
}

/// Where `chars`, read from `start`, ends once the white space at its end is
/// left out.
fn drop_spaces(chars: &Vec<char>, start: usize) -> (end: usize)
    requires
        start <= chars.len(),
    ensures
        start <= end <= chars.len(),
        trim_end(chars@.skip(start as int)) == chars@.subrange(start as int, end as int),
{
    let mut end: usize = chars.len();
    assert(chars@.skip(start as int) == chars@.subrange(start as int, end as int));
    while end > start && is_whitespace(chars[end - 1])
        invariant
            start <= end <= chars.len(),
            trim_end(chars@.skip(start as int)) == trim_end(
                chars@.subrange(start as int, end as int),
            ),
        decreases end,
    {
        assert(chars@.subrange(start as int, end as int).drop_last() == chars@.subrange(
            start as int,
            end - 1,
        ));
        end -= 1;
    }
    end
}

/// `chars` without the white space at either end.
fn trimmed(chars: &Vec<char>) -> (text: Vec<char>)
    ensures
        text@ == trim(chars@),
{
    let start = skip_spaces(chars);
    let end = drop_spaces(chars, start);
    let mut text: Vec<char> = Vec::new();
    let mut i: usize = start;
    while i < end
        invariant
            start <= i <= end <= chars.len(),
            text@ == chars@.subrange(start as int, i as int),
        decreases end - i,
    {
        text.push(chars[i]);
        i += 1;
    }
    text
}

/// Whether `text` is `word`, up to the case of letters.
fn matches_word(text: &Vec<char>, word: &[char]) -> (same: bool)
    ensures
        same == same_ignoring_case(text@, word@),
{
    if text.len() != word.len() {
        return false;
    }
    let mut i: usize = 0;
    while i < text.len()
        invariant
            i <= text.len() == word.len(),
            forall|k: int| 0 <= k < i ==> ascii_lower(text@[k]) == ascii_lower(word@[k]),
        decreases text.len() - i,
    {
        if to_lower(text[i]) != to_lower(word[i]) {
            return false;
        }
        i += 1;
    }
    true
}

/// The words of `text`.
fn split_words(text: &Vec<char>) -> (parts: Vec<Vec<char>>)
    ensures
        parts@.map_values(|part: Vec<char>| part@) == words(text@),
{
    let mut parts: Vec<Vec<char>> = Vec::new();
    let mut part: Vec<char> = Vec::new();
    let mut i: usize = 0;
    assert(text@.take(0) == Seq::<char>::empty());
    while i < text.len()
        invariant
            i <= text.len(),
            (parts@.map_values(|part: Vec<char>| part@), part@) == scan_words(text@.take(i as int)),
        decreases text.len() - i,
    {
        let c = text[i];
        proof {
            assert(text@.take(i + 1).drop_last() == text@.take(i as int));
        }
        let ghost before = parts@.map_values(|part: Vec<char>| part@);
        if !is_whitespace(c) {
            part.push(c);
        } else if part.len() > 0 {
            let ghost closed = part@;
            parts.push(part);
            part = Vec::new();
            assert(parts@.map_values(|part: Vec<char>| part@) == before.push(closed));
        }
        i += 1;
    }
    assert(text@.take(i as int) == text@);
    if part.len() > 0 {
        let ghost before = parts@.map_values(|part: Vec<char>| part@);
        let ghost closed = part@;
        parts.push(part);
        assert(parts@.map_values(|part: Vec<char>| part@) == before.push(closed));
    }
    parts
}

/// The number that `word` writes, if it writes one that fits.
fn parse_number(word: &Vec<char>) -> (number: Option<usize>)
    ensures
        number == number_of(word@),
{
    let start: usize = if word.len() > 0 && word[0] == '+' {
        1
    } else {
        0
    };
    let ghost digits = word@.skip(start as int);
    assert(digits == if start == 1 {
        word@.drop_first()
    } else {
        word@
    });
    if start == word.len() {
        return None;
    }
    let mut value: usize = 0;
    let mut i: usize = start;
    assert(digits.take(0) == Seq::<char>::empty());
    while i < word.len()
        invariant
            start <= i <= word.len(),
            digits == word@.skip(start as int),
            number_of(word@) == unsigned_of(digits),
            forall|k: int| 0 <= k < i - start ==> is_digit(#[trigger] digits[k]),
            value == decimal(digits.take(i - start)),
        decreases word.len() - i,
    {
        let c = word[i];
        if !('0' <= c && c <= '9') {
            assert(!is_digit(digits[i - start]));
            return None;
        }
        let digit = (c as u8 - '0' as u8) as usize;
        proof {
            assert(digits.take(i - start + 1).drop_last() == digits.take(i - start));
            assert(digits.take(i - start + 1).last() == c);
            lemma_decimal_grows(digits, i - start + 1);
        }
        if value > (usize::MAX - digit) / 10 {
            return None;
        }
        value = value * 10 + digit;
        i += 1;
    }
    assert(digits.take(i - start) == digits);
    Some(value)
}

/// Reads one line of input: tells what it asks for, or in which way it fails
/// to name a square.
pub fn read_entry(line: &str) -> (entry: Entry)
    ensures
        entry == entry_of(line@),
{
    let chars = chars_of(line);
    let text = trimmed(&chars);
    let quit: [char; 4] = ['q', 'u', 'i', 't'];
    let q: [char; 1] = ['q'];
    assert(quit@ == seq!['q', 'u', 'i', 't']);
    assert(q@ == seq!['q']);
    if matches_word(&text, quit.as_slice()) || matches_word(&text, q.as_slice()) {
        return Entry::Quit;
    }
    let parts = split_words(&text);
    if parts.len() != 2 {
        return Entry::NotTwoParts;
    }
    match (parse_number(&parts[0]), parse_number(&parts[1])) {
        (Some(row), Some(col)) => {
            if row < BOARD_SIZE && col < BOARD_SIZE {
                Entry::Move(row, col)
            } else {
                Entry::OutOfRange
            }
        },
        _ => Entry::NotNumbers,
    }
}

} // verus!
