//! The little of XML that a cascade file needs: contents of elements, and numbers in them.

use crate::text::is_white;
use crate::text::white;
use vstd::prelude::*;

verus! {

/// `pattern` stands in `text` at `at`.
pub open spec fn occurs(text: Seq<char>, pattern: Seq<char>, at: int) -> bool {
    &&& 0 <= at
    &&& at + pattern.len() <= text.len()
    &&& text.subrange(at, at + pattern.len()) == pattern
}

/// The first place at or after `from` at which `pattern` stands in `text`.
pub open spec fn found(text: Seq<char>, pattern: Seq<char>, from: int) -> Option<int>
    decreases text.len() + 1 - from,
{
    if from + pattern.len() > text.len() {
        None
    } else if occurs(text, pattern, from) {
        Some(from)
    } else {
        found(text, pattern, from + 1)
    }
}

fn stands_at(text: &[char], pattern: &[char], at: usize) -> (r: bool)
    requires
        at + pattern@.len() <= text@.len(),
    ensures
        r == occurs(text@, pattern@, at as int),
{
    let mut k: usize = 0;
    while k < pattern.len()
        invariant
            at + pattern@.len() <= text@.len(),
            k <= pattern@.len(),
            forall|m: int| 0 <= m < k ==> text@[at + m] == #[trigger] pattern@[m],
        decreases pattern@.len() - k,
    {
        assert(text.len() == text@.len());
        if text[at + k] != pattern[k] {
            assert(text@.subrange(at as int, at + pattern@.len())[k as int] != pattern@[k as int]);
            return false;
        }
        k = k + 1;
    }
    assert(text@.subrange(at as int, at + pattern@.len()) =~= pattern@);
    true
}

/// Looks for `pattern` from `from` on.
pub fn find(text: &[char], pattern: &[char], from: usize) -> (at: Option<usize>)
    ensures
        match at {
            Some(at) => found(text@, pattern@, from as int) == Some(at as int) && from <= at && at
                + pattern@.len() <= text@.len(),
            None => found(text@, pattern@, from as int) is None,
        },
{
    if pattern.len() > text.len() {
        return None;
    }
    let last: usize = text.len() - pattern.len();
    let mut at: usize = from;
    while at <= last
        invariant
            from <= at,
            last + pattern@.len() == text@.len(),
            found(text@, pattern@, from as int) == found(text@, pattern@, at as int),
        decreases last + 1 - at,
    {
        assert(text.len() == text@.len());
        if stands_at(text, pattern, at) {
            return Some(at);
        }
        if at == last {
            assert(found(text@, pattern@, at + 1) is None);
            return None;
        }
        at = at + 1;
    }
    None
}

/// Copies a part of the text.
pub fn part(text: &[char], start: usize, end: usize) -> (copy: Vec<char>)
    requires
        start <= end <= text@.len(),
    ensures
        copy@ == text@.subrange(start as int, end as int),
{
    let mut copy: Vec<char> = Vec::new();
    let mut k: usize = start;
    while k < end
        invariant
            start <= k <= end <= text@.len(),
            copy@ == text@.subrange(start as int, k as int),
        decreases end - k,
    {
        copy.push(text[k]);
        k = k + 1;
    }
    copy
}

/// What stands between `open` tags up to the first `close` tag behind each, or up to the next
/// `open` tag or the end of the text where there is none.
pub open spec fn contents(
    text: Seq<char>,
    open: Seq<char>,
    close: Seq<char>,
    from: int,
) -> Seq<Seq<char>>
    decreases text.len() - from,
{
    match found(text, open, from) {
        Some(at) if from <= at && open.len() > 0 && at + open.len() <= text.len() => {
            let start = at + open.len();
            let end = match found(text, open, start) {
                Some(next) => next,
                None => text.len() as int,
            };
            let piece = text.subrange(start, end);
            let content = match found(piece, close, 0) {
                Some(stop) => piece.take(stop),
                None => piece,
            };
            seq![content] + contents(text, open, close, start)
        },
        _ => Seq::empty(),
    }
}

/// `<tag>`.
pub open spec fn open_tag(tag: Seq<char>) -> Seq<char> {
    seq!['<'] + tag + seq!['>']
}

/// `</tag>`.
pub open spec fn close_tag(tag: Seq<char>) -> Seq<char> {
    seq!['<', '/'] + tag + seq!['>']
}

/// The texts of a list of texts.
pub open spec fn texts(list: Seq<Vec<char>>) -> Seq<Seq<char>> {
    list.map_values(|text: Vec<char>| text@)
}

fn tagged(slash: bool, tag: &[char]) -> (whole: Vec<char>)
    ensures
        whole@ == (if slash {
            close_tag(tag@)
        } else {
            open_tag(tag@)
        }),
{
    let mut whole: Vec<char> = Vec::new();
    whole.push('<');
    if slash {
        whole.push('/');
    }
    let ghost head = whole@;
    let mut k: usize = 0;
    while k < tag.len()
        invariant
            k <= tag@.len(),
            whole@ == head + tag@.take(k as int),
        decreases tag@.len() - k,
    {
        whole.push(tag[k]);
        k = k + 1;
    }
    whole.push('>');
    whole
}

/// Contents of every `<tag>` element, in document order.
pub fn elements(xml: &[char], tag: &[char]) -> (list: Vec<Vec<char>>)
    ensures
        texts(list@) == contents(xml@, open_tag(tag@), close_tag(tag@), 0),
{
    let open: Vec<char> = tagged(false, tag);
    let close: Vec<char> = tagged(true, tag);
    let mut list: Vec<Vec<char>> = Vec::new();
    let mut from: usize = 0;
    let mut at: Option<usize> = find(xml, open.as_slice(), 0);
    let ghost all = contents(xml@, open@, close@, 0);
    assert(texts(list@) + all =~= all);
    while at.is_some()
        invariant
            open@ == open_tag(tag@),
            close@ == close_tag(tag@),
            all == contents(xml@, open@, close@, 0),
            match at {
                Some(at) => found(xml@, open@, from as int) == Some(at as int) && from <= at && at
                    + open@.len() <= xml@.len(),
                None => found(xml@, open@, from as int) is None,
            },
            texts(list@) + contents(xml@, open@, close@, from as int) == all,
        decreases xml@.len() - from + (if at is Some {
            1int
        } else {
            0int
        }),
    {
        let found_at: usize = at.unwrap();
        assert(xml.len() == xml@.len());
        let start: usize = found_at + open.len();
        let next: Option<usize> = find(xml, open.as_slice(), start);
        let end: usize = match next {
            Some(next) => next,
            None => xml.len(),
        };
        let piece: Vec<char> = part(xml, start, end);
        let content: Vec<char> = match find(piece.as_slice(), close.as_slice(), 0) {
            Some(stop) => part(piece.as_slice(), 0, stop),
            None => piece,
        };
        let ghost before = list@;
        list.push(content);
        assert(texts(list@) =~= texts(before).push(content@));
        assert(texts(list@) + contents(xml@, open@, close@, start as int) =~= texts(before) + (
        seq![content@] + contents(xml@, open@, close@, start as int)));
        from = start;
        at = next;
    }
    assert(texts(list@) + contents(xml@, open@, close@, from as int) =~= texts(list@));
    list
}

/// The first place at or after `from` whose character is white space, or is not.
pub open spec fn next_white(text: Seq<char>, from: int, white: bool) -> int
    decreases text.len() - from,
{
    if from >= text.len() || is_white(text[from]) == white {
        from
    } else {
        next_white(text, from + 1, white)
    }
}

proof fn lemma_next_white(text: Seq<char>, from: int, white: bool)
    requires
        0 <= from <= text.len(),
    ensures
        from <= next_white(text, from, white) <= text.len(),
    decreases text.len() - from,
{
    if from < text.len() && is_white(text[from]) != white {
        lemma_next_white(text, from + 1, white);
    }
}

/// The words of `text` from `from` on: the longest runs without white space.
pub open spec fn words_from(text: Seq<char>, from: int) -> Seq<Seq<char>>
    decreases text.len() - from,
{
    let start = next_white(text, from, false);
    let end = next_white(text, start, true);
    if from <= start < end <= text.len() {
        seq![text.subrange(start, end)] + words_from(text, end)
    } else {
        Seq::empty()
    }
}

fn seek(text: &[char], from: usize, wanted: bool) -> (at: usize)
    requires
        from <= text@.len(),
    ensures
        at == next_white(text@, from as int, wanted),
        from <= at <= text@.len(),
{
    let mut at: usize = from;
    while at < text.len() && white(text[at]) != wanted
        invariant
            from <= at <= text@.len(),
            next_white(text@, from as int, wanted) == next_white(text@, at as int, wanted),
        decreases text@.len() - at,
    {
        at = at + 1;
    }
    at
}

/// Splits a text at its white space.
pub fn words(text: &[char]) -> (list: Vec<Vec<char>>)
    ensures
        texts(list@) == words_from(text@, 0),
{
    let mut list: Vec<Vec<char>> = Vec::new();
    let mut start: usize = seek(text, 0, false);
    let ghost mut from = 0int;
    assert(texts(list@) + words_from(text@, 0) =~= words_from(text@, 0));
    while start < text.len()
        invariant
            0 <= from <= start <= text@.len(),
            start == next_white(text@, from, false),
            texts(list@) + words_from(text@, from) == words_from(text@, 0),
        decreases text@.len() - start,
    {
        let end: usize = seek(text, start, true);
        let ghost before = list@;
        proof {
            lemma_next_white_is(text@, from, false);
            lemma_next_white(text@, start + 1, true);
        }
        let word: Vec<char> = part(text, start, end);
        list.push(word);
        assert(texts(list@) =~= texts(before).push(word@));
        assert(texts(list@) + words_from(text@, end as int) =~= texts(before) + (seq![word@]
            + words_from(text@, end as int)));
        proof {
            from = end as int;
        }
        start = seek(text, end, false);
    }
    assert(words_from(text@, from) =~= Seq::empty());
    assert(texts(list@) + words_from(text@, from) =~= texts(list@));
    list
}

proof fn lemma_next_white_is(text: Seq<char>, from: int, white: bool)
    requires
        0 <= from,
    ensures
        next_white(text, from, white) < text.len() ==> is_white(
            text[next_white(text, from, white)],
        ) == white,
    decreases text.len() - from,
{
    if from < text.len() && is_white(text[from]) != white {
        lemma_next_white_is(text, from + 1, white);
    }
}

/// `c` is a decimal digit.
pub open spec fn is_digit(c: char) -> bool {
    '0' <= c && c <= '9'
}

/// The number that a run of digits denotes.
pub open spec fn value(digits: Seq<char>) -> nat
    decreases digits.len(),
{
    if digits.len() == 0 {
        0
    } else {
        value(digits.drop_last()) * 10 + (digits.last() as int - '0' as int) as nat
    }
}

/// One or more digits, and nothing else.
pub open spec fn is_digits(word: Seq<char>) -> bool {
    &&& word.len() > 0
    &&& forall|k: int| 0 <= k < word.len() ==> is_digit(#[trigger] word[k])
}

proof fn lemma_value_grows(digits: Seq<char>, n: int)
    requires
        0 <= n <= digits.len(),
    ensures
        value(digits.take(n)) <= value(digits),
    decreases digits.len(),
{
    if n < digits.len() {
        lemma_value_grows(digits.drop_last(), n);
        assert(digits.drop_last().take(n) =~= digits.take(n));
    } else {
        assert(digits.take(n) =~= digits);
    }
}

/// Reads the digits of `word` from `from` on, if they denote a number up to `limit`.
fn natural(word: &[char], from: usize, limit: u64) -> (n: Option<u64>)
    requires
        from <= word@.len(),
    ensures
        match n {
            Some(n) => is_digits(word@.skip(from as int)) && value(word@.skip(from as int)) == n
                && n <= limit,
            None => !(is_digits(word@.skip(from as int)) && value(word@.skip(from as int))
                <= limit),
        },
{
    let ghost digits = word@.skip(from as int);
    if from >= word.len() {
        return None;
    }
    let mut n: u64 = 0;
    let mut k: usize = from;
    while k < word.len()
        invariant
            from <= k <= word@.len(),
            digits == word@.skip(from as int),
            forall|m: int| 0 <= m < k - from ==> is_digit(#[trigger] digits[m]),
            n == value(digits.take(k - from)),
            n <= limit,
        decreases word@.len() - k,
    {
        let c: char = word[k];
        assert(digits[k - from] == c);
        if !('0' <= c && c <= '9') {
            return None;
        }
        let d: u64 = (c as u32 - '0' as u32) as u64;
        let more: u128 = n as u128 * 10 + d as u128;
        proof {
            let taken = digits.take(k + 1 - from);
            assert(taken.drop_last() =~= digits.take(k - from));
            assert(value(taken) == more);
            lemma_value_grows(digits, k + 1 - from);
        }
        if more > limit as u128 {
            return None;
        }
        n = more as u64;
        k = k + 1;
    }
    assert(digits.take(k - from) =~= digits);
    Some(n)
}

/// A number that a word can denote.
pub trait Number: Sized {
    /// The number that `word` denotes, if it denotes one.
    spec fn denoted(word: Seq<char>) -> Option<Self>;

    /// Reads a number.
    fn read(word: &[char]) -> (n: Option<Self>)
        ensures
            n == Self::denoted(word@),
    ;
}

/// How many characters of `word` are a sign: a `+`, or a `-` where that is allowed.
pub open spec fn sign_len(word: Seq<char>, minus: bool) -> int {
    if word.len() > 0 && (word[0] == '+' || (minus && word[0] == '-')) {
        1
    } else {
        0
    }
}

impl Number for usize {
    /// An optional `+` and digits.
    open spec fn denoted(word: Seq<char>) -> Option<usize> {
        let digits = word.skip(sign_len(word, false));
        if is_digits(digits) && value(digits) <= usize::MAX {
            Some(value(digits) as usize)
        } else {
            None
        }
    }

    fn read(word: &[char]) -> (n: Option<usize>) {
        let from: usize = if word.len() > 0 && word[0] == '+' {
            1
        } else {
            0
        };
        match natural(word, from, usize::MAX as u64) {
            Some(n) => Some(n as usize),
            None => None,
        }
    }
}

impl Number for i32 {
    /// An optional sign and digits.
    open spec fn denoted(word: Seq<char>) -> Option<i32> {
        let digits = word.skip(sign_len(word, true));
        let n = if word.len() > 0 && word[0] == '-' {
            -value(digits)
        } else {
            value(digits) as int
        };
        if is_digits(digits) && i32::MIN <= n <= i32::MAX {
            Some(n as i32)
        } else {
            None
        }
    }

    fn read(word: &[char]) -> (n: Option<i32>) {
        if word.len() > 0 && word[0] == '-' {
            match natural(word, 1, 0x8000_0000) {
                Some(n) => Some((-(n as i64)) as i32),
                None => None,
            }
        } else {
            let from: usize = if word.len() > 0 && word[0] == '+' {
                1
            } else {
                0
            };
            match natural(word, from, 0x7fff_ffff) {
                Some(n) => Some(n as i32),
                None => None,
            }
        }
    }
}

/// The numbers that a list of words denotes, if each of them denotes one.
pub open spec fn numbers_of<T: Number>(list: Seq<Seq<char>>) -> Option<Seq<T>> {
    if forall|k: int| 0 <= k < list.len() ==> T::denoted(#[trigger] list[k]) is Some {
        Some(list.map_values(|word: Seq<char>| T::denoted(word)->0))
    } else {
        None
    }
}

/// Whether every word of a text is a number.
pub fn are_numbers<T: Number>(text: &[char]) -> (r: bool)
    ensures
        r == (numbers_of::<T>(words_from(text@, 0)) is Some),
{
    let text_words: Vec<Vec<char>> = words(text);
    let ghost all = words_from(text@, 0);
    let mut k: usize = 0;
    while k < text_words.len()
        invariant
            all == words_from(text@, 0),
            texts(text_words@) == all,
            k <= text_words@.len(),
            forall|m: int| 0 <= m < k ==> T::denoted(#[trigger] all[m]) is Some,
        decreases text_words@.len() - k,
    {
        assert(all[k as int] == text_words@[k as int]@);
        if T::read(text_words[k].as_slice()).is_none() {
            return false;
        }
        k = k + 1;
    }
    true
}

/// Reads the numbers of a text that holds nothing else.
pub fn numbers<T: Number>(text: &[char]) -> (list: Vec<T>)
    requires
        numbers_of::<T>(words_from(text@, 0)) is Some,
    ensures
        numbers_of::<T>(words_from(text@, 0)) == Some(list@),
{
    let text_words: Vec<Vec<char>> = words(text);
    let ghost all = words_from(text@, 0);
    let mut list: Vec<T> = Vec::new();
    let mut k: usize = 0;
    while k < text_words.len()
        invariant
            texts(text_words@) == all,
            forall|m: int| 0 <= m < all.len() ==> T::denoted(#[trigger] all[m]) is Some,
            k <= text_words@.len(),
            list@.len() == k,
            forall|m: int| 0 <= m < k ==> T::denoted(#[trigger] all[m]) == Some(list@[m]),
        decreases text_words@.len() - k,
    {
        assert(all[k as int] == text_words@[k as int]@);
        list.push(T::read(text_words[k].as_slice()).unwrap());
        k = k + 1;
    }
    assert(list@ =~= all.map_values(|word: Seq<char>| T::denoted(word)->0));
    list
}

} // verus!
