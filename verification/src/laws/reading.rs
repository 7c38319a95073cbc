//! How texts are taken apart: elements, words and numbers.

use crate::face::cascade::elements_of;
use crate::face::markup::close_tag;
use crate::face::markup::contents;
use crate::face::markup::found;
use crate::face::markup::is_digits;
use crate::face::markup::next_white;
use crate::face::markup::numbers_of;
use crate::face::markup::occurs;
use crate::face::markup::open_tag;
use crate::face::markup::value;
use crate::face::markup::words_from;
use crate::face::markup::Number;
use crate::laws::options::law_decimals_read_back;
use crate::text::decimal;
use crate::text::is_white;
use vstd::prelude::*;

verus! {

/// `pattern` is found at the first place where it stands, from `from` on.
pub proof fn law_the_first_place_is_found(text: Seq<char>, pattern: Seq<char>, from: int, at: int)
    requires
        0 <= from,
    ensures
        found(text, pattern, from) == Some(at) <==> {
            &&& from <= at
            &&& at + pattern.len() <= text.len()
            &&& text.subrange(at, at + pattern.len()) == pattern
            &&& forall|k: int|
                from <= k < at ==> #[trigger] text.subrange(k, k + pattern.len()) != pattern
        },
        found(text, pattern, from) is None <==> forall|k: int|
            from <= k && k + pattern.len() <= text.len() ==> #[trigger] text.subrange(
                k,
                k + pattern.len(),
            ) != pattern,
    decreases text.len() + 1 - from,
{
    let n = pattern.len() as int;
    if from + n > text.len() {
    } else if occurs(text, pattern, from) {
        assert(text.subrange(from, from + n) == pattern);
    } else {
        law_the_first_place_is_found(text, pattern, from + 1, at);
        assert(text.subrange(from, from + n) != pattern);
        assert forall|k: int|
            from <= k && #[trigger] text.subrange(k, k + n) == pattern implies from + 1 <= k by {
            if k == from {
                assert(text.subrange(from, from + n) != pattern);
            }
        }
    }
}

proof fn lemma_found_at(text: Seq<char>, pattern: Seq<char>, from: int, at: int)
    requires
        0 <= from <= at,
        occurs(text, pattern, at),
        forall|k: int| from <= k < at ==> !#[trigger] occurs(text, pattern, k),
    ensures
        found(text, pattern, from) == Some(at),
    decreases at - from,
{
    if from < at {
        assert(!occurs(text, pattern, from));
        lemma_found_at(text, pattern, from + 1, at);
    }
}

proof fn lemma_found_later(text: Seq<char>, pattern: Seq<char>, from: int, to: int)
    requires
        0 <= from <= to <= text.len(),
        forall|k: int| from <= k < to ==> !#[trigger] occurs(text, pattern, k),
    ensures
        found(text, pattern, from) == found(text, pattern, to),
        found(text, pattern, from) matches Some(at) ==> to <= at && at + pattern.len()
            <= text.len(),
    decreases text.len() + 1 - from,
{
    if from < to {
        assert(!occurs(text, pattern, from));
        if from + pattern.len() <= text.len() {
            lemma_found_later(text, pattern, from + 1, to);
        } else {
            assert(found(text, pattern, to) is None);
        }
    } else {
        lemma_found_fits(text, pattern, from);
    }
}

proof fn lemma_found_fits(text: Seq<char>, pattern: Seq<char>, from: int)
    requires
        0 <= from,
    ensures
        found(text, pattern, from) matches Some(at) ==> from <= at && at + pattern.len()
            <= text.len(),
    decreases text.len() + 1 - from,
{
    if from + pattern.len() <= text.len() && !occurs(text, pattern, from) {
        lemma_found_fits(text, pattern, from + 1);
    }
}

proof fn lemma_found_skip(text: Seq<char>, pattern: Seq<char>, by: int, from: int)
    requires
        0 <= by <= text.len(),
        0 <= from,
    ensures
        found(text, pattern, by + from) == (match found(text.skip(by), pattern, from) {
            Some(at) => Some(at + by),
            None => None,
        }),
    decreases text.len() + 1 - by - from,
{
    let rest = text.skip(by);
    if by + from + pattern.len() <= text.len() {
        assert(rest.subrange(from, from + pattern.len()) =~= text.subrange(
            by + from,
            by + from + pattern.len(),
        ));
        if !occurs(text, pattern, by + from) {
            lemma_found_skip(text, pattern, by, from + 1);
        }
    }
}

proof fn lemma_contents_skip(
    text: Seq<char>,
    open: Seq<char>,
    close: Seq<char>,
    by: int,
    from: int,
)
    requires
        0 <= by <= text.len(),
        0 <= from,
    ensures
        contents(text, open, close, by + from) == contents(text.skip(by), open, close, from),
    decreases text.len() - by - from,
{
    let rest = text.skip(by);
    lemma_found_skip(text, open, by, from);
    lemma_found_fits(rest, open, from);
    if let Some(at) = found(rest, open, from) {
        if open.len() > 0 {
            let start = at + open.len();
            lemma_found_skip(text, open, by, start);
            lemma_found_fits(rest, open, start);
            let end = match found(rest, open, start) {
                Some(next) => next,
                None => rest.len() as int,
            };
            assert(rest.subrange(start, end) =~= text.subrange(by + start, by + end));
            lemma_contents_skip(text, open, close, by, start);
        }
    }
}

/// A text has no character of a kind.
pub open spec fn lacks(text: Seq<char>, c: char) -> bool {
    forall|k: int| 0 <= k < text.len() ==> #[trigger] text[k] != c
}

proof fn lemma_no_tag_at(text: Seq<char>, tag: Seq<char>, at: int, k: int)
    requires
        0 <= k < at < k + tag.len(),
        at < text.len(),
        text[at] == '<',
        forall|i: int| 1 <= i < tag.len() ==> #[trigger] tag[i] != '<',
    ensures
        !occurs(text, tag, k),
{
    if occurs(text, tag, k) {
        let there = text.subrange(k, k + tag.len());
        assert(there[at - k] == text[at]);
        assert(tag[at - k] != '<');
    }
}

/// What stands between a tag and its end is an element's content, and what follows is read the same
/// way, in document order. Texts without the tag have no such element.
pub proof fn law_elements_stand_between_their_tags(
    front: Seq<char>,
    tag: Seq<char>,
    inner: Seq<char>,
    rest: Seq<char>,
)
    requires
        tag.len() > 0,
        lacks(tag, '<'),
        lacks(tag, '/'),
        lacks(inner, '<'),
        forall|k: int|
            0 <= k && k + tag.len() + 2 <= front.len() ==> #[trigger] front.subrange(
                k,
                k + tag.len() + 2,
            ) != seq!['<'] + tag + seq!['>'],
    ensures
        elements_of(front, tag) == Seq::<Seq<char>>::empty(),
        elements_of(
            front + (seq!['<'] + tag + seq!['>']) + inner + (seq!['<', '/'] + tag + seq!['>'])
                + rest,
            tag,
        ) == seq![inner] + elements_of(rest, tag),
{
    let open = open_tag(tag);
    let close = close_tag(tag);
    assert(open =~= seq!['<'] + tag + seq!['>']);
    assert(close =~= seq!['<', '/'] + tag + seq!['>']);
    let text = front + open + inner + close + rest;
    assert(open[0] == '<' && close[0] == '<' && close[1] == '/');
    assert(open[1] == tag[0]);
    assert forall|i: int| 1 <= i < open.len() implies #[trigger] open[i] != '<' by {
        if i <= tag.len() {
            assert(open[i] == tag[i - 1]);
        }
    }
    let n = open.len() as int;
    let (f, i, c) = (front.len() as int, inner.len() as int, close.len() as int);
    assert forall|k: int| 0 <= k implies !#[trigger] occurs(front, open, k) by {
        if k + n <= f {
            assert(front.subrange(k, k + tag.len() + 2) != open);
        }
    }
    lemma_found_later(front, open, 0, f);
    assert(found(front, open, f) is None) by {
        lemma_found_fits(front, open, f);
    }
    assert(text.subrange(f, f + n) =~= open);
    assert forall|k: int| 0 <= k < f implies !#[trigger] occurs(text, open, k) by {
        if k + n <= f {
            assert(text.subrange(k, k + n) =~= front.subrange(k, k + n));
            assert(!occurs(front, open, k));
        } else {
            assert(text[f] == open[0]);
            lemma_no_tag_at(text, open, f, k);
        }
    }
    lemma_found_at(text, open, 0, f);
    let start = f + n;
    let after = start + i + c;
    assert forall|k: int| start <= k < after implies !#[trigger] occurs(text, open, k) by {
        if occurs(text, open, k) {
            let there = text.subrange(k, k + n);
            assert(there[0] == text[k]);
            assert(there[1] == text[k + 1]);
            if k < start + i {
                assert(text[k] == inner[k - start]);
            } else {
                let m = k - start - i;
                assert(text[k] == close[m]);
                if m == 0 {
                    assert(text[k + 1] == close[1]);
                    assert(tag[0] != '/');
                } else if m == 1 {
                } else if m < c - 1 {
                    assert(close[m] == tag[m - 2]);
                }
            }
        }
    }
    lemma_found_later(text, open, start, after);
    let end = match found(text, open, start) {
        Some(next) => next,
        None => text.len() as int,
    };
    let piece = text.subrange(start, end);
    assert(piece.subrange(i, i + c) =~= close);
    assert forall|k: int| 0 <= k < i implies !#[trigger] occurs(piece, close, k) by {
        if occurs(piece, close, k) {
            let there = piece.subrange(k, k + c);
            assert(there[0] == piece[k]);
            assert(piece[k] == inner[k]);
        }
    }
    lemma_found_at(piece, close, 0, i);
    assert(piece.take(i) =~= inner);
    assert(contents(text, open, close, start) == contents(text, open, close, after));
    lemma_contents_skip(text, open, close, after, 0);
    assert(text.skip(after) =~= rest);
}

proof fn lemma_next_white_bounds(text: Seq<char>, from: int, white: bool)
    requires
        0 <= from <= text.len(),
    ensures
        from <= next_white(text, from, white) <= text.len(),
        next_white(text, from, white) < text.len() ==> is_white(
            text[next_white(text, from, white)],
        ) == white,
    decreases text.len() - from,
{
    if from < text.len() && is_white(text[from]) != white {
        lemma_next_white_bounds(text, from + 1, white);
    }
}

/// Up to a white character behind a text, the ends of words are those of the text.
proof fn lemma_next_white_front(text: Seq<char>, front: Seq<char>, from: int, white: bool)
    requires
        0 <= from <= front.len() < text.len(),
        forall|k: int| 0 <= k < front.len() ==> #[trigger] text[k] == front[k],
        is_white(text[front.len() as int]),
    ensures
        white ==> next_white(text, from, true) == next_white(front, from, true),
        !white && next_white(front, from, false) < front.len() ==> next_white(text, from, false)
            == next_white(front, from, false),
        !white && next_white(front, from, false) >= front.len() ==> next_white(text, from, false)
            == next_white(text, front.len() as int + 1, false),
    decreases front.len() - from,
{
    if from < front.len() {
        assert(text[from] == front[from]);
        lemma_next_white_front(text, front, from + 1, white);
    }
}

proof fn lemma_words_front(text: Seq<char>, front: Seq<char>, from: int)
    requires
        0 <= from <= front.len() < text.len(),
        forall|k: int| 0 <= k < front.len() ==> #[trigger] text[k] == front[k],
        is_white(text[front.len() as int]),
    ensures
        words_from(text, from) == words_from(front, from) + words_from(text, front.len() as int + 1),
    decreases front.len() - from,
{
    let start = next_white(front, from, false);
    lemma_next_white_bounds(front, from, false);
    lemma_next_white_front(text, front, from, false);
    let rest = words_from(text, front.len() as int + 1);
    if start < front.len() {
        let end = next_white(front, start, true);
        lemma_next_white_bounds(front, start, true);
        lemma_next_white_bounds(front, start + 1, true);
        lemma_next_white_front(text, front, start, true);
        assert(end > start);
        lemma_words_front(text, front, end);
        assert(text.subrange(start, end) =~= front.subrange(start, end));
        let word = seq![front.subrange(start, end)];
        assert(word + (words_from(front, end) + rest) =~= (word + words_from(front, end)) + rest);
    } else {
        lemma_next_white_bounds(text, front.len() as int + 1, false);
        assert(words_from(front, from) =~= Seq::empty());
        assert(next_white(text, from, false) == next_white(text, front.len() as int + 1, false));
        assert(words_from(text, from) == words_from(text, front.len() as int + 1));
        assert(Seq::<Seq<char>>::empty() + rest =~= rest);
    }
}

proof fn lemma_next_white_skip(text: Seq<char>, by: int, from: int, white: bool)
    requires
        0 <= by <= text.len(),
        0 <= from,
    ensures
        next_white(text, by + from, white) == by + next_white(text.skip(by), from, white),
    decreases text.len() - by - from,
{
    if by + from < text.len() && is_white(text[by + from]) != white {
        assert(text.skip(by)[from] == text[by + from]);
        lemma_next_white_skip(text, by, from + 1, white);
    }
}

proof fn lemma_words_skip(text: Seq<char>, by: int, from: int)
    requires
        0 <= by <= text.len(),
        0 <= from,
    ensures
        words_from(text, by + from) == words_from(text.skip(by), from),
    decreases text.len() - by - from,
{
    let rest = text.skip(by);
    lemma_next_white_skip(text, by, from, false);
    let start = next_white(rest, from, false);
    if from <= start {
        lemma_next_white_skip(text, by, start, true);
        let end = next_white(rest, start, true);
        if start < end <= rest.len() {
            lemma_words_skip(text, by, end);
            assert(text.subrange(by + start, by + end) =~= rest.subrange(start, end));
        }
    }
}

/// Words are what stands between white space: a text cut at a white character has the words of its
/// parts, one after the other, and a text without any is a single word, if it is one at all.
pub proof fn law_words_stand_between_white_space(a: Seq<char>, c: char, b: Seq<char>)
    ensures
        is_white(c) ==> words_from(a + seq![c] + b, 0) == words_from(a, 0) + words_from(b, 0),
        a.len() > 0 && (forall|k: int| 0 <= k < a.len() ==> !is_white(#[trigger] a[k]))
            ==> words_from(a, 0) == seq![a],
        words_from(Seq::empty(), 0) == Seq::<Seq<char>>::empty(),
{
    if is_white(c) {
        let text = a + seq![c] + b;
        assert(text[a.len() as int] == c);
        lemma_words_front(text, a, 0);
        lemma_words_skip(text, a.len() as int + 1, 0);
        assert(text.skip(a.len() as int + 1) =~= b);
    }
    if a.len() > 0 && (forall|k: int| 0 <= k < a.len() ==> !is_white(#[trigger] a[k])) {
        lemma_next_white_bounds(a, 0, true);
        assert(next_white(a, 0, false) == 0) by {
            assert(!is_white(a[0]));
        }
        assert(next_white(a, 0, true) == a.len());
        assert(a.subrange(0, a.len() as int) =~= a);
        lemma_next_white_bounds(a, a.len() as int, false);
        assert(words_from(a, a.len() as int) =~= Seq::empty());
        assert(seq![a] + Seq::<Seq<char>>::empty() =~= seq![a]);
    }
}

/// Digits count ten times as much with every place, and '0' counts nothing.
pub proof fn law_digits_count_by_tens(digits: Seq<char>, c: char)
    requires
        '0' <= c <= '9',
    ensures
        value(Seq::empty()) == 0,
        value(digits.push(c)) == 10 * value(digits) + (c as int - 48),
{
    assert(digits.push(c).drop_last() =~= digits);
}

/// A word of digits denotes a number of its type if it is in range; so does one with a sign, of
/// which only a signed type has a minus. Numbers that are written in decimal read back.
pub proof fn law_numbers_read_back(n: nat)
    ensures
        usize::denoted(decimal(n)) == (if n <= usize::MAX {
            Some(n as usize)
        } else {
            None
        }),
        usize::denoted(seq!['+'] + decimal(n)) == usize::denoted(decimal(n)),
        usize::denoted(seq!['-'] + decimal(n)) is None,
        i32::denoted(decimal(n)) == (if n <= 0x7fff_ffff {
            Some(n as i32)
        } else {
            None
        }),
        i32::denoted(seq!['+'] + decimal(n)) == i32::denoted(decimal(n)),
        i32::denoted(seq!['-'] + decimal(n)) == (if n <= 0x8000_0000 {
            Some(-n as i32)
        } else {
            None
        }),
{
    let d = decimal(n);
    law_decimals_read_back(n);
    let (plus, minus) = (seq!['+'] + d, seq!['-'] + d);
    assert('0' <= d[0] && d[0] <= '9');
    assert(is_digits(d));
    assert(d.skip(0) =~= d);
    assert(plus.skip(1) =~= d);
    assert(minus.skip(1) =~= d);
    assert(minus.skip(0) =~= minus);
    assert(plus[0] == '+' && minus[0] == '-');
}

/// A word with anything but digits behind its sign, or with no digits at all, is not a number.
pub proof fn law_other_words_are_no_numbers(word: Seq<char>, k: int)
    requires
        word.len() == 0 || (1 <= k < word.len() && !('0' <= word[k] && word[k] <= '9')) || (
        word.len() == 1 && !('0' <= word[0] && word[0] <= '9')) || (word.len() > 0 && !('0'
            <= word[0] && word[0] <= '9') && word[0] != '+' && word[0] != '-'),
    ensures
        usize::denoted(word) is None,
        i32::denoted(word) is None,
{
    if word.len() > 0 {
        if 1 <= k < word.len() && !('0' <= word[k] && word[k] <= '9') {
            assert(word.skip(1)[k - 1] == word[k]);
            assert(word.skip(0)[k] == word[k]);
        } else {
            assert(word.skip(0)[0] == word[0]);
        }
    }
}

/// The numbers of a list of words are those of its words, in order, if every one denotes one.
pub proof fn law_numbers_come_in_order(list: Seq<Seq<char>>, k: int)
    requires
        0 <= k < list.len(),
    ensures
        numbers_of::<usize>(list) is Some <==> forall|i: int|
            0 <= i < list.len() ==> usize::denoted(#[trigger] list[i]) is Some,
        numbers_of::<i32>(list) is Some <==> forall|i: int|
            0 <= i < list.len() ==> i32::denoted(#[trigger] list[i]) is Some,
        numbers_of::<usize>(list) matches Some(n) ==> n.len() == list.len() && usize::denoted(
            list[k],
        ) == Some(n[k]),
        numbers_of::<i32>(list) matches Some(n) ==> n.len() == list.len() && i32::denoted(list[k])
            == Some(n[k]),
{
}

} // verus!
