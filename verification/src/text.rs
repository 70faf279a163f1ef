//! Searching, splitting and joining text, character by character.
use vstd::prelude::*;
use vstd::string::{StrSliceExecFns, StringExecFns};

verus! {

/// The characters with the Unicode property `White_Space`.
pub open spec fn is_whitespace(c: char) -> bool {
    ||| '\u{9}' <= c <= '\u{d}'
    ||| c == ' '
    ||| c == '\u{85}'
    ||| c == '\u{a0}'
    ||| c == '\u{1680}'
    ||| '\u{2000}' <= c <= '\u{200a}'
    ||| c == '\u{2028}'
    ||| c == '\u{2029}'
    ||| c == '\u{202f}'
    ||| c == '\u{205f}'
    ||| c == '\u{3000}'
}

/// `text` without the whitespace that it starts with.
pub open spec fn trimmed_start(text: Seq<char>) -> Seq<char>
    decreases text.len(),
{
    if text.len() > 0 && is_whitespace(text[0]) {
        trimmed_start(text.drop_first())
    } else {
        text
    }
}

/// `text` without the whitespace that it ends with.
pub open spec fn trimmed_end(text: Seq<char>) -> Seq<char>
    decreases text.len(),
{
    if text.len() > 0 && is_whitespace(text.last()) {
        trimmed_end(text.drop_last())
    } else {
        text
    }
}

/// `text` without the whitespace around it.
pub open spec fn trimmed(text: Seq<char>) -> Seq<char> {
    trimmed_end(trimmed_start(text))
}

/// What stands before and after the first `at`.
pub open spec fn halves(text: Seq<char>, at: char) -> Option<(Seq<char>, Seq<char>)> {
    match text.index_of_first(at) {
        Some(i) => Some((text.take(i), text.skip(i + 1))),
        None => None,
    }
}

/// What stands before and after the last `at`.
pub open spec fn last_halves(text: Seq<char>, at: char) -> Option<(Seq<char>, Seq<char>)> {
    match text.index_of_last(at) {
        Some(i) => Some((text.take(i), text.skip(i + 1))),
        None => None,
    }
}

/// The pieces between the occurrences of `at`.
pub open spec fn pieces(text: Seq<char>, at: char) -> Seq<Seq<char>>
    decreases text.len(),
{
    match text.index_of_first(at) {
        Some(i) if 0 <= i < text.len() => seq![text.take(i)] + pieces(text.skip(i + 1), at),
        _ => seq![text],
    }
}

/// What follows `prefix`, where `text` starts with it.
pub open spec fn after_prefix(text: Seq<char>, prefix: Seq<char>) -> Option<Seq<char>> {
    if prefix.is_prefix_of(text) {
        Some(text.skip(prefix.len() as int))
    } else {
        None
    }
}

/// The texts of a pair.
pub open spec fn pair_text(pair: Option<(&str, &str)>) -> Option<(Seq<char>, Seq<char>)> {
    match pair {
        Some((a, b)) => Some((a@, b@)),
        None => None,
    }
}

/// The texts of a list.
pub open spec fn texts(list: Seq<&str>) -> Seq<Seq<char>> {
    list.map_values(|s: &str| s@)
}

/// The characters of a text.
pub fn chars_of(text: &str) -> (chars: Vec<char>)
    ensures
        chars@ == text@,
{
    let mut chars: Vec<char> = Vec::new();
    for c in it: text.chars()
        invariant
            it.seq() == text@,
            chars@ == text@.take(it.index() as int),
    {
        chars.push(c);
        assert(chars@ =~= text@.take(it.index() as int + 1));
    }
    assert(text@.take(text@.len() as int) =~= text@);
    chars
}

fn whitespace(c: char) -> (yes: bool)
    ensures
        yes == is_whitespace(c),
{
    ('\u{9}' <= c && c <= '\u{d}') || c == ' ' || c == '\u{85}' || c == '\u{a0}' || c == '\u{1680}'
        || ('\u{2000}' <= c && c <= '\u{200a}') || c == '\u{2028}' || c == '\u{2029}' || c
        == '\u{202f}' || c == '\u{205f}' || c == '\u{3000}'
}

/// `text` without the whitespace around it.
pub fn trim(text: &str) -> (inner: &str)
    ensures
        inner@ == trimmed(text@),
{
    let chars = chars_of(text);
    let mut from: usize = 0;
    assert(text@.skip(0) =~= text@);
    while from < chars.len() && whitespace(chars[from])
        invariant
            from <= chars@.len(),
            chars@ == text@,
            trimmed_start(text@.skip(from as int)) == trimmed_start(text@),
        decreases chars@.len() - from,
    {
        assert(text@.skip(from as int).drop_first() =~= text@.skip(from + 1));
        from = from + 1;
    }
    let ghost rest = text@.skip(from as int);
    assert(trimmed_start(text@) == rest);
    let mut to: usize = chars.len();
    assert(text@.subrange(from as int, to as int) =~= rest);
    while to > from && whitespace(chars[to - 1])
        invariant
            from <= to <= chars@.len(),
            chars@ == text@,
            trimmed_end(text@.subrange(from as int, to as int)) == trimmed_end(rest),
        decreases to - from,
    {
        assert(text@.subrange(from as int, to as int).drop_last() =~= text@.subrange(
            from as int,
            to - 1,
        ));
        to = to - 1;
    }
    text.substring_char(from, to)
}

/// The position, counted in characters, of the first `c`.
pub fn find(text: &str, c: char) -> (at: Option<usize>)
    ensures
        match at {
            Some(i) => text@.index_of_first(c) == Some(i as int),
            None => text@.index_of_first(c) is None,
        },
{
    let chars = chars_of(text);
    proof {
        text@.index_of_first_ensures(c);
    }
    let mut i: usize = 0;
    while i < chars.len()
        invariant
            i <= chars@.len(),
            chars@ == text@,
            forall|j: int| 0 <= j < i ==> text@[j] != c,
        decreases chars@.len() - i,
    {
        if chars[i] == c {
            proof {
                text@.index_of_first_ensures(c);
                assert(text@.contains(c));
            }
            return Some(i);
        }
        i = i + 1;
    }
    None
}

/// The position, counted in characters, of the last `c`.
pub fn rfind(text: &str, c: char) -> (at: Option<usize>)
    ensures
        match at {
            Some(i) => text@.index_of_last(c) == Some(i as int),
            None => text@.index_of_last(c) is None,
        },
{
    let chars = chars_of(text);
    proof {
        text@.index_of_last_ensures(c);
    }
    let mut i: usize = chars.len();
    while i > 0
        invariant
            i <= chars@.len(),
            chars@ == text@,
            forall|j: int| i <= j < chars@.len() ==> text@[j] != c,
        decreases i,
    {
        i = i - 1;
        if chars[i] == c {
            proof {
                text@.index_of_last_ensures(c);
                assert(text@.contains(c));
            }
            return Some(i);
        }
    }
    None
}

/// Whether `c` occurs in `text`.
pub fn contains_char(text: &str, c: char) -> (yes: bool)
    ensures
        yes == text@.contains(c),
{
    proof {
        text@.index_of_first_ensures(c);
    }
    match find(text, c) {
        Some(_) => true,
        None => false,
    }
}

/// What stands before and after the first `at`.
pub fn split_once(text: &str, at: char) -> (pair: Option<(&str, &str)>)
    ensures
        pair_text(pair) == halves(text@, at),
{
    proof {
        text@.index_of_first_ensures(at);
    }
    match find(text, at) {
        Some(i) => {
            let len: usize = text.unicode_len();
            let pair = (text.substring_char(0, i), text.substring_char(i + 1, len));
            assert(pair.0@ =~= text@.take(i as int));
            assert(pair.1@ =~= text@.skip(i + 1));
            Some(pair)
        },
        None => None,
    }
}

/// What stands before and after the last `at`.
pub fn rsplit_once(text: &str, at: char) -> (pair: Option<(&str, &str)>)
    ensures
        pair_text(pair) == last_halves(text@, at),
{
    proof {
        text@.index_of_last_ensures(at);
    }
    match rfind(text, at) {
        Some(i) => {
            let len: usize = text.unicode_len();
            let pair = (text.substring_char(0, i), text.substring_char(i + 1, len));
            assert(pair.0@ =~= text@.take(i as int));
            assert(pair.1@ =~= text@.skip(i + 1));
            Some(pair)
        },
        None => None,
    }
}

/// The pieces between the occurrences of `at`.
pub fn split(text: &str, at: char) -> (list: Vec<&str>)
    ensures
        texts(list@) == pieces(text@, at),
{
    let mut list: Vec<&str> = Vec::new();
    let mut rest: &str = text;
    proof {
        assert(texts(list@) + pieces(rest@, at) =~= pieces(text@, at));
    }
    loop
        invariant
            texts(list@) + pieces(rest@, at) == pieces(text@, at),
        decreases rest@.len(),
    {
        proof {
            rest@.index_of_first_ensures(at);
        }
        match split_once(rest, at) {
            Some((head, tail)) => {
                let ghost before = texts(list@);
                list.push(head);
                proof {
                    assert(texts(list@) =~= before.push(head@));
                    assert(before + (seq![head@] + pieces(tail@, at)) =~= before.push(head@)
                        + pieces(tail@, at));
                }
                rest = tail;
            },
            None => {
                let ghost before = texts(list@);
                list.push(rest);
                proof {
                    assert(texts(list@) =~= before + seq![rest@]);
                }
                return list;
            },
        }
    }
}

/// Whether two texts are the same.
pub fn same_text(a: &str, b: &str) -> (same: bool)
    ensures
        same == (a@ == b@),
{
    let left = chars_of(a);
    let right = chars_of(b);
    if left.len() != right.len() {
        return false;
    }
    let mut i: usize = 0;
    while i < left.len()
        invariant
            i <= left@.len(),
            left@.len() == right@.len(),
            left@ == a@,
            right@ == b@,
            forall|j: int| 0 <= j < i ==> a@[j] == b@[j],
        decreases left@.len() - i,
    {
        if left[i] != right[i] {
            return false;
        }
        i = i + 1;
    }
    assert(a@ =~= b@);
    true
}

/// What follows `prefix`, where `text` starts with it.
pub fn strip_prefix<'a>(text: &'a str, prefix: &str) -> (rest: Option<&'a str>)
    ensures
        match rest {
            Some(s) => after_prefix(text@, prefix@) == Some(s@),
            None => after_prefix(text@, prefix@) is None,
        },
{
    let len: usize = text.unicode_len();
    let n: usize = prefix.unicode_len();
    if n > len {
        return None;
    }
    let head = text.substring_char(0, n);
    assert(prefix@ == head@ ==> prefix@ == text@.subrange(0, prefix@.len() as int));
    if !same_text(head, prefix) {
        return None;
    }
    let rest = text.substring_char(n, len);
    assert(rest@ =~= text@.skip(n as int));
    Some(rest)
}

/// The concatenation of a list of texts.
pub open spec fn joined(list: Seq<Seq<char>>) -> Seq<char>
    decreases list.len(),
{
    if list.len() == 0 {
        Seq::empty()
    } else {
        joined(list.drop_last()) + list.last()
    }
}

/// Appends a list of texts, one after the other.
pub fn append_all(text: &mut String, list: &[&str])
    ensures
        final(text)@ == old(text)@ + joined(texts(list@)),
{
    let mut i: usize = 0;
    assert(old(text)@ + Seq::<char>::empty() =~= old(text)@);
    while i < list.len()
        invariant
            i <= list@.len(),
            text@ == old(text)@ + joined(texts(list@).take(i as int)),
        decreases list@.len() - i,
    {
        let ghost done = texts(list@).take(i as int);
        text.append(list[i]);
        i = i + 1;
        proof {
            assert(texts(list@).take(i as int) =~= done.push(list@[i - 1]@));
            assert(done.push(list@[i - 1]@).drop_last() =~= done);
            assert(old(text)@ + (joined(done) + list@[i - 1]@) =~= old(text)@ + joined(done)
                + list@[i - 1]@);
        }
    }
    assert(texts(list@).take(i as int) =~= texts(list@));
}

/// A text in front of the first separator is the first piece.
pub proof fn lemma_first_piece(head: Seq<char>, at: char, tail: Seq<char>)
    requires
        !head.contains(at),
    ensures
        pieces(head + seq![at] + tail, at) == seq![head] + pieces(tail, at),
{
    let text = head + seq![at] + tail;
    text.index_of_first_ensures(at);
    assert(text[head.len() as int] == at);
    assert forall|i: int| 0 <= i < head.len() implies text[i] != at by {
        assert(head.contains(head[i]));
    }
    assert(text.index_of_first(at) == Some(head.len() as int));
    assert(text.take(head.len() as int) =~= head);
    assert(text.skip(head.len() + 1int) =~= tail);
}

/// A text without the separator is its only piece.
pub proof fn lemma_only_piece(text: Seq<char>, at: char)
    requires
        !text.contains(at),
    ensures
        halves(text, at) is None,
        last_halves(text, at) is None,
        pieces(text, at) == seq![text],
{
    text.index_of_first_ensures(at);
    text.index_of_last_ensures(at);
}

/// A text behind one more separator is one more piece.
pub proof fn lemma_last_piece(head: Seq<char>, at: char, tail: Seq<char>)
    requires
        !tail.contains(at),
    ensures
        pieces(head + seq![at] + tail, at) == pieces(head, at).push(tail),
    decreases head.len(),
{
    head.index_of_first_ensures(at);
    lemma_only_piece(tail, at);
    if head.contains(at) {
        let i = head.index_of_first(at)->0;
        let first = head.take(i);
        let rest = head.skip(i + 1);
        if first.contains(at) {
            assert(head[first.index_of(at)] == at);
        }
        assert(head =~= first + seq![at] + rest);
        assert(head + seq![at] + tail =~= first + seq![at] + (rest + seq![at] + tail));
        lemma_first_piece(first, at, rest);
        lemma_first_piece(first, at, rest + seq![at] + tail);
        lemma_last_piece(rest, at, tail);
        assert(seq![first] + pieces(rest, at).push(tail) =~= (seq![first] + pieces(rest, at)).push(
            tail,
        ));
    } else {
        lemma_only_piece(head, at);
        lemma_first_piece(head, at, tail);
        assert(seq![head] + seq![tail] =~= seq![head].push(tail));
    }
}

/// The first piece and the rest, with the separator between them, are the text.
pub proof fn lemma_text_from_pieces(text: Seq<char>, at: char)
    ensures
        pieces(text, at).len() >= 1,
        !pieces(text, at)[0].contains(at),
        pieces(text, at).len() == 1 ==> text == pieces(text, at)[0],
        pieces(text, at).len() > 1 ==> exists|rest: Seq<char>|
            text == pieces(text, at)[0] + seq![at] + rest && #[trigger] pieces(rest, at)
                == pieces(text, at).drop_first(),
{
    text.index_of_first_ensures(at);
    if text.contains(at) {
        let i = text.index_of_first(at)->0;
        let first = text.take(i);
        let rest = text.skip(i + 1);
        if first.contains(at) {
            assert(text[first.index_of(at)] == at);
        }
        assert(text =~= first + seq![at] + rest);
        lemma_first_piece(first, at, rest);
        assert((seq![first] + pieces(rest, at)).drop_first() =~= pieces(rest, at));
        rest.index_of_first_ensures(at);
    } else {
        lemma_only_piece(text, at);
    }
}

/// The separator that nothing before it holds is where the text is split.
pub proof fn lemma_halves(head: Seq<char>, at: char, tail: Seq<char>)
    requires
        !head.contains(at),
    ensures
        halves(head + seq![at] + tail, at) == Some((head, tail)),
{
    let text = head + seq![at] + tail;
    text.index_of_first_ensures(at);
    assert(text[head.len() as int] == at);
    assert forall|i: int| 0 <= i < head.len() implies text[i] != at by {
        assert(head.contains(head[i]));
    }
    assert(text.index_of_first(at) == Some(head.len() as int));
    assert(text.take(head.len() as int) =~= head);
    assert(text.skip(head.len() + 1int) =~= tail);
}

/// The separator that nothing after it holds is where the text is split from the end.
pub proof fn lemma_last_halves(head: Seq<char>, at: char, tail: Seq<char>)
    requires
        !tail.contains(at),
    ensures
        last_halves(head + seq![at] + tail, at) == Some((head, tail)),
{
    let text = head + seq![at] + tail;
    text.index_of_last_ensures(at);
    assert(text[head.len() as int] == at);
    assert forall|i: int| head.len() < i < text.len() implies text[i] != at by {
        assert(tail.contains(tail[i - head.len() - 1]));
    }
    assert(text.index_of_last(at) == Some(head.len() as int));
    assert(text.take(head.len() as int) =~= head);
    assert(text.skip(head.len() + 1int) =~= tail);
}

/// Whitespace around a text is trimmed off.
pub proof fn lemma_trimmed(left: Seq<char>, text: Seq<char>, right: Seq<char>)
    requires
        forall|i: int| 0 <= i < left.len() ==> is_whitespace(#[trigger] left[i]),
        forall|i: int| 0 <= i < right.len() ==> is_whitespace(#[trigger] right[i]),
    ensures
        trimmed(left + text + right) == trimmed(text),
{
    lemma_trimmed_left(left, text + right);
    assert(left + text + right =~= left + (text + right));
    lemma_trimmed_right(text, right);
}

proof fn lemma_trimmed_left(left: Seq<char>, text: Seq<char>)
    requires
        forall|i: int| 0 <= i < left.len() ==> is_whitespace(#[trigger] left[i]),
    ensures
        trimmed_start(left + text) == trimmed_start(text),
    decreases left.len(),
{
    if left.len() == 0 {
        assert(left + text =~= text);
    } else {
        let rest = left.drop_first();
        assert(is_whitespace(left[0]));
        assert((left + text).drop_first() =~= rest + text);
        assert forall|i: int| 0 <= i < rest.len() implies is_whitespace(#[trigger] rest[i]) by {
            assert(rest[i] == left[i + 1]);
        }
        lemma_trimmed_left(rest, text);
    }
}

proof fn lemma_trimmed_right(text: Seq<char>, right: Seq<char>)
    requires
        forall|i: int| 0 <= i < right.len() ==> is_whitespace(#[trigger] right[i]),
    ensures
        trimmed(text + right) == trimmed(text),
    decreases text.len() + right.len(),
{
    if right.len() == 0 {
        assert(text + right =~= text);
    } else if text.len() > 0 && is_whitespace(text[0]) {
        assert((text + right).drop_first() =~= text.drop_first() + right);
        lemma_trimmed_right(text.drop_first(), right);
    } else if text.len() > 0 {
        let less = right.drop_last();
        assert((text + right).last() == right[right.len() - 1]);
        assert((text + right).drop_last() =~= text + less);
        lemma_trimmed_right(text, less);
        assert(trimmed_start(text + less) == text + less);
    } else {
        assert(text + right =~= right + text);
        lemma_trimmed_left(right, text);
    }
}

/// A text with no whitespace at either end is left as it is.
pub proof fn lemma_trim_nothing(text: Seq<char>)
    requires
        text.len() > 0,
        !is_whitespace(text[0]),
        !is_whitespace(text.last()),
    ensures
        trimmed(text) == text,
{
}

} // verus!
