//! Text as sequences of characters: the splitting, trimming and comparing that the
//! rest of the library is specified with.

use vstd::prelude::*;
use vstd::utf8::{decode_utf8, valid_utf8};

verus! {

/// `String::push` appends one character.
pub assume_specification[ String::push ](s: &mut String, c: char)
    ensures
        final(s)@ == old(s)@.push(c),
;

/// `String::from_utf8`: succeeds exactly on valid UTF-8, and the text it returns is
/// the one those bytes encode.
#[verifier::external_body]
pub(crate) fn utf8_text(bytes: Vec<u8>) -> (text: Option<String>)
    ensures
        text is Some <==> valid_utf8(bytes@),
        text matches Some(t) ==> t@ == decode_utf8(bytes@),
{
    String::from_utf8(bytes).ok()
}

/// What `String::from_utf8_lossy` makes of bytes.
pub uninterp spec fn lossy_text_of(bytes: Seq<u8>) -> Seq<char>;

/// `String::from_utf8_lossy`: the text that valid UTF-8 encodes; in other bytes it replaces
/// what is not UTF-8, in a way that depends on the bytes alone and is left unsaid.
#[verifier::external_body]
pub(crate) fn lossy_text(bytes: &[u8]) -> (text: String)
    ensures
        text@ == lossy_text_of(bytes@),
        valid_utf8(bytes@) ==> text@ == decode_utf8(bytes@),
{
    String::from_utf8_lossy(bytes).into_owned()
}

/// The index of the first `c` in `s`, or the length of `s` when there is none.
pub open spec fn position<T>(s: Seq<T>, c: T) -> int
    decreases s.len(),
{
    if s.len() == 0 || s[0] == c {
        0
    } else {
        1 + position(s.drop_first(), c)
    }
}

/// The text before and after the first `sep`, if there is one.
pub open spec fn split_first(s: Seq<char>, sep: char) -> Option<(Seq<char>, Seq<char>)> {
    let at = position(s, sep);
    if at < s.len() {
        Some((s.take(at), s.skip(at + 1)))
    } else {
        None
    }
}

/// A line without the carriage return that may precede its line feed.
pub open spec fn without_cr(line: Seq<char>) -> Seq<char> {
    if line.len() > 0 && line.last() == '\r' {
        line.drop_last()
    } else {
        line
    }
}

/// The lines of `s`: each ends in a line feed or a carriage return and a line feed,
/// and the last one may end without either.
pub open spec fn lines_of(s: Seq<char>) -> Seq<Seq<char>>
    decreases s.len(),
    via lines_of_decreases
{
    if s.len() == 0 {
        seq![]
    } else {
        let at = position(s, '\n');
        if at < s.len() {
            seq![without_cr(s.take(at))] + lines_of(s.skip(at + 1))
        } else {
            seq![s]
        }
    }
}

#[via_fn]
proof fn lines_of_decreases(s: Seq<char>) {
    lemma_position(s, '\n');
}

/// What `position` promises.
pub proof fn lemma_position<T>(s: Seq<T>, c: T)
    ensures
        0 <= position(s, c) <= s.len(),
        position(s, c) < s.len() ==> s[position(s, c)] == c,
        forall|i: int| 0 <= i < position(s, c) ==> s[i] != c,
    decreases s.len(),
{
    if s.len() > 0 && s[0] != c {
        let rest = s.drop_first();
        lemma_position(rest, c);
        assert forall|i: int| 0 <= i < position(s, c) implies s[i] != c by {
            if i > 0 {
                assert(s[i] == rest[i - 1]);
            }
        }
    }
}

/// The first `c` is the one before which there is no other.
pub proof fn lemma_position_is<T>(s: Seq<T>, c: T, at: int)
    requires
        0 <= at <= s.len(),
        at < s.len() ==> s[at] == c,
        forall|i: int| 0 <= i < at ==> s[i] != c,
    ensures
        position(s, c) == at,
{
    lemma_position(s, c);
}

/// A text that one line can hold: it has no line feed, and it does not end in a carriage
/// return, which would be taken for part of the line's end.
pub open spec fn fits_line(value: Seq<char>) -> bool {
    &&& forall|i: int| 0 <= i < value.len() ==> value[i] != '\n'
    &&& value.len() > 0 ==> value.last() != '\r'
}

/// A line behind text that ends a line is read behind the lines of that text.
pub(crate) proof fn lemma_lines_append(before: Seq<char>, line: Seq<char>)
    requires
        fits_line(line),
        before.len() > 0 ==> before.last() == '\n',
    ensures
        lines_of(before + line + seq!['\n']) == lines_of(before).push(line),
    decreases before.len(),
{
    let s = before + line + seq!['\n'];
    if before.len() == 0 {
        lemma_position_is(s, '\n', line.len() as int);
        assert(s.take(line.len() as int) == line);
        assert(s.skip(line.len() + 1int) == Seq::<char>::empty());
        assert(lines_of(s.skip(line.len() + 1int)) == Seq::<Seq<char>>::empty());
        assert(lines_of(s) == lines_of(before).push(line));
    } else {
        let at = position(before, '\n');
        lemma_position(before, '\n');
        lemma_position_is(s, '\n', at);
        let rest = before.skip(at + 1);
        assert(s.take(at) == before.take(at));
        assert(s.skip(at + 1) == rest + line + seq!['\n']);
        lemma_lines_append(rest, line);
        assert(lines_of(s) == lines_of(before).push(line));
    }
}

/// The characters of `s`.
pub(crate) fn chars_of(s: &str) -> (chars: Vec<char>)
    ensures
        chars@ == s@,
{
    let mut chars: Vec<char> = Vec::new();
    for c in it: s.chars()
        invariant
            it.seq() == s@,
            chars@ == s@.take(it.index()),
    {
        chars.push(c);
    }
    assert(s@.take(s@.len() as int) == s@);
    chars
}

/// The text made of `chars`.
pub(crate) fn text_of(chars: &[char]) -> (text: String)
    ensures
        text@ == chars@,
{
    let mut text = String::new();
    for i in 0..chars.len()
        invariant
            text@ == chars@.take(i as int),
    {
        text.push(chars[i]);
    }
    assert(chars@.take(chars@.len() as int) == chars@);
    text
}

/// Whether two texts are the same.
pub(crate) fn same_text(a: &str, b: &str) -> (same: bool)
    ensures
        same == (a@ == b@),
{
    a.to_owned() == b.to_owned()
}

/// Splits at the first `sep`.
pub(crate) fn split_once(s: &str, sep: char) -> (parts: Option<(String, String)>)
    ensures
        match parts {
            Some((before, after)) => split_first(s@, sep) == Some((before@, after@)),
            None => split_first(s@, sep) is None,
        },
{
    let chars = chars_of(s);
    let mut at: usize = 0;
    while at < chars.len() && chars[at] != sep
        invariant
            at <= chars@.len(),
            forall|i: int| 0 <= i < at ==> chars@[i] != sep,
        decreases chars@.len() - at,
    {
        at = at + 1;
    }
    proof {
        lemma_position_is(chars@, sep, at as int);
    }
    if at < chars.len() {
        Some((text_of(&chars[0..at]), text_of(&chars[at + 1..chars.len()])))
    } else {
        None
    }
}

/// Splits into lines.
pub(crate) fn lines(s: &str) -> (lines: Vec<String>)
    ensures
        lines.deep_view() == lines_of(s@),
{
    let chars = chars_of(s);
    let mut lines: Vec<String> = Vec::new();
    let mut line: Vec<char> = Vec::new();
    assert(line@ + s@.skip(0) == s@);
    assert(lines.deep_view() + lines_of(s@) == lines_of(s@));
    for i in 0..chars.len()
        invariant
            chars@ == s@,
            forall|k: int| 0 <= k < line@.len() ==> line@[k] != '\n',
            lines.deep_view() + lines_of(line@ + s@.skip(i as int)) == lines_of(s@),
    {
        let ghost whole = line@ + s@.skip(i as int);
        let ghost before = lines.deep_view();
        assert(whole[line@.len() as int] == s@[i as int]);
        if chars[i] == '\n' {
            proof {
                lemma_position_is(whole, '\n', line@.len() as int);
                assert(whole.take(line@.len() as int) == line@);
                assert(whole.skip((line@.len() + 1) as int) == s@.skip(i + 1));
            }
            let ghost ended = line@;
            if line.len() > 0 && line[line.len() - 1] == '\r' {
                line.pop();
            }
            assert(line@ == without_cr(ended));
            lines.push(text_of(&line));
            assert(lines.deep_view() == before.push(without_cr(ended)));
            line.clear();
            assert(line@ + s@.skip(i + 1) == s@.skip(i + 1));
            assert(lines.deep_view() + lines_of(s@.skip(i + 1)) == before + lines_of(whole));
        } else {
            line.push(chars[i]);
            assert(line@ + s@.skip(i + 1) == whole);
        }
    }
    assert(line@ + s@.skip(s@.len() as int) == line@);
    let ghost before = lines.deep_view();
    if line.len() > 0 {
        proof {
            lemma_position_is(line@, '\n', line@.len() as int);
        }
        lines.push(text_of(&line));
        assert(lines.deep_view() == before.push(line@));
        assert(lines.deep_view() == before + lines_of(line@));
    } else {
        assert(lines.deep_view() == before + lines_of(line@));
    }
    lines
}

/// The view of an optional text.
pub open spec fn optional_text(text: Option<String>) -> Option<Seq<char>> {
    match text {
        Some(t) => Some(t@),
        None => None,
    }
}

/// The view of an optional borrowed text.
pub open spec fn optional_str(text: Option<&str>) -> Option<Seq<char>> {
    match text {
        Some(t) => Some(t@),
        None => None,
    }
}

/// `c`, in lower case if it is an ASCII letter.
pub open spec fn ascii_lower(c: char) -> char {
    if 'A' <= c && c <= 'Z' {
        (c as u8 + 32) as char
    } else {
        c
    }
}

/// `s` with its ASCII letters in lower case.
pub open spec fn ascii_lowered(s: Seq<char>) -> Seq<char> {
    s.map_values(|c: char| ascii_lower(c))
}

/// `s` without the line ending it may end in.
pub open spec fn without_line_ending(s: Seq<char>) -> Seq<char> {
    if s.len() > 0 && s.last() == '\n' {
        without_cr(s.drop_last())
    } else {
        s
    }
}

/// `c`, in lower case if it is an ASCII letter.
pub(crate) fn to_ascii_lower(c: char) -> (lower: char)
    ensures
        lower == ascii_lower(c),
{
    if 'A' <= c && c <= 'Z' {
        (c as u8 + 32) as char
    } else {
        c
    }
}

/// Whether two texts are the same but for the case of ASCII letters.
pub(crate) fn same_ignoring_ascii_case(a: &str, b: &str) -> (same: bool)
    ensures
        same == (ascii_lowered(a@) == ascii_lowered(b@)),
{
    let left = chars_of(a);
    let right = chars_of(b);
    if left.len() != right.len() {
        assert(ascii_lowered(a@).len() != ascii_lowered(b@).len());
        return false;
    }
    for i in 0..left.len()
        invariant
            left@ == a@,
            right@ == b@,
            left@.len() == right@.len(),
            forall|k: int| 0 <= k < i ==> ascii_lower(left@[k]) == ascii_lower(right@[k]),
    {
        if to_ascii_lower(left[i]) != to_ascii_lower(right[i]) {
            assert(ascii_lowered(a@)[i as int] != ascii_lowered(b@)[i as int]);
            return false;
        }
    }
    assert(ascii_lowered(a@) == ascii_lowered(b@));
    true
}

/// `s` with its ASCII letters in lower case.
pub(crate) fn to_ascii_lowercase(s: &str) -> (lower: String)
    ensures
        lower@ == ascii_lowered(s@),
{
    let chars = chars_of(s);
    let mut lower = String::new();
    for i in 0..chars.len()
        invariant
            lower@ == ascii_lowered(chars@.take(i as int)),
    {
        lower.push(to_ascii_lower(chars[i]));
        assert(lower@ == ascii_lowered(chars@.take(i + 1)));
    }
    assert(chars@.take(chars@.len() as int) == chars@);
    lower
}

/// What is trimmed from the ends of a text.
#[derive(Clone, Copy)]
pub enum Trim {
    Whitespace,
    Char(char),
}

/// The characters with Unicode's `White_Space` property.
pub open spec fn is_white_space(c: char) -> bool {
    ||| '\u{9}' <= c <= '\u{d}'
    ||| c == ' '
    ||| c == '\u{85}'
    ||| c == '\u{a0}'
    ||| c == '\u{1680}'
    ||| '\u{2000}' <= c <= '\u{200a}'
    ||| c == '\u{2028}'
    ||| c == '\u{2029}'
    ||| c == '\u{202f}'
    ||| c == '\u{205f}'
    ||| c == '\u{3000}'
}

impl Trim {
    /// Whether `c` is trimmed.
    pub open spec fn covers(self, c: char) -> bool {
        match self {
            Trim::Whitespace => is_white_space(c),
            Trim::Char(trimmed) => c == trimmed,
        }
    }

    fn takes(self, c: char) -> (taken: bool)
        ensures
            taken == self.covers(c),
    {
        match self {
            Trim::Whitespace => ('\u{9}' <= c && c <= '\u{d}') || c == ' ' || c == '\u{85}' || c
                == '\u{a0}' || c == '\u{1680}' || ('\u{2000}' <= c && c <= '\u{200a}') || c
                == '\u{2028}' || c == '\u{2029}' || c == '\u{202f}' || c == '\u{205f}' || c
                == '\u{3000}',
            Trim::Char(trimmed) => c == trimmed,
        }
    }
}

/// `s` without the trimmed characters it begins with.
pub open spec fn trimmed_start(s: Seq<char>, trim: Trim) -> Seq<char>
    decreases s.len(),
{
    if s.len() > 0 && trim.covers(s[0]) {
        trimmed_start(s.drop_first(), trim)
    } else {
        s
    }
}

/// `s` without the trimmed characters it ends in.
pub open spec fn trimmed_end(s: Seq<char>, trim: Trim) -> Seq<char>
    decreases s.len(),
{
    if s.len() > 0 && trim.covers(s.last()) {
        trimmed_end(s.drop_last(), trim)
    } else {
        s
    }
}

/// `s` without the trimmed characters at either end.
pub open spec fn trimmed(s: Seq<char>, trim: Trim) -> Seq<char> {
    trimmed_end(trimmed_start(s, trim), trim)
}

/// Removes the trimmed characters from both ends of `s`.
pub(crate) fn trim(s: &str, what: Trim) -> (inner: String)
    ensures
        inner@ == trimmed(s@, what),
{
    let chars = chars_of(s);
    let mut start: usize = 0;
    assert(s@.skip(0) == s@);
    while start < chars.len() && what.takes(chars[start])
        invariant
            start <= chars@.len(),
            chars@ == s@,
            trimmed_start(s@.skip(start as int), what) == trimmed_start(s@, what),
        decreases chars@.len() - start,
    {
        assert(s@.skip(start as int)[0] == chars@[start as int]);
        assert(s@.skip(start as int).drop_first() == s@.skip(start + 1));
        start = start + 1;
    }
    let ghost rest = s@.skip(start as int);
    assert(start < chars@.len() ==> rest[0] == chars@[start as int]);
    assert(trimmed_start(s@, what) == rest);
    let mut end: usize = chars.len();
    assert(chars@.subrange(start as int, end as int) == rest);
    while end > start && what.takes(chars[end - 1])
        invariant
            start <= end <= chars@.len(),
            trimmed_end(chars@.subrange(start as int, end as int), what) == trimmed_end(rest, what),
        decreases end,
    {
        let ghost here = chars@.subrange(start as int, end as int);
        assert(here.last() == chars@[end - 1]);
        assert(here.drop_last() == chars@.subrange(start as int, end - 1));
        end = end - 1;
    }
    assert(end > start ==> chars@.subrange(start as int, end as int).last() == chars@[end - 1]);
    text_of(&chars[start..end])
}

/// `s` without `prefix`, if it begins with it.
pub open spec fn after_prefix(s: Seq<char>, prefix: Seq<char>) -> Option<Seq<char>> {
    if prefix.is_prefix_of(s) {
        Some(s.skip(prefix.len() as int))
    } else {
        None
    }
}

/// `s` without `suffix`, if it ends in it.
pub open spec fn before_suffix(s: Seq<char>, suffix: Seq<char>) -> Option<Seq<char>> {
    if suffix.is_suffix_of(s) {
        Some(s.take(s.len() - suffix.len()))
    } else {
        None
    }
}

/// Removes `prefix` from the beginning of `s`.
pub(crate) fn strip_prefix(s: &str, prefix: &str) -> (rest: Option<String>)
    ensures
        optional_text(rest) == after_prefix(s@, prefix@),
{
    let chars = chars_of(s);
    let n: usize = chars_of(prefix).len();
    if chars.len() < n {
        return None;
    }
    assert(chars@.subrange(0, n as int) == s@.take(n as int));
    assert(chars@.subrange(n as int, chars@.len() as int) == s@.skip(n as int));
    if same_text(text_of(&chars[0..n]).as_str(), prefix) {
        Some(text_of(&chars[n..chars.len()]))
    } else {
        None
    }
}

/// Removes `suffix` from the end of `s`.
pub(crate) fn strip_suffix(s: &str, suffix: &str) -> (rest: Option<String>)
    ensures
        optional_text(rest) == before_suffix(s@, suffix@),
{
    let chars = chars_of(s);
    let n: usize = chars_of(suffix).len();
    if chars.len() < n {
        return None;
    }
    let end: usize = chars.len() - n;
    assert(chars@.subrange(0, end as int) == s@.take(end as int));
    if same_text(text_of(&chars[end..chars.len()]).as_str(), suffix) {
        Some(text_of(&chars[0..end]))
    } else {
        None
    }
}

/// Text between trimmed characters is what trimming leaves, if it neither begins nor ends
/// with one.
pub(crate) proof fn lemma_trimmed_is(before: Seq<char>, inner: Seq<char>, after: Seq<char>, what: Trim)
    requires
        forall|i: int| 0 <= i < before.len() ==> what.covers(#[trigger] before[i]),
        forall|i: int| 0 <= i < after.len() ==> what.covers(#[trigger] after[i]),
    ensures
        (inner.len() > 0 ==> !what.covers(inner[0]) && !what.covers(inner.last())) ==> trimmed(
            before + inner + after,
            what,
        ) == inner,
{
    if inner.len() > 0 ==> !what.covers(inner[0]) && !what.covers(inner.last()) {
        let nothing = Seq::<char>::empty();
        if inner.len() > 0 {
            lemma_trimmed_start_is(before, inner + after, what);
            assert(before + (inner + after) == before + inner + after);
            lemma_trimmed_end_is(inner, after, what);
        } else {
            let all = before + after;
            assert(before + inner + after == all);
            assert(all + nothing == all);
            lemma_trimmed_start_is(all, nothing, what);
            assert(trimmed_end(nothing, what) == nothing);
            assert(inner == nothing);
        }
    }
}

proof fn lemma_trimmed_start_is(before: Seq<char>, rest: Seq<char>, what: Trim)
    requires
        forall|i: int| 0 <= i < before.len() ==> what.covers(#[trigger] before[i]),
        rest.len() > 0 ==> !what.covers(rest[0]),
    ensures
        trimmed_start(before + rest, what) == rest,
    decreases before.len(),
{
    let whole = before + rest;
    if before.len() > 0 {
        let fewer = before.drop_first();
        assert forall|i: int| 0 <= i < fewer.len() implies what.covers(#[trigger] fewer[i]) by {
            assert(fewer[i] == before[i + 1]);
        }
        lemma_trimmed_start_is(fewer, rest, what);
        assert(whole[0] == before[0]);
        assert(whole.drop_first() == fewer + rest);
    } else {
        assert(whole == rest);
    }
}

proof fn lemma_trimmed_end_is(rest: Seq<char>, after: Seq<char>, what: Trim)
    requires
        forall|i: int| 0 <= i < after.len() ==> what.covers(#[trigger] after[i]),
        rest.len() > 0 ==> !what.covers(rest.last()),
    ensures
        trimmed_end(rest + after, what) == rest,
    decreases after.len(),
{
    let whole = rest + after;
    if after.len() > 0 {
        let fewer = after.drop_last();
        assert forall|i: int| 0 <= i < fewer.len() implies what.covers(#[trigger] fewer[i]) by {
            assert(fewer[i] == after[i]);
        }
        lemma_trimmed_end_is(rest, fewer, what);
        assert(whole.last() == after[after.len() - 1]);
        assert(whole.drop_last() == rest + fewer);
    } else {
        assert(whole == rest);
    }
}

/// A text is split at its first separator: what stands before it holds none, and what
/// stands behind it may hold more. A text without a separator is not split.
pub proof fn law_split_at_first(before: Seq<char>, sep: char, after: Seq<char>)
    requires
        !before.contains(sep),
    ensures
        split_first(before + seq![sep] + after, sep) == Some((before, after)),
        split_first(before, sep) is None,
{
    let whole = before + seq![sep] + after;
    let at = before.len() as int;
    assert forall|i: int| 0 <= i < at implies whole[i] != sep by {
        assert(before.contains(before[i]));
    }
    assert(whole[at] == sep);
    lemma_position_is(whole, sep, at);
    assert(whole.take(at) == before);
    assert(whole.skip(at + 1) == after);
    assert forall|i: int| 0 <= i < at implies before[i] != sep by {
        assert(before.contains(before[i]));
    }
    lemma_position_is(before, sep, at);
}

/// A line ends at its line feed, with or without a carriage return before it, and the lines
/// of what follows come behind it; text without a line feed is one line, and no text none.
pub proof fn law_lines_one_by_one(line: Seq<char>, rest: Seq<char>)
    requires
        !line.contains('\n'),
    ensures
        line.len() == 0 || line.last() != '\r' ==> lines_of(line + seq!['\n'] + rest) == seq![line]
            + lines_of(rest),
        lines_of(line + seq!['\r', '\n'] + rest) == seq![line] + lines_of(rest),
        line.len() > 0 ==> lines_of(line) == seq![line],
        lines_of(Seq::empty()).len() == 0,
{
    let returned = line.push('\r');
    let unix = line + seq!['\n'] + rest;
    let dos = line + seq!['\r', '\n'] + rest;
    assert forall|i: int| 0 <= i < line.len() implies line[i] != '\n' by {
        assert(line.contains(line[i]));
    }
    lemma_position_is(unix, '\n', line.len() as int);
    assert(unix.take(line.len() as int) == line);
    assert(unix.skip(line.len() + 1int) == rest);
    lemma_position_is(dos, '\n', line.len() + 1int);
    assert(dos.take(line.len() + 1int) == returned);
    assert(dos.skip(line.len() + 2int) == rest);
    assert(returned.drop_last() == line);
    lemma_position_is(line, '\n', line.len() as int);
}

/// Lower case takes each capital of the English alphabet to its small letter, and every
/// other character to itself.
pub proof fn law_ascii_lower(c: char)
    ensures
        forall|i: int|
            0 <= i < 26 ==> #[trigger] ascii_lower("ABCDEFGHIJKLMNOPQRSTUVWXYZ"@[i])
                == "abcdefghijklmnopqrstuvwxyz"@[i],
        !"ABCDEFGHIJKLMNOPQRSTUVWXYZ"@.contains(c) ==> ascii_lower(c) == c,
{
    reveal_strlit("ABCDEFGHIJKLMNOPQRSTUVWXYZ");
    reveal_strlit("abcdefghijklmnopqrstuvwxyz");
    let capitals = "ABCDEFGHIJKLMNOPQRSTUVWXYZ"@;
    let small = "abcdefghijklmnopqrstuvwxyz"@;
    assert(forall|i: int| 0 <= i < 26 ==> #[trigger] capitals[i] as u32 == 65 + i);
    assert(forall|i: int| 0 <= i < 26 ==> #[trigger] small[i] as u32 == 97 + i);
    assert forall|i: int| 0 <= i < 26 implies #[trigger] ascii_lower(capitals[i]) == small[i] by {
        assert(capitals[i] as u32 == 65 + i);
        assert(small[i] as u32 == 97 + i);
    }
    if ascii_lower(c) != c {
        let i = c as u32 - 65;
        assert(capitals[i] as u32 == 65 + i);
        assert(capitals[i] == c);
    }
}

/// Lower case works on each character by itself.
pub proof fn law_lower_case_is_letter_by_letter(a: Seq<char>, b: Seq<char>)
    ensures
        ascii_lowered(a + b) == ascii_lowered(a) + ascii_lowered(b),
        ascii_lowered(a).len() == a.len(),
        forall|i: int| 0 <= i < a.len() ==> #[trigger] ascii_lowered(a)[i] == ascii_lower(a[i]),
{
    assert(ascii_lowered(a + b) =~= ascii_lowered(a) + ascii_lowered(b));
}

/// One line ending is taken off, with its carriage return, and nothing else.
pub proof fn law_line_ending_is_taken_off(line: Seq<char>)
    ensures
        line.len() == 0 || line.last() != '\r' ==> without_line_ending(line + seq!['\n']) == line,
        without_line_ending(line + seq!['\r', '\n']) == line,
        line.len() == 0 || line.last() != '\n' ==> without_line_ending(line) == line,
{
    assert((line + seq!['\n']).drop_last() == line);
    assert((line + seq!['\r', '\n']).drop_last() == line.push('\r'));
    assert(line.push('\r').drop_last() == line);
}

/// White space is these characters.
pub proof fn law_white_space(c: char)
    ensures
        Trim::Whitespace.covers(c) <==> seq![
            '\t',
            '\n',
            '\u{b}',
            '\u{c}',
            '\r',
            ' ',
            '\u{85}',
            '\u{a0}',
            '\u{1680}',
            '\u{2000}',
            '\u{2001}',
            '\u{2002}',
            '\u{2003}',
            '\u{2004}',
            '\u{2005}',
            '\u{2006}',
            '\u{2007}',
            '\u{2008}',
            '\u{2009}',
            '\u{200a}',
            '\u{2028}',
            '\u{2029}',
            '\u{202f}',
            '\u{205f}',
            '\u{3000}',
        ].contains(c),
        forall|other: char| Trim::Char(other).covers(c) <==> other == c,
{
    let spaces = seq![
        '\t',
        '\n',
        '\u{b}',
        '\u{c}',
        '\r',
        ' ',
        '\u{85}',
        '\u{a0}',
        '\u{1680}',
        '\u{2000}',
        '\u{2001}',
        '\u{2002}',
        '\u{2003}',
        '\u{2004}',
        '\u{2005}',
        '\u{2006}',
        '\u{2007}',
        '\u{2008}',
        '\u{2009}',
        '\u{200a}',
        '\u{2028}',
        '\u{2029}',
        '\u{202f}',
        '\u{205f}',
        '\u{3000}',
    ];
    assert(spaces[0] as u32 == 9 && spaces[1] as u32 == 10 && spaces[2] as u32 == 11 && spaces[3] as
        u32 == 12 && spaces[4] as u32 == 13 && spaces[5] == ' ' && spaces[6] == '\u{85}'
        && spaces[7] == '\u{a0}' && spaces[8] == '\u{1680}');
    assert(spaces[9] as u32 == 0x2000 && spaces[10] as u32 == 0x2001 && spaces[11] as u32 == 0x2002
        && spaces[12] as u32 == 0x2003 && spaces[13] as u32 == 0x2004 && spaces[14] as u32 == 0x2005
        && spaces[15] as u32 == 0x2006 && spaces[16] as u32 == 0x2007 && spaces[17] as u32 == 0x2008
        && spaces[18] as u32 == 0x2009 && spaces[19] as u32 == 0x200a);
    assert(spaces[20] == '\u{2028}' && spaces[21] == '\u{2029}' && spaces[22] == '\u{202f}'
        && spaces[23] == '\u{205f}' && spaces[24] == '\u{3000}');
    if is_white_space(c) {
        let n = c as u32;
        if 9 <= n <= 13 {
            assert(spaces[n - 9] == c);
        } else if 0x2000 <= n <= 0x200a {
            assert(spaces[n - 0x2000 + 9] == c);
        }
    }
}

/// Trimming takes off just what it covers, from both ends and from nowhere else.
pub proof fn law_trimming(before: Seq<char>, inner: Seq<char>, after: Seq<char>, what: Trim)
    requires
        forall|i: int| 0 <= i < before.len() ==> what.covers(#[trigger] before[i]),
        forall|i: int| 0 <= i < after.len() ==> what.covers(#[trigger] after[i]),
        inner.len() > 0 ==> !what.covers(inner[0]) && !what.covers(inner.last()),
    ensures
        trimmed(before + inner + after, what) == inner,
{
    lemma_trimmed_is(before, inner, after, what);
}

/// Taking off a prefix or a suffix undoes putting it there, and nothing else.
pub proof fn law_affixes(s: Seq<char>, affix: Seq<char>, rest: Seq<char>)
    ensures
        after_prefix(s, affix) == Some(rest) <==> s == affix + rest,
        before_suffix(s, affix) == Some(rest) <==> s == rest + affix,
{
    if s == affix + rest {
        assert(s.subrange(0, affix.len() as int) == affix);
        assert(s.skip(affix.len() as int) == rest);
    }
    if after_prefix(s, affix) == Some(rest) {
        assert(s.subrange(0, affix.len() as int) == affix);
        assert(s == affix + rest);
    }
    if s == rest + affix {
        assert(s.subrange(s.len() - affix.len(), s.len() as int) == affix);
        assert(s.take(s.len() - affix.len()) == rest);
    }
    if before_suffix(s, affix) == Some(rest) {
        assert(s.subrange(s.len() - affix.len(), s.len() as int) == affix);
        assert(s == rest + affix);
    }
}

} // verus!
