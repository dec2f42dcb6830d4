//! Quoting for a POSIX shell.

use crate::text::chars_of;
use vstd::prelude::*;

verus! {

/// How a single quote is written between single quotes: they are closed, an escaped
/// quote follows, and they are opened again.
pub open spec fn quote_escape() -> Seq<char> {
    seq!['\'', '\\', '\'', '\'']
}

/// `s` with its single quotes escaped.
pub open spec fn quote_body(s: Seq<char>) -> Seq<char>
    decreases s.len(),
{
    if s.len() == 0 {
        seq![]
    } else if s[0] == '\'' {
        quote_escape() + quote_body(s.drop_first())
    } else {
        seq![s[0]] + quote_body(s.drop_first())
    }
}

/// `s` between single quotes.
pub open spec fn quoted(s: Seq<char>) -> Seq<char> {
    seq!['\''] + quote_body(s) + seq!['\'']
}

/// `body` with each escaped quote, found from the left, replaced by a quote.
pub open spec fn unquoted_body(body: Seq<char>) -> Seq<char>
    decreases body.len(),
{
    if body.len() == 0 {
        seq![]
    } else if quote_escape().is_prefix_of(body) {
        seq!['\''] + unquoted_body(body.skip(4))
    } else {
        seq![body[0]] + unquoted_body(body.drop_first())
    }
}

/// Quotes `s` for safe use as a single argument in a POSIX shell command line, even when
/// `s` itself contains single quotes (e.g. `/Users/Jane O'Connor/berger`).
pub fn shell_quote(s: &str) -> (text: String)
    ensures
        text@ == quoted(s@),
{
    let chars = chars_of(s);
    let mut text = String::new();
    text.push('\'');
    assert(s@.skip(0) == s@);
    for i in 0..chars.len()
        invariant
            chars@ == s@,
            text@ + quote_body(s@.skip(i as int)) == seq!['\''] + quote_body(s@),
    {
        let ghost rest = s@.skip(i as int);
        let ghost before = text@;
        assert(rest[0] == s@[i as int]);
        assert(rest.drop_first() == s@.skip(i + 1));
        if chars[i] == '\'' {
            text.push('\'');
            text.push('\\');
            text.push('\'');
            text.push('\'');
            assert(text@ == before + quote_escape());
        } else {
            text.push(chars[i]);
            assert(text@ == before + seq![rest[0]]);
        }
        assert(text@ + quote_body(s@.skip(i + 1)) == before + quote_body(rest));
    }
    assert(s@.skip(s@.len() as int) == Seq::<char>::empty());
    assert(text@ + quote_body(Seq::<char>::empty()) == text@);
    text.push('\'');
    assert(text@ == quoted(s@));
    text
}

/// Exact inverse of `shell_quote`'s body. Scans for the literal `'\''` escape unit rather
/// than blindly replacing that substring: any other alignment of those characters is
/// real content, not an escape.
pub fn shell_unquote_body(body: &str) -> (text: String)
    ensures
        text@ == unquoted_body(body@),
{
    let chars = chars_of(body);
    let mut text = String::new();
    let mut i: usize = 0;
    assert(body@.skip(0) == body@);
    assert(text@ + unquoted_body(body@) == unquoted_body(body@));
    while i < chars.len()
        invariant
            i <= chars@.len(),
            chars@ == body@,
            text@ + unquoted_body(body@.skip(i as int)) == unquoted_body(body@),
        decreases chars@.len() - i,
    {
        let ghost rest = body@.skip(i as int);
        let ghost before = text@;
        assert(rest[0] == body@[i as int]);
        let escape = chars.len() - i >= 4 && chars[i] == '\'' && chars[i + 1] == '\\' && chars[i
            + 2] == '\'' && chars[i + 3] == '\'';
        assert(escape == quote_escape().is_prefix_of(rest)) by {
            if escape {
                assert(rest.subrange(0, 4) =~= quote_escape());
            }
            if quote_escape().is_prefix_of(rest) {
                assert(rest[1] == quote_escape()[1]);
                assert(rest[2] == quote_escape()[2]);
                assert(rest[3] == quote_escape()[3]);
            }
        }
        if escape {
            text.push('\'');
            assert(rest.skip(4) == body@.skip(i + 4));
            i = i + 4;
        } else {
            text.push(chars[i]);
            assert(rest.drop_first() == body@.skip(i + 1));
            i = i + 1;
        }
        assert(text@ + unquoted_body(body@.skip(i as int)) == before + unquoted_body(rest));
    }
    assert(body@.skip(i as int) == Seq::<char>::empty());
    assert(text@ + unquoted_body(Seq::<char>::empty()) == text@);
    text
}

/// Unquoting undoes quoting, whatever the text holds.
pub proof fn law_unquote_inverts_quote(s: Seq<char>)
    ensures
        unquoted_body(quote_body(s)) == s,
    decreases s.len(),
{
    if s.len() > 0 {
        let rest = s.drop_first();
        let body = quote_body(s);
        law_unquote_inverts_quote(rest);
        assert(s == seq![s[0]] + rest);
        if s[0] == '\'' {
            assert(body.subrange(0, 4) == quote_escape());
            assert(body.skip(4) == quote_body(rest));
        } else {
            assert(body[0] == s[0]);
            assert(!quote_escape().is_prefix_of(body)) by {
                if quote_escape().is_prefix_of(body) {
                    assert(body[0] == quote_escape()[0]);
                }
            }
            assert(body.drop_first() == quote_body(rest));
        }
    }
}

/// What a POSIX shell reads `text` as, if it is a single word made only of text between
/// single quotes and of characters after a backslash. `inside` tells whether a quote is
/// open before `text`.
pub open spec fn shell_word(text: Seq<char>, inside: bool) -> Option<Seq<char>>
    decreases text.len(),
{
    if text.len() == 0 {
        if inside {
            None
        } else {
            Some(seq![])
        }
    } else if text[0] == '\'' {
        shell_word(text.drop_first(), !inside)
    } else if inside {
        match shell_word(text.drop_first(), inside) {
            Some(rest) => Some(seq![text[0]] + rest),
            None => None,
        }
    } else if text[0] == '\\' && text.len() > 1 && text[1] != '\n' {
        match shell_word(text.skip(2), inside) {
            Some(rest) => Some(seq![text[1]] + rest),
            None => None,
        }
    } else {
        None
    }
}

/// A shell reads quoted text as one word, and that word is the text.
pub proof fn law_quoted_is_one_shell_word(s: Seq<char>)
    ensures
        shell_word(quoted(s), false) == Some(s),
{
    lemma_body_is_read(s);
    assert(quoted(s).drop_first() == quote_body(s).push('\''));
}

proof fn lemma_body_is_read(s: Seq<char>)
    ensures
        shell_word(quote_body(s).push('\''), true) == Some(s),
    decreases s.len(),
{
    let text = quote_body(s).push('\'');
    if s.len() == 0 {
        assert(text.drop_first() == Seq::<char>::empty());
        assert(shell_word(text.drop_first(), false) == Some(s));
    } else {
        let rest = s.drop_first();
        let rest_text = quote_body(rest).push('\'');
        lemma_body_is_read(rest);
        assert(s == seq![s[0]] + rest);
        if s[0] == '\'' {
            assert(text == quote_escape() + rest_text);
            let second = text.drop_first();
            let fourth = second.skip(2);
            assert(second[0] == '\\' && second[1] == '\'');
            assert(fourth[0] == '\'');
            assert(fourth.drop_first() == rest_text);
            assert(shell_word(fourth, false) == Some(rest));
            assert(shell_word(second, false) == Some(seq!['\''] + rest));
        } else {
            assert(text.drop_first() == rest_text);
        }
    }
}

/// Unquoting reads the unit that stands for a quote, and takes everything else as it is,
/// from the left.
pub proof fn law_unquote_reads_from_the_left(c: char, rest: Seq<char>)
    ensures
        unquoted_body("'\\''"@ + rest) == seq!['\''] + unquoted_body(rest),
        !"'\\''"@.is_prefix_of(seq![c] + rest) ==> unquoted_body(seq![c] + rest) == seq![c]
            + unquoted_body(rest),
        unquoted_body(Seq::empty()).len() == 0,
{
    reveal_strlit("'\\''");
    assert("'\\''"@ == quote_escape());
    let escaped = quote_escape() + rest;
    assert(escaped.subrange(0, 4) == quote_escape());
    assert(escaped.skip(4) == rest);
    assert((seq![c] + rest).drop_first() == rest);
}

/// Different texts are quoted differently.
pub proof fn law_quoting_loses_nothing(a: Seq<char>, b: Seq<char>)
    ensures
        quoted(a) == quoted(b) <==> a == b,
{
    law_quoted_is_one_shell_word(a);
    law_quoted_is_one_shell_word(b);
}

/// A shell reads what `shell_quote` returns as the text it was given, and
/// `shell_unquote_body` gives that text back from between the quotes.
pub proof fn law_quote_and_unquote(s: &str, text: String, body: &str, back: String)
    requires
        call_ensures(shell_quote, (s,), text),
        call_ensures(shell_unquote_body, (body,), back),
    ensures
        shell_word(text@, false) == Some(s@),
        text@ == "'"@ + body@ + "'"@ ==> back@ == s@,
        !body@.contains('\'') ==> back@ == body@,
{
    law_quoted_is_one_shell_word(s@);
    law_unquote_inverts_quote(s@);
    reveal_strlit("'");
    if text@ == "'"@ + body@ + "'"@ {
        assert(quote_body(s@) == text@.subrange(1, text@.len() - 1));
        assert(body@ == text@.subrange(1, text@.len() - 1));
    }
    if !body@.contains('\'') {
        lemma_nothing_to_unquote(body@);
    }
}

proof fn lemma_nothing_to_unquote(body: Seq<char>)
    requires
        !body.contains('\''),
    ensures
        unquoted_body(body) == body,
    decreases body.len(),
{
    if body.len() > 0 {
        let rest = body.drop_first();
        assert(body.contains(body[0]));
        assert(!quote_escape().is_prefix_of(body)) by {
            if quote_escape().is_prefix_of(body) {
                assert(body[0] == quote_escape()[0]);
            }
        }
        assert(!rest.contains('\'')) by {
            if rest.contains('\'') {
                let i = choose|i: int| 0 <= i < rest.len() && rest[i] == '\'';
                assert(body[i + 1] == '\'');
            }
        }
        lemma_nothing_to_unquote(rest);
        assert(body == seq![body[0]] + rest);
    }
}

} // verus!
