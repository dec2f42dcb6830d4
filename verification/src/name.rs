//! The base of a window name and the status symbols that follow it.

use crate::state::{symbol_of, State};
use crate::text::{chars_of, text_of};
use vstd::prelude::*;

verus! {

/// The characters that are taken for a status symbol at the end of a window name.
pub open spec fn is_suffix_char(c: char) -> bool {
    c == '!' || c == '\u{2713}' || c == '\u{2717}' || c == '?'
}

/// `name` without the status symbols it ends in.
pub open spec fn stripped(name: Seq<char>) -> Seq<char>
    decreases name.len(),
{
    if name.len() > 0 && is_suffix_char(name.last()) {
        stripped(name.drop_last())
    } else {
        name
    }
}

/// Removes every status symbol from the end of `name`.
pub fn strip_suffix(name: &str) -> (base: String)
    ensures
        base@ == stripped(name@),
{
    let mut chars = chars_of(name);
    loop
        invariant_except_break
            stripped(chars@) == stripped(name@),
        ensures
            chars@ == stripped(name@),
        decreases chars@.len(),
    {
        if chars.len() == 0 {
            break;
        }
        let last: char = chars[chars.len() - 1];
        if last != '!' && last != '\u{2713}' && last != '\u{2717}' && last != '?' {
            break;
        }
        chars.pop();
    }
    text_of(&chars)
}

/// The base of a name is its longest beginning that does not end in a status symbol:
/// nothing but status symbols is taken off, and none is left at the end.
pub proof fn law_only_trailing_symbols_are_stripped(name: Seq<char>)
    ensures
        stripped(name).is_prefix_of(name),
        forall|i: int| stripped(name).len() <= i < name.len() ==> is_suffix_char(#[trigger] name[i]),
        stripped(name).len() > 0 ==> !is_suffix_char(stripped(name).last()),
    decreases name.len(),
{
    if name.len() > 0 && is_suffix_char(name.last()) {
        let shorter = name.drop_last();
        law_only_trailing_symbols_are_stripped(shorter);
        assert forall|i: int| stripped(name).len() <= i < name.len() implies is_suffix_char(
            #[trigger] name[i],
        ) by {
            if i < shorter.len() {
                assert(name[i] == shorter[i]);
            }
        }
    }
}

/// Stripping a name a second time changes nothing.
pub proof fn law_strip_is_idempotent(name: Seq<char>)
    ensures
        stripped(stripped(name)) == stripped(name),
{
    law_only_trailing_symbols_are_stripped(name);
}

/// The symbol of a state is stripped with the rest, so the base of a name survives
/// being shown with one.
pub proof fn law_symbol_is_stripped(name: Seq<char>, state: State)
    ensures
        stripped(name + symbol_of(state)) == stripped(name),
{
    let shown = name + symbol_of(state);
    if symbol_of(state).len() > 0 {
        assert(shown.drop_last() == name);
        assert(is_suffix_char(shown.last()));
    } else {
        assert(shown == name);
    }
}

/// The status symbols are these four characters.
pub proof fn law_suffix_chars(c: char)
    ensures
        is_suffix_char(c) <==> "!\u{2713}\u{2717}?"@.contains(c),
{
    lemma_suffix_chars();
}

/// The status symbols, as a text.
pub(crate) proof fn lemma_suffix_chars()
    ensures
        forall|c: char|
            is_suffix_char(c) <==> #[trigger] "!\u{2713}\u{2717}?"@.contains(c),
{
    reveal_strlit("!\u{2713}\u{2717}?");
    let symbols = "!\u{2713}\u{2717}?"@;
    assert(symbols[0] == '!' && symbols[1] == '\u{2713}' && symbols[2] == '\u{2717}' && symbols[3]
        == '?');
}

/// A name is its base and the symbols behind it, and the base of a base and any symbols is
/// that base.
pub proof fn law_base_is_told_from_symbols(base: Seq<char>, symbols: Seq<char>)
    requires
        base.len() > 0 ==> !"!\u{2713}\u{2717}?"@.contains(base.last()),
        forall|i: int|
            0 <= i < symbols.len() ==> "!\u{2713}\u{2717}?"@.contains(#[trigger] symbols[i]),
    ensures
        stripped(base + symbols) == base,
    decreases symbols.len(),
{
    lemma_suffix_chars();
    let name = base + symbols;
    if symbols.len() > 0 {
        let fewer = symbols.drop_last();
        assert forall|i: int| 0 <= i < fewer.len() implies "!\u{2713}\u{2717}?"@.contains(
            #[trigger] fewer[i],
        ) by {
            assert(fewer[i] == symbols[i]);
        }
        law_base_is_told_from_symbols(base, fewer);
        assert(symbols.contains(symbols.last()));
        assert("!\u{2713}\u{2717}?"@.contains(symbols[symbols.len() - 1]));
        assert(name.last() == symbols.last());
        assert(name.drop_last() == base + fewer);
    } else {
        assert(name == base);
    }
}

/// What `strip_suffix` returns is the name up to its last character that is no status
/// symbol.
pub proof fn law_strip_suffix_returns_the_base(name: &str, base: String)
    requires
        call_ensures(strip_suffix, (name,), base),
    ensures
        base@.is_prefix_of(name@),
        forall|i: int|
            base@.len() <= i < name@.len() ==> "!\u{2713}\u{2717}?"@.contains(#[trigger] name@[i]),
        base@.len() > 0 ==> !"!\u{2713}\u{2717}?"@.contains(base@.last()),
{
    lemma_suffix_chars();
    law_only_trailing_symbols_are_stripped(name@);
}

} // verus!
