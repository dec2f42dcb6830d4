//! File names for agents and sessions.
//!
//! A name is percent-encoded, so that whatever it holds makes one name of a path.

use crate::path::{is_name, DOT, SLASH};
use crate::text::{ascii_lowered, to_ascii_lowercase};
use vstd::prelude::*;
use vstd::utf8::{encode_utf8, is_ascii_chars};

verus! {

/// The bytes that stand for themselves in a file name: ASCII letters and digits, `-`
/// and `_`.
pub open spec fn is_plain(byte: u8) -> bool {
    ||| 0x30 <= byte <= 0x39
    ||| 0x41 <= byte <= 0x5a
    ||| 0x61 <= byte <= 0x7a
    ||| byte == 0x2d
    ||| byte == 0x5f
}

/// The hexadecimal digit for `n`, in lower case.
pub open spec fn hex_digit_of(n: u8) -> char {
    if n < 10 {
        (0x30 + n) as char
    } else {
        (0x57 + n) as char
    }
}

/// What `byte` is written as in a file name.
pub open spec fn escaped(byte: u8) -> Seq<char> {
    if is_plain(byte) {
        seq![byte as char]
    } else {
        seq!['%', hex_digit_of(byte / 16), hex_digit_of(byte % 16)]
    }
}

/// What `bytes` are written as in a file name.
pub open spec fn percent_encoded(bytes: Seq<u8>) -> Seq<char>
    decreases bytes.len(),
{
    if bytes.len() == 0 {
        seq![]
    } else {
        escaped(bytes[0]) + percent_encoded(bytes.drop_first())
    }
}

/// The file name for an agent: ASCII case is folded, and the rest is percent-encoded.
pub open spec fn agent_component(agent: Seq<char>) -> Seq<char> {
    percent_encoded(encode_utf8(ascii_lowered(agent)))
}

/// The file name for a session: percent-encoded, in the case it is written in.
pub open spec fn session_component(session: Seq<char>) -> Seq<char> {
    percent_encoded(encode_utf8(session))
}

fn hex_digit(n: u8) -> (digit: char)
    requires
        n < 16,
    ensures
        digit == hex_digit_of(n),
{
    if n < 10 {
        (0x30 + n) as char
    } else {
        (0x57 + n) as char
    }
}

fn percent_encode(bytes: &[u8]) -> (text: String)
    ensures
        text@ == percent_encoded(bytes@),
{
    let mut text = String::new();
    assert(bytes@.skip(0) == bytes@);
    assert(text@ + percent_encoded(bytes@) == percent_encoded(bytes@));
    for i in 0..bytes.len()
        invariant
            text@ + percent_encoded(bytes@.skip(i as int)) == percent_encoded(bytes@),
    {
        let ghost rest = bytes@.skip(i as int);
        let ghost before = text@;
        let byte: u8 = bytes[i];
        assert(rest[0] == byte);
        assert(rest.drop_first() == bytes@.skip(i + 1));
        if (0x30 <= byte && byte <= 0x39) || (0x41 <= byte && byte <= 0x5a) || (0x61 <= byte
            && byte <= 0x7a) || byte == 0x2d || byte == 0x5f {
            text.push(byte as char);
        } else {
            text.push('%');
            text.push(hex_digit(byte / 16));
            text.push(hex_digit(byte % 16));
        }
        assert(text@ == before + escaped(byte));
        assert(text@ + percent_encoded(bytes@.skip(i + 1)) == before + percent_encoded(rest));
    }
    assert(bytes@.skip(bytes@.len() as int) == Seq::<u8>::empty());
    assert(text@ + percent_encoded(Seq::<u8>::empty()) == text@);
    text
}

/// The file name for an agent. Agents that differ only in ASCII case share it.
pub fn encode_path_component(agent: &str) -> (component: String)
    ensures
        component@ == agent_component(agent@),
{
    percent_encode(to_ascii_lowercase(agent).as_str().as_bytes())
}

/// The file name for a session. Different sessions have different ones.
pub fn encode_session_component(session: &str) -> (component: String)
    ensures
        component@ == session_component(session@),
{
    percent_encode(session.as_bytes())
}

/// No two bytes are written alike, nor does one begin as another is written.
proof fn lemma_escaped(a: u8, b: u8)
    ensures
        escaped(a).len() == if is_plain(a) {
            1nat
        } else {
            3nat
        },
        is_plain(a) ==> escaped(a)[0] as u32 == a,
        escaped(a)[0] == '%' <==> !is_plain(a),
        escaped(a) == escaped(b) ==> a == b,
{
    if !is_plain(a) && !is_plain(b) && escaped(a) == escaped(b) {
        assert(hex_digit_of(a / 16) == escaped(a)[1]);
        assert(hex_digit_of(b / 16) == escaped(b)[1]);
        assert(hex_digit_of(a % 16) == escaped(a)[2]);
        assert(hex_digit_of(b % 16) == escaped(b)[2]);
        assert(a / 16 == b / 16);
        assert(a % 16 == b % 16);
    }
    if is_plain(a) && is_plain(b) && escaped(a) == escaped(b) {
        assert(escaped(a)[0] == escaped(b)[0]);
    }
}

/// Percent-encoding loses nothing.
proof fn lemma_percent_encoded_injective(a: Seq<u8>, b: Seq<u8>)
    requires
        percent_encoded(a) == percent_encoded(b),
    ensures
        a == b,
    decreases a.len(),
{
    if a.len() > 0 {
        lemma_escaped(a[0], a[0]);
    }
    if b.len() > 0 {
        lemma_escaped(b[0], b[0]);
    }
    if a.len() > 0 && b.len() > 0 {
        let text = percent_encoded(a);
        assert(text[0] == escaped(a[0])[0]);
        assert(text[0] == escaped(b[0])[0]);
        let n = escaped(a[0]).len() as int;
        assert(escaped(a[0]) == text.take(n));
        assert(escaped(b[0]) == text.take(n));
        lemma_escaped(a[0], b[0]);
        assert(percent_encoded(a.drop_first()) == text.skip(n));
        assert(percent_encoded(b.drop_first()) == text.skip(n));
        lemma_percent_encoded_injective(a.drop_first(), b.drop_first());
        assert(a == seq![a[0]] + a.drop_first());
        assert(b == seq![b[0]] + b.drop_first());
    } else {
        assert(a.len() > 0 ==> percent_encoded(a).len() > 0);
        assert(b.len() > 0 ==> percent_encoded(b).len() > 0);
        assert(a == b);
    }
}

/// Different sessions have different file names.
pub proof fn law_sessions_are_kept_apart(a: Seq<char>, b: Seq<char>)
    ensures
        session_component(a) == session_component(b) <==> a == b,
{
    if session_component(a) == session_component(b) {
        lemma_percent_encoded_injective(encode_utf8(a), encode_utf8(b));
        vstd::utf8::encode_utf8_decode_utf8(a);
        vstd::utf8::encode_utf8_decode_utf8(b);
    }
}

/// Two agents have one file name exactly if they differ at most in ASCII case.
pub proof fn law_agents_are_told_apart_but_for_case(a: Seq<char>, b: Seq<char>)
    ensures
        agent_component(a) == agent_component(b) <==> ascii_lowered(a) == ascii_lowered(b),
{
    law_sessions_are_kept_apart(ascii_lowered(a), ascii_lowered(b));
}

/// Encoded text consists of plain characters and percent signs.
proof fn lemma_percent_encoded_chars(bytes: Seq<u8>)
    ensures
        is_ascii_chars(percent_encoded(bytes)),
        forall|i: int|
            0 <= i < percent_encoded(bytes).len() ==> #[trigger] percent_encoded(bytes)[i] != '/'
                && percent_encoded(bytes)[i] != '.',
        percent_encoded(bytes).len() >= bytes.len(),
    decreases bytes.len(),
{
    if bytes.len() > 0 {
        lemma_percent_encoded_chars(bytes.drop_first());
        let first = escaped(bytes[0]);
        let rest = percent_encoded(bytes.drop_first());
        let all = percent_encoded(bytes);
        assert forall|i: int| 0 <= i < all.len() implies '\0' <= #[trigger] all[i] <= '\u{7f}'
            && all[i] != '/' && all[i] != '.' by {
            if i < first.len() {
                assert(all[i] == first[i]);
            } else {
                assert(all[i] == rest[i - first.len()]);
            }
        }
    }
}

/// A text of plain characters and percent signs makes one name of a path, followed by
/// an extension or not.
proof fn lemma_encoded_is_name(text: Seq<char>, extension: Seq<char>)
    requires
        text.len() > 0 || extension.len() > 2,
        is_ascii_chars(text),
        is_ascii_chars(extension),
        forall|i: int| 0 <= i < text.len() ==> text[i] != '/' && text[i] != '.',
        forall|i: int| 0 <= i < extension.len() ==> extension[i] != '/',
        extension.len() == 0 || extension.len() > 2,
    ensures
        is_name(encode_utf8(text + extension)),
{
    let whole = text + extension;
    assert(is_ascii_chars(whole));
    vstd::utf8::is_ascii_chars_encode_utf8(whole);
    let bytes = encode_utf8(whole);
    assert forall|i: int| 0 <= i < bytes.len() implies bytes[i] != SLASH by {
        assert(whole[i] as u8 == bytes[i]);
    }
    if extension.len() == 0 {
        assert(whole[0] as u8 == bytes[0]);
        assert(bytes[0] != DOT);
    }
}

/// Whatever a session is called, its file name is one name of a path.
pub proof fn law_session_component_is_one_name(session: Seq<char>)
    requires
        session.len() > 0,
    ensures
        is_name(encode_utf8(session_component(session))),
{
    let bytes = encode_utf8(session);
    lemma_percent_encoded_chars(bytes);
    vstd::utf8::encode_utf8_first_scalar(session);
    let component = session_component(session);
    assert(component + seq![] == component);
    lemma_encoded_is_name(component, seq![]);
}

/// Whatever an agent is called, its state file's name is one name of a path.
pub proof fn law_state_file_is_one_name(agent: Seq<char>)
    ensures
        is_name(encode_utf8(agent_component(agent) + ".state"@)),
{
    lemma_percent_encoded_chars(encode_utf8(ascii_lowered(agent)));
    reveal_strlit(".state");
    lemma_encoded_is_name(agent_component(agent), ".state"@);
}

/// A name of small letters, digits, hyphens and underscores is its own file name.
pub proof fn law_plain_names_stand_for_themselves(name: Seq<char>)
    requires
        forall|i: int|
            0 <= i < name.len() ==> ('a' <= #[trigger] name[i] <= 'z' || '0' <= name[i] <= '9'
                || name[i] == '-' || name[i] == '_'),
    ensures
        session_component(name) == name,
        agent_component(name) == name,
{
    assert(is_ascii_chars(name)) by {
        assert forall|i: int| 0 <= i < name.len() implies '\0' <= #[trigger] name[i]
            <= '\u{7f}' by {}
    }
    vstd::utf8::is_ascii_chars_encode_utf8(name);
    let bytes = encode_utf8(name);
    assert forall|i: int| 0 <= i < bytes.len() implies is_plain(#[trigger] bytes[i]) && bytes[i]
        as char == name[i] by {
        assert(name[i] as u8 == bytes[i]);
    }
    lemma_plain_bytes(bytes, name);
    assert(ascii_lowered(name) == name);
}

/// Plain bytes are written as the characters that they are.
proof fn lemma_plain_bytes(bytes: Seq<u8>, text: Seq<char>)
    requires
        bytes.len() == text.len(),
        forall|i: int|
            0 <= i < bytes.len() ==> is_plain(#[trigger] bytes[i]) && bytes[i] as char == text[i],
    ensures
        percent_encoded(bytes) == text,
    decreases bytes.len(),
{
    if bytes.len() > 0 {
        let rest = bytes.drop_first();
        let rest_text = text.drop_first();
        assert forall|i: int| 0 <= i < rest.len() implies is_plain(#[trigger] rest[i]) && rest[i]
            as char == rest_text[i] by {
            assert(rest[i] == bytes[i + 1]);
            assert(rest_text[i] == text[i + 1]);
        }
        lemma_plain_bytes(rest, rest_text);
        assert(bytes[0] as char == text[0]);
        assert(percent_encoded(bytes) == text);
    }
}

/// A file name is written byte by byte, each plain byte as its character and each other
/// byte as a percent sign and its two digits of a hexadecimal number.
pub proof fn law_file_names_are_written_byte_by_byte(byte: u8, before: Seq<u8>, after: Seq<u8>)
    ensures
        percent_encoded(before + seq![byte] + after) == percent_encoded(before) + escaped(byte)
            + percent_encoded(after),
        escaped(byte) == seq![byte as char] || escaped(byte) == seq![
            '%',
            "0123456789abcdef"@[byte as int / 16],
            "0123456789abcdef"@[byte as int % 16],
        ],
        escaped(byte) == seq![byte as char] <==> is_plain(byte),
        byte == '/' as u8 || byte == '.' as u8 || byte == '%' as u8 ==> !is_plain(byte),
    decreases before.len(),
{
    reveal_strlit("0123456789abcdef");
    let digits = "0123456789abcdef"@;
    assert(forall|n: u8| n < 16 ==> #[trigger] hex_digit_of(n) == digits[n as int]);
    lemma_escaped(byte, byte);
    if !is_plain(byte) {
        assert(escaped(byte).len() == 3);
        assert(hex_digit_of(byte / 16) == digits[byte as int / 16]);
        assert(hex_digit_of(byte % 16) == digits[byte as int % 16]);
    }
    let whole = before + seq![byte] + after;
    if before.len() == 0 {
        assert(whole.drop_first() == after);
        assert(percent_encoded(whole) == percent_encoded(before) + escaped(byte) + percent_encoded(
            after,
        ));
    } else {
        law_file_names_are_written_byte_by_byte(byte, before.drop_first(), after);
        assert(whole.drop_first() == before.drop_first() + seq![byte] + after);
        assert(percent_encoded(whole) == percent_encoded(before) + escaped(byte) + percent_encoded(
            after,
        ));
    }
}

/// Two sessions have one file name only if they are the same, two agents also if they
/// differ in the case of English letters; either way the name is one name of a path.
pub proof fn law_encoded_names_keep_apart(
    a: &str,
    b: &str,
    session_a: String,
    session_b: String,
    agent_a: String,
    agent_b: String,
)
    requires
        call_ensures(encode_session_component, (a,), session_a),
        call_ensures(encode_session_component, (b,), session_b),
        call_ensures(encode_path_component, (a,), agent_a),
        call_ensures(encode_path_component, (b,), agent_b),
    ensures
        session_a@ == session_b@ <==> a@ == b@,
        agent_a@ == agent_b@ <==> ascii_lowered(a@) == ascii_lowered(b@),
        a@.len() > 0 ==> is_name(encode_utf8(session_a@)),
        is_name(encode_utf8(agent_a@ + ".state"@)),
{
    law_sessions_are_kept_apart(a@, b@);
    law_agents_are_told_apart_but_for_case(a@, b@);
    if a@.len() > 0 {
        law_session_component_is_one_name(a@);
    }
    law_state_file_is_one_name(a@);
}

/// The bytes that stand for themselves are those of English letters, digits, hyphens and
/// underscores.
pub proof fn law_plain_bytes(byte: u8)
    ensures
        is_plain(byte) <==> "0123456789"@.contains(byte as char)
            || "ABCDEFGHIJKLMNOPQRSTUVWXYZ"@.contains(byte as char)
            || "abcdefghijklmnopqrstuvwxyz"@.contains(byte as char) || byte == '-' as u8 || byte
            == '_' as u8,
{
    reveal_strlit("0123456789");
    reveal_strlit("ABCDEFGHIJKLMNOPQRSTUVWXYZ");
    reveal_strlit("abcdefghijklmnopqrstuvwxyz");
    let digits = "0123456789"@;
    let capitals = "ABCDEFGHIJKLMNOPQRSTUVWXYZ"@;
    let small = "abcdefghijklmnopqrstuvwxyz"@;
    assert(forall|i: int| 0 <= i < 10 ==> #[trigger] digits[i] as u32 == 48 + i);
    assert(forall|i: int| 0 <= i < 26 ==> #[trigger] capitals[i] as u32 == 65 + i);
    assert(forall|i: int| 0 <= i < 26 ==> #[trigger] small[i] as u32 == 97 + i);
    let c = byte as char;
    if 0x30 <= byte <= 0x39 {
        assert(digits[byte - 0x30] == c);
    }
    if 0x41 <= byte <= 0x5a {
        assert(capitals[byte - 0x41] == c);
    }
    if 0x61 <= byte <= 0x7a {
        assert(small[byte - 0x61] == c);
    }
}

} // verus!
