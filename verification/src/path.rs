//! Unix paths as sequences of bytes.

use crate::text::{lemma_position, lemma_position_is, position};
use vstd::prelude::*;
use vstd::slice::slice_to_vec;

verus! {

/// The byte that separates the names of a path.
pub const SLASH: u8 = 0x2f;

/// The byte that one or two of stand for the directory itself or its parent.
pub const DOT: u8 = 0x2e;

/// Whether a path starts at the root.
pub open spec fn is_rooted(path: Seq<u8>) -> bool {
    path.len() > 0 && path[0] == SLASH
}

/// `name` below `base`; a rooted `name` stands for itself.
pub open spec fn joined(base: Seq<u8>, name: Seq<u8>) -> Seq<u8> {
    if is_rooted(name) {
        name
    } else if base.len() == 0 || base.last() == SLASH {
        base + name
    } else {
        base.push(SLASH) + name
    }
}

/// The names that a path is made of: what stands between its slashes, but for nothing
/// at all and a single dot.
pub open spec fn components(path: Seq<u8>) -> Seq<Seq<u8>>
    decreases path.len(),
    via components_decreases
{
    let at = position(path, SLASH);
    let first = path.take(at);
    let rest = if at < path.len() {
        components(path.skip(at + 1))
    } else {
        seq![]
    };
    if first.len() == 0 || first == seq![DOT] {
        rest
    } else {
        seq![first] + rest
    }
}

#[via_fn]
proof fn components_decreases(path: Seq<u8>) {
    lemma_position(path, SLASH);
}

/// The last name of a path, unless that name stands for a parent directory.
pub open spec fn file_name_of(path: Seq<u8>) -> Option<Seq<u8>> {
    let names = components(path);
    if names.len() > 0 && names.last() != seq![DOT, DOT] {
        Some(names.last())
    } else {
        None
    }
}

/// Whether two byte strings are the same.
pub(crate) fn same_bytes(a: &[u8], b: &[u8]) -> (same: bool)
    ensures
        same == (a@ == b@),
{
    if a.len() != b.len() {
        return false;
    }
    for i in 0..a.len()
        invariant
            a@.len() == b@.len(),
            a@.take(i as int) == b@.take(i as int),
    {
        if a[i] != b[i] {
            return false;
        }
        assert(a@.take(i + 1) == a@.take(i as int).push(a@[i as int]));
        assert(b@.take(i + 1) == b@.take(i as int).push(b@[i as int]));
    }
    assert(a@.take(a@.len() as int) == a@);
    assert(b@.take(b@.len() as int) == b@);
    true
}

/// Appends `more` to `bytes`.
fn push_bytes(bytes: &mut Vec<u8>, more: &[u8])
    ensures
        final(bytes)@ == old(bytes)@ + more@,
{
    for i in 0..more.len()
        invariant
            bytes@ == old(bytes)@ + more@.take(i as int),
    {
        bytes.push(more[i]);
    }
    assert(more@.take(more@.len() as int) == more@);
}

/// Whether a path starts at the root.
pub(crate) fn has_root(path: &[u8]) -> (rooted: bool)
    ensures
        rooted == is_rooted(path@),
{
    path.len() > 0 && path[0] == SLASH
}

/// `name` below `base`.
pub(crate) fn join(base: &[u8], name: &[u8]) -> (path: Vec<u8>)
    ensures
        path@ == joined(base@, name@),
{
    if has_root(name) {
        return slice_to_vec(name);
    }
    let mut path = slice_to_vec(base);
    if base.len() > 0 && base[base.len() - 1] != SLASH {
        path.push(SLASH);
    }
    push_bytes(&mut path, name);
    path
}

/// The names that a path is made of.
pub(crate) fn names(path: &[u8]) -> (names: Vec<Vec<u8>>)
    ensures
        names.deep_view() == components(path@),
{
    let mut names: Vec<Vec<u8>> = Vec::new();
    let mut start: usize = 0;
    assert(path@.skip(0) == path@);
    assert(names.deep_view() + components(path@) == components(path@));
    loop
        invariant
            start <= path@.len(),
            names.deep_view() + components(path@.skip(start as int)) == components(path@),
        decreases path@.len() - start,
    {
        let ghost rest = path@.skip(start as int);
        let ghost before = names.deep_view();
        let mut end: usize = start;
        while end < path.len() && path[end] != SLASH
            invariant
                start <= end <= path@.len(),
                rest == path@.skip(start as int),
                forall|i: int| 0 <= i < end - start ==> rest[i] != SLASH,
            decreases path@.len() - end,
        {
            assert(rest[end - start] == path@[end as int]);
            end = end + 1;
        }
        proof {
            assert(end < path@.len() ==> rest[end - start] == path@[end as int]);
            lemma_position_is(rest, SLASH, end - start);
            assert(rest.take(end - start) == path@.subrange(start as int, end as int));
            assert(end < path@.len() ==> rest.skip(end - start + 1) == path@.skip(end + 1));
        }
        let name = slice_to_vec(&path[start..end]);
        assert(name@ == rest.take(end - start));
        let single_dot = name.len() == 1 && name[0] == DOT;
        assert(single_dot == (name@ =~= seq![DOT]));
        if name.len() > 0 && !single_dot {
            let ghost first = name@;
            names.push(name);
            assert(names.deep_view() == before.push(first)) by {
                assert(names@.last().deep_view() == first);
            }
        }
        if end == path.len() {
            assert(names.deep_view() == before + components(rest));
            return names;
        }
        assert(names.deep_view() + components(path@.skip(end + 1)) == before + components(rest));
        start = end + 1;
    }
}

/// The last name of a path, unless that name stands for a parent directory.
pub(crate) fn file_name(path: &[u8]) -> (name: Option<Vec<u8>>)
    ensures
        match name {
            Some(n) => file_name_of(path@) == Some(n@),
            None => file_name_of(path@) is None,
        },
{
    let mut names = names(path);
    let ghost all = names.deep_view();
    match names.pop() {
        Some(last) => {
            assert(all.last() == last.deep_view());
            assert(last.deep_view() == last@);
            let parent = last.len() == 2 && last[0] == DOT && last[1] == DOT;
            assert(parent == (last@ =~= seq![DOT, DOT]));
            if parent {
                None
            } else {
                Some(last)
            }
        },
        None => None,
    }
}

/// A text that is one name of a path, and so neither reaches into another directory nor
/// stands for the directory itself or its parent.
pub open spec fn is_name(name: Seq<u8>) -> bool {
    &&& name.len() > 0
    &&& forall|i: int| 0 <= i < name.len() ==> name[i] != SLASH
    &&& name != seq![DOT]
    &&& name != seq![DOT, DOT]
}

/// What stands before and after a slash contributes its names independently.
proof fn lemma_components_split(before: Seq<u8>, after: Seq<u8>)
    ensures
        components(before.push(SLASH) + after) == components(before) + components(after),
    decreases before.len(),
{
    let path = before.push(SLASH) + after;
    let at = position(before, SLASH);
    lemma_position(before, SLASH);
    lemma_position_is(path, SLASH, at);
    assert(path.take(at) == before.take(at));
    if at < before.len() {
        let rest = before.skip(at + 1);
        assert(path.skip(at + 1) == rest.push(SLASH) + after);
        lemma_components_split(rest, after);
        assert(components(path) == components(before) + components(after));
    } else {
        assert(path.skip(at + 1) == after);
        assert(components(path) == components(before) + components(after));
    }
}

/// Joining nothing to a path adds no name.
pub(crate) proof fn lemma_join_nothing(base: Seq<u8>)
    ensures
        components(joined(base, seq![])) == components(base),
{
    let nothing = Seq::<u8>::empty();
    lemma_position_is(nothing, SLASH, 0);
    assert(components(nothing) == Seq::<Seq<u8>>::empty());
    if base.len() == 0 || base.last() == SLASH {
        assert(base + nothing == base);
    } else {
        lemma_components_split(base, nothing);
    }
}

/// Joining one name to a path adds that name to those of the path.
pub proof fn law_join_adds_one_name(base: Seq<u8>, name: Seq<u8>)
    requires
        is_name(name),
    ensures
        components(joined(base, name)) == components(base).push(name),
        file_name_of(joined(base, name)) == Some(name),
{
    lemma_position_is(name, SLASH, name.len() as int);
    assert(name.take(name.len() as int) == name);
    assert(components(name) == seq![name]);
    if base.len() == 0 {
        assert(base + name == name);
        lemma_position_is(base, SLASH, 0);
        assert(components(base) == Seq::<Seq<u8>>::empty());
    } else if base.last() == SLASH {
        let shorter = base.drop_last();
        assert(shorter.push(SLASH) == base);
        lemma_components_split(shorter, name);
        let nothing = Seq::<u8>::empty();
        lemma_components_split(shorter, nothing);
        assert(shorter.push(SLASH) + nothing == base);
        lemma_position_is(nothing, SLASH, 0);
        assert(components(nothing) == Seq::<Seq<u8>>::empty());
    } else {
        lemma_components_split(base, name);
    }
    assert(components(joined(base, name)) == components(base).push(name));
}

/// Paths are separated by slashes, start at the root if they start with one, and a rooted
/// path is joined to nothing.
pub proof fn law_slash_roots_a_path(byte: u8, path: Seq<u8>, base: Seq<u8>)
    ensures
        is_rooted(seq![byte] + path) <==> byte == '/' as u8,
        !is_rooted(Seq::empty()),
        joined(base, seq!['/' as u8] + path) == seq!['/' as u8] + path,
{
}

/// Joining writes one path behind the other, with a slash between them unless the first is
/// empty or ends in one.
pub proof fn law_join_writes_one_slash(base: Seq<u8>, path: Seq<u8>)
    requires
        !is_rooted(path),
    ensures
        base.is_prefix_of(joined(base, path)),
        path.is_suffix_of(joined(base, path)),
        base.len() == 0 || base.last() == '/' as u8 ==> joined(base, path).len() == base.len()
            + path.len(),
        base.len() > 0 && base.last() != '/' as u8 ==> joined(base, path).len() == base.len() + 1
            + path.len() && joined(base, path)[base.len() as int] == '/' as u8,
        base.len() > 0 ==> (is_rooted(joined(base, path)) <==> is_rooted(base)),
{
    let whole = joined(base, path);
    assert(whole.subrange(0, base.len() as int) == base);
    assert(whole.subrange(whole.len() - path.len(), whole.len() as int) == path);
}

/// The names of a path are those before a slash and those behind it; text without a slash
/// is one name, but for no text and a single dot, which are none.
pub proof fn law_names_lie_between_slashes(before: Seq<u8>, after: Seq<u8>, name: Seq<u8>)
    ensures
        components(before + seq!['/' as u8] + after) == components(before) + components(after),
        !name.contains('/' as u8) ==> components(name) == if name.len() == 0 || name == seq![
            '.' as u8,
        ] {
            Seq::<Seq<u8>>::empty()
        } else {
            seq![name]
        },
{
    lemma_components_split(before, after);
    assert(before.push(SLASH) + after == before + seq!['/' as u8] + after);
    if !name.contains('/' as u8) {
        assert forall|i: int| 0 <= i < name.len() implies name[i] != SLASH by {
            assert(name.contains(name[i]));
        }
        lemma_position_is(name, SLASH, name.len() as int);
        assert(name.take(name.len() as int) == name);
    }
}

/// Joining a path that does not start at the root adds its names.
pub proof fn law_join_adds_names(base: Seq<u8>, path: Seq<u8>)
    requires
        !is_rooted(path),
    ensures
        components(joined(base, path)) == components(base) + components(path),
{
    if base.len() == 0 {
        assert(base + path == path);
        lemma_position_is(base, SLASH, 0);
        assert(components(base) == Seq::<Seq<u8>>::empty());
        assert(components(base) + components(path) == components(path));
    } else if base.last() == SLASH {
        let shorter = base.drop_last();
        let nothing = Seq::<u8>::empty();
        assert(shorter.push(SLASH) == base);
        assert(shorter.push(SLASH) + nothing == base);
        lemma_components_split(shorter, path);
        lemma_components_split(shorter, nothing);
        lemma_position_is(nothing, SLASH, 0);
        assert(components(nothing) == Seq::<Seq<u8>>::empty());
        assert(components(base) == components(shorter));
    } else {
        lemma_components_split(base, path);
    }
}

/// The file name of a path is its last name, however many slashes follow it; a path without
/// names has none, nor has one that ends in a parent directory.
pub proof fn law_file_name_is_the_last_name(base: Seq<u8>, name: Seq<u8>)
    ensures
        is_name(name) ==> file_name_of(joined(base, name)) == Some(name),
        file_name_of(base + seq!['/' as u8]) == file_name_of(base),
        components(base).len() == 0 ==> file_name_of(base) is None,
        file_name_of(joined(base, seq!['.' as u8, '.' as u8])) is None,
{
    if is_name(name) {
        law_join_adds_one_name(base, name);
    }
    let nothing = Seq::<u8>::empty();
    law_names_lie_between_slashes(base, nothing, nothing);
    assert(base + seq!['/' as u8] + nothing == base + seq!['/' as u8]);
    assert(components(base) + components(nothing) == components(base));
    let parent = seq!['.' as u8, '.' as u8];
    assert(!parent.contains('/' as u8));
    law_names_lie_between_slashes(nothing, nothing, parent);
    assert(components(parent) == seq![parent]);
    law_join_adds_names(base, parent);
    assert((components(base) + seq![parent]).last() == parent);
}

} // verus!
