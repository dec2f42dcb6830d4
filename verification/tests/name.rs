use bergr::name::strip_suffix;

#[test]
fn no_suffix_is_unchanged() {
    assert_eq!(strip_suffix("impl"), "impl");
}

#[test]
fn empty_string_is_unchanged() {
    assert_eq!(strip_suffix(""), "");
}

#[test]
fn strips_single_suffix() {
    assert_eq!(strip_suffix("impl!"), "impl");
    assert_eq!(strip_suffix("review\u{2713}"), "review");
    assert_eq!(strip_suffix("tests\u{2717}"), "tests");
}

#[test]
fn strips_repeated_suffix() {
    assert_eq!(strip_suffix("impl!!"), "impl");
    assert_eq!(strip_suffix("impl!\u{2713}?"), "impl");
}

#[test]
fn suffix_only_string_becomes_empty() {
    assert_eq!(strip_suffix("!\u{2713}\u{2717}?"), "");
}

#[test]
fn does_not_touch_interior_characters() {
    assert_eq!(strip_suffix("impl!review"), "impl!review");
}

#[test]
fn stripping_twice_is_stripping_once() {
    for name in ["impl", "impl!?", "?", "", "a!b\u{2717}", "\u{fc}ber\u{2713}"] {
        let once = strip_suffix(name);
        assert_eq!(strip_suffix(&once), once);
    }
}
