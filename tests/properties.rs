use std::borrow::Cow;
use tab_expand::StringExt;

#[test]
fn text_without_tab_is_returned_borrowed() {
    for k in [0u16, 1, 4, 8, 65535] {
        let r = "plain text, no tabs".expand_tabs(k);
        assert!(matches!(r, Cow::Borrowed(_)));
        assert_eq!("plain text, no tabs", r);
    }
}

#[test]
fn empty_input_gives_empty_output() {
    assert_eq!("", "".expand_tabs(8));
    assert_eq!("", "".expand_tabs_default());
}

#[test]
fn zero_tab_size_deletes_every_tab() {
    assert_eq!("abc", "\ta\t\tb\tc\t".expand_tabs(0));
}

#[test]
fn default_matches_tab_size_eight() {
    for s in ["\t", "a\tb", "abcdefgh\tx", "\t\t\t", "xy\tz\t"] {
        assert_eq!(s.expand_tabs(8), s.expand_tabs_default());
    }
}

#[test]
fn tab_at_offset_zero_takes_full_stop() {
    assert_eq!("    x", "\tx".expand_tabs(4));
    assert_eq!("        ", "\t".expand_tabs_default());
}

#[test]
fn tab_on_a_stop_boundary_takes_full_stop() {
    assert_eq!("abcd    e", "abcd\te".expand_tabs(4));
}

#[test]
fn later_tabs_use_their_offset_in_the_input() {
    // The second tab stands at offset 3 of the input: 4 - 3 % 4 = 1 space.
    assert_eq!("a   b c", "a\tb\tc".expand_tabs(4));
}

#[test]
fn output_length_follows_tab_offsets() {
    // Tabs at offsets 0, 2 and 7 with a tab size of 3: widths 3, 1 and 2.
    let s = "\ta\tbcde\tf";
    let r = s.expand_tabs(3);
    assert_eq!(s.chars().count() - 3 + 3 + 1 + 2, r.chars().count());
    assert_eq!("   a bcde  f", r);
}

#[test]
fn largest_tab_size_is_accepted() {
    let r = "a\tb".expand_tabs(u16::MAX);
    assert_eq!(1 + 65534 + 1, r.len());
    assert!(r.starts_with('a') && r.ends_with('b'));
}

#[test]
fn string_values_expand_like_str() {
    let owned = String::from("H\te");
    assert_eq!("H   e", owned.expand_tabs(4));
    assert_eq!("H       e", owned.expand_tabs_default());
}

#[test]
fn offsets_count_characters() {
    // 'é' is one character: the tab stands at offset 1.
    assert_eq!("é   x", "é\tx".expand_tabs(4));
}
