use tabtree::scan::{first_field, lines_of, split_first, split_once, strip_tabs, NEWLINE, TAB};

#[test]
fn split_once_splits_at_the_first_separator() {
    assert_eq!(Some(("key", "value")), split_once("key\tvalue", TAB));
    assert_eq!(Some(("key", "\tvalue\tmore")), split_once("key\t\tvalue\tmore", TAB));
    assert_eq!(Some(("", "")), split_once("\n", NEWLINE));
    assert_eq!(Some(("é日", "本")), split_once("é日\n本", NEWLINE));
}

#[test]
fn split_once_finds_nothing_without_a_separator() {
    assert_eq!(None, split_once("", TAB));
    assert_eq!(None, split_once("key value", TAB));
    assert_eq!(None, split_once("a\tb", NEWLINE));
}

#[test]
fn strip_tabs_counts_what_it_takes_off() {
    assert_eq!((0, "a\tb"), strip_tabs("a\tb"));
    assert_eq!((2, "a\t"), strip_tabs("\t\ta\t"));
    assert_eq!((3, ""), strip_tabs("\t\t\t"));
    assert_eq!((0, ""), strip_tabs(""));
    assert_eq!((1, "é"), strip_tabs("\té"));
}

#[test]
fn split_first_takes_one_character() {
    assert_eq!(None, split_first(""));
    assert_eq!(Some(('a', "")), split_first("a"));
    assert_eq!(Some(('a', "nd")), split_first("and"));
    assert_eq!(Some(('é', "té")), split_first("été"));
    assert_eq!(Some(('日', "本")), split_first("日本"));
    assert_eq!(Some(('𝄞', "x")), split_first("𝄞x"));
}

#[test]
fn lines_end_at_newlines() {
    assert_eq!(Vec::<&str>::new(), lines_of(""));
    assert_eq!(vec!["a"], lines_of("a"));
    assert_eq!(vec!["a"], lines_of("a\n"));
    assert_eq!(vec!["a", "", "b"], lines_of("a\n\nb"));
    assert_eq!(vec!["", ""], lines_of("\n\n"));
    assert_eq!(vec!["a\r", "\tb"], lines_of("a\r\n\tb\n"));
}

#[test]
fn the_first_field_ends_at_the_first_tab() {
    assert_eq!("key", first_field("key\tvalue"));
    assert_eq!("key", first_field("key"));
    assert_eq!("k", first_field("k\t\t"));
}
