use tabtree::matcher::{match_char, match_word, Parsed};
use tabtree::{pchar, pword};

#[test]
fn parsing_a_character_works() {
    let expected = Ok(Parsed { result: 'a', rest: "nd" });
    let parser = pchar('a');
    assert_eq!(expected, parser("and"));
}

#[test]
fn an_invalid_character_fails() {
    let expected = Err("Character not found");
    let parser = pchar('b');
    assert_eq!(expected, parser("and"));
}

#[test]
fn parsing_a_word_works() {
    let expected = Ok(Parsed { result: "Hello".to_string(), rest: ", World" });
    let parser = pword("Hello");
    assert_eq!(expected, parser("Hello, World"));
}

#[test]
fn parsing_the_wrong_word_fails() {
    let expected = Err("Character not found");
    let parser = pword("Hello");
    assert_eq!(expected, parser("Hey, World"));
}

#[test]
fn a_character_matcher_consumes_one_character() {
    assert_eq!(Ok(Parsed { result: 'x', rest: "" }), match_char('x', "x"));
    assert_eq!(Ok(Parsed { result: 'é', rest: "té" }), match_char('é', "été"));
    assert_eq!(Ok(Parsed { result: '\t', rest: "\tb" }), match_char('\t', "\t\tb"));
}

#[test]
fn a_character_matcher_fails_on_other_input() {
    assert_eq!(Err("Character not found"), match_char('x', ""));
    assert_eq!(Err("Character not found"), match_char('x', "ax"));
    assert_eq!(Err("Character not found"), match_char('e', "été"));
}

#[test]
fn a_word_matcher_consumes_the_word() {
    assert_eq!(Ok(Parsed { result: String::new(), rest: "abc" }), match_word("", "abc"));
    assert_eq!(Ok(Parsed { result: "abc".to_string(), rest: "" }), match_word("abc", "abc"));
    assert_eq!(Ok(Parsed { result: "日本".to_string(), rest: "語" }), match_word("日本", "日本語"));
}

#[test]
fn a_word_matcher_fails_as_its_character_matcher_does() {
    let by_char = pchar('l')("y, World").unwrap_err();
    let by_word = pword("Hello")("Hey, World").unwrap_err();
    assert_eq!(by_char, by_word);
    assert_eq!(Err("Character not found"), match_word("abc", "ab"));
    assert_eq!(Err("Character not found"), match_word("abc", ""));
    assert_eq!(Err("Character not found"), match_word("abc", "xabc"));
}

#[test]
fn matchers_run_one_after_the_other() {
    let first = pword("key")("key\tvalue").unwrap();
    assert_eq!("\tvalue", first.rest);
    let second = pchar('\t')(first.rest).unwrap();
    assert_eq!("value", second.rest);
    let third = pword("value")(second.rest).unwrap();
    assert_eq!("", third.rest);
    assert_eq!("value", third.result);
}
