use crate::scan::split_first;
use vstd::prelude::*;
use vstd::string::StringExecFns;

verus! {

/// What a matcher hands back on success: the value it matched and the
/// unconsumed rest of its input.
#[derive(Debug, PartialEq)]
pub struct Parsed<'a, T> {
    pub result: T,
    pub rest: &'a str,
}

/// The outcome of a matcher: a match, or the reason why there is none.
pub type ParseResult<'a, T> = Result<Parsed<'a, T>, &'a str>;

/// What matching the character `expected` at the front of `text` gives: the
/// character and the text after it, or the reason for the failure.
pub open spec fn char_match(expected: char, text: Seq<char>) -> Result<
    (char, Seq<char>),
    Seq<char>,
> {
    if text.len() > 0 && text[0] == expected {
        Ok((expected, text.skip(1)))
    } else {
        Err("Character not found"@)
    }
}

/// What matching the word `expected` at the front of `text` gives: the word
/// and the text after it, or the reason for the failure, which is that of the
/// character that did not match.
pub open spec fn word_match(expected: Seq<char>, text: Seq<char>) -> Result<
    (Seq<char>, Seq<char>),
    Seq<char>,
> {
    if expected.is_prefix_of(text) {
        Ok((expected, text.skip(expected.len() as int)))
    } else {
        Err("Character not found"@)
    }
}

/// What the outcome of a character matcher says.
pub open spec fn char_outcome<'a>(r: ParseResult<'a, char>) -> Result<
    (char, Seq<char>),
    Seq<char>,
> {
    match r {
        Ok(parsed) => Ok((parsed.result, parsed.rest@)),
        Err(reason) => Err(reason@),
    }
}

/// What the outcome of a word matcher says.
pub open spec fn word_outcome<'a>(r: ParseResult<'a, String>) -> Result<
    (Seq<char>, Seq<char>),
    Seq<char>,
> {
    match r {
        Ok(parsed) => Ok((parsed.result@, parsed.rest@)),
        Err(reason) => Err(reason@),
    }
}

/// Matches `expected` at the front of `text`.
pub fn match_char<'a>(expected: char, text: &'a str) -> (r: ParseResult<'a, char>)
    ensures
        char_outcome(r) == char_match(expected, text@),
{
    match split_first(text) {
        Some((first, rest)) if first == expected => Ok(Parsed { result: expected, rest }),
        _ => Err("Character not found"),
    }
}

/// Matches `expected` at the front of `text`, one character after the other,
/// and stops at the first that does not match.
pub fn match_word<'a>(expected: &str, text: &'a str) -> (r: ParseResult<'a, String>)
    ensures
        word_outcome(r) == word_match(expected@, text@),
{
    let mut rest: &'a str = text;
    for c in it: expected.chars()
        invariant
            it.seq() == expected@,
            it.index() <= text@.len(),
            expected@.take(it.index()) == text@.take(it.index()),
            rest@ == text@.skip(it.index()),
    {
        let ghost i = it.index();
        match match_char(c, rest) {
            Err(reason) => {
                proof {
                    if expected@.is_prefix_of(text@) {
                        assert(text@[i] == expected@[i]);
                    }
                }
                return Err(reason);
            },
            Ok(parsed) => {
                proof {
                    assert(text@.skip(i).skip(1) == text@.skip(i + 1));
                    assert(expected@.take(i + 1) == expected@.take(i).push(expected@[i]));
                    assert(text@.take(i + 1) == text@.take(i).push(text@[i]));
                }
                rest = parsed.rest;
            },
        }
    }
    proof {
        assert(expected@.take(expected@.len() as int) == expected@);
    }
    Ok(Parsed { result: String::from_str(expected), rest })
}

/// A matcher for the character `to_parse`: given a text, it matches that
/// character at the text's front.
pub fn pchar(to_parse: char) -> (matcher: impl Fn(&str) -> ParseResult<char>)
    ensures
        forall|text: &str| #[trigger] matcher.requires((text,)),
        forall|text: &str, r: ParseResult<char>| #[trigger]
            matcher.ensures((text,), r) ==> char_outcome(r) == char_match(to_parse, text@),
{
    move |text: &str| -> (r: ParseResult<char>)
        ensures
            char_outcome(r) == char_match(to_parse, text@),
        { match_char(to_parse, text) }
}

/// A matcher for the word `to_parse`: given a text, it matches the word's
/// characters in turn at the text's front.
pub fn pword<'w>(to_parse: &'w str) -> (matcher: impl Fn(&str) -> ParseResult<String> + 'w)
    ensures
        forall|text: &str| #[trigger] matcher.requires((text,)),
        forall|text: &str, r: ParseResult<String>| #[trigger]
            matcher.ensures((text,), r) ==> word_outcome(r) == word_match(to_parse@, text@),
{
    move |text: &str| -> (r: ParseResult<String>)
        ensures
            word_outcome(r) == word_match(to_parse@, text@),
        { match_word(to_parse, text) }
}

} // verus!
