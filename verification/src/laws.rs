use crate::document::array_outcome;
use crate::document::block_end;
use crate::document::block_nodes;
use crate::document::document_nodes;
use crate::document::fragment_pair;
use crate::document::lemma_block_end;
use crate::document::entry_node;
use crate::document::only_tabs;
use crate::document::ParseError;
use crate::matcher::char_match;
use crate::matcher::word_match;
use crate::text::fields;
use crate::text::is_field;
use crate::text::leading_tabs;
use crate::text::lemma_fields_are_fields;
use crate::text::lemma_fields_skip_tabs;
use crate::text::lemma_first_field;
use crate::text::lemma_first_index_of;
use crate::text::lemma_leading_tabs;
use crate::text::lemma_lines_hold_no_newline;
use crate::text::lemma_lines_without;
use crate::text::split_lines;
use crate::tree::all_well_formed;
use crate::tree::Node;
use crate::tree::TArray;
use vstd::prelude::*;

verus! {

/// `count` tabs.
pub open spec fn tabs(count: nat) -> Seq<char> {
    Seq::new(count, |i: int| '\t')
}

/// Text without a newline is one line, unless it is empty.
pub proof fn lemma_one_line(s: Seq<char>)
    requires
        s.len() > 0,
        !s.contains('\n'),
    ensures
        split_lines(s) == seq![s],
{
    lemma_first_index_of(s, '\n', s.len() as int);
}

/// A document of one line that stands for an item by itself has that item as
/// its only one.
proof fn lemma_single_entry(lines: Seq<Seq<char>>)
    requires
        lines.len() == 1,
    ensures
        block_nodes(lines, 0, 1) == match entry_node(lines, 0, 1) {
            Ok(item) => Ok::<Seq<Node>, ParseError>(seq![item]),
            Err(e) => Err(e),
        },
{
    
    assert(block_nodes(lines, 1, 1) == Ok::<Seq<Node>, ParseError>(Seq::empty()));
    if let Ok(item) = entry_node(lines, 0, 1) {
        assert(seq![item] + Seq::<Node>::empty() == seq![item]);
    }
}

/// The empty document has no items.
pub proof fn lemma_empty_document()
    ensures
        document_nodes(Seq::empty()) == Ok::<Seq<Node>, ParseError>(Seq::empty()),
{
}

/// A document without a tab and without a newline, unless it is empty, has
/// one item: a string that is the document itself.
pub proof fn lemma_plain_text_document(s: Seq<char>)
    requires
        s.len() > 0,
        !s.contains('\t'),
        !s.contains('\n'),
    ensures
        document_nodes(s) == Ok::<Seq<Node>, ParseError>(seq![Node::Text(s)]),
{
    lemma_one_line(s);
    let lines = seq![s];
    lemma_single_entry(lines);
    assert(s[0] != '\t');
    assert(leading_tabs(s) == 0);
    assert(!only_tabs(s));
    assert(s.skip(0) == s);
}

/// The string items that `lines` are, line by line.
pub open spec fn text_nodes(lines: Seq<Seq<char>>) -> Seq<Node> {
    lines.map_values(|line: Seq<char>| Node::Text(line))
}

/// Lines without a tab, from `start` on, are string items in their order.
proof fn lemma_plain_block(lines: Seq<Seq<char>>, start: int)
    requires
        0 <= start <= lines.len(),
        forall|i: int| 0 <= i < lines.len() ==> !(#[trigger] lines[i]).contains('\t'),
    ensures
        block_nodes(lines, start, lines.len() as int) == Ok::<Seq<Node>, ParseError>(
            text_nodes(lines.skip(start)),
        ),
    decreases lines.len() - start,
{
    let end = lines.len() as int;
    if start < end {
        let line = lines[start];
        assert(!line.contains('\t'));
        assert(line.len() > 0 ==> line[0] != '\t');
        assert(leading_tabs(line) == 0);
        if start + 1 < end {
            let next = lines[start + 1];
            assert(!next.contains('\t'));
            assert(next.len() > 0 ==> next[0] != '\t');
            assert(leading_tabs(next) == 0);
        }
        assert(block_end(lines, start + 1, end, 0) == start + 1);
        assert(line.skip(0) == line);
        assert(entry_node(lines, start, start + 1) == Ok::<Node, ParseError>(Node::Text(line)));
        lemma_plain_block(lines, start + 1);
        assert(seq![Node::Text(line)] + text_nodes(lines.skip(start + 1)) == text_nodes(
            lines.skip(start),
        ));
    } else {
        assert(text_nodes(lines.skip(start)) == Seq::<Node>::empty());
    }
}

/// A document without a tab is the sequence of its lines: each line is one
/// string item, and the items stand in the order of the lines.
pub proof fn lemma_plain_lines_in_order(document: Seq<char>)
    requires
        !document.contains('\t'),
    ensures
        document_nodes(document) == Ok::<Seq<Node>, ParseError>(
            text_nodes(split_lines(document)),
        ),
{
    let lines = split_lines(document);
    lemma_lines_without(document, '\t');
    lemma_plain_block(lines, 0);
    assert(lines.skip(0) == lines);
}

/// Tabs before a field do not change the fields.
proof fn lemma_fields_after_tabs(count: nat, rest: Seq<char>)
    ensures
        fields(tabs(count) + rest) == fields(rest),
    decreases count,
{
    let s = tabs(count) + rest;
    if count == 0 {
        assert(s == rest);
    } else {
        assert(s[0] == '\t');
        assert(s.skip(1) == tabs((count - 1) as nat) + rest);
        lemma_fields_after_tabs((count - 1) as nat, rest);
    }
}

/// Text without a tab is its own single field, unless it is empty.
proof fn lemma_fields_of_field(s: Seq<char>)
    requires
        s.len() > 0,
        !s.contains('\t'),
    ensures
        fields(s) == seq![s],
{
    assert(s[0] != '\t');
    lemma_first_index_of(s, '\t', s.len() as int);
    assert(s.take(s.len() as int) == s);
    assert(fields(s.skip(s.len() as int)) == Seq::<Seq<char>>::empty());
    assert(seq![s] + Seq::<Seq<char>>::empty() == seq![s]);
}

/// However many tabs separate a key from its value on a line, one or more,
/// the line is the same pair: that key with that value.
pub proof fn lemma_tab_runs_collapse(key: Seq<char>, count: nat, value: Seq<char>)
    requires
        is_field(key),
        is_field(value),
        count >= 1,
    ensures
        document_nodes(key + tabs(count) + value) == Ok::<Seq<Node>, ParseError>(
            seq![Node::Pair(key, Box::new(Node::Text(value)))],
        ),
{
    let s = key + tabs(count) + value;
    let tail = tabs(count) + value;
    assert(s == key + tail);
    assert forall|i: int| 0 <= i < s.len() implies s[i] != '\n' by {
        if i < key.len() {
            assert(key.contains(s[i]));
        } else if i >= key.len() + count {
            assert(value[i - key.len() - count] == s[i]);
            assert(value.contains(s[i]));
        }
    }
    lemma_one_line(s);
    let lines = seq![s];
    lemma_single_entry(lines);
    assert(s[0] == key[0]);
    assert(key.contains(key[0]));
    assert(leading_tabs(s) == 0);
    assert(!only_tabs(s));
    assert(s.skip(0) == s);
    assert(s[key.len() as int] == '\t');
    assert(s.contains('\t'));
    assert forall|j: int| 0 <= j < key.len() implies s[j] != '\t' by {
        assert(key.contains(s[j]));
    }
    lemma_first_index_of(s, '\t', key.len() as int);
    assert(s.take(key.len() as int) == key);
    assert(s.skip(key.len() as int) == tail);
    lemma_fields_after_tabs(count, value);
    lemma_fields_of_field(value);
    assert(fields(s) == seq![key] + seq![value]);
}

/// Two parses of one document say the same: equal documents give equal
/// trees, or the same error.
pub proof fn lemma_parse_deterministic<'a, 'b>(
    document: Seq<char>,
    first: Result<TArray<'a>, ParseError>,
    second: Result<TArray<'b>, ParseError>,
)
    requires
        array_outcome(first) == document_nodes(document),
        array_outcome(second) == document_nodes(document),
    ensures
        array_outcome(first) == array_outcome(second),
        first is Ok <==> second is Ok,
        first is Ok ==> first->Ok_0@ == second->Ok_0@,
{
}

/// A matcher that succeeds has consumed a prefix of its input and returned
/// the rest: the input is what it matched followed by what it returned. A
/// character matcher consumes one character, a word matcher the word's
/// length.
pub proof fn lemma_match_consumes_prefix(expected: char, word: Seq<char>, text: Seq<char>)
    ensures
        char_match(expected, text) matches Ok((matched, rest)) ==> text == seq![matched] + rest
            && rest.len() + 1 == text.len(),
        word_match(word, text) matches Ok((matched, rest)) ==> text == matched + rest
            && rest.len() + word.len() == text.len(),
{
    if let Ok((matched, rest)) = char_match(expected, text) {
        assert(text == seq![matched] + rest);
    }
    if let Ok((matched, rest)) = word_match(word, text) {
        assert(text == matched + rest);
    }
}

/// Matching a word is matching its characters one after the other, each on
/// what the one before it left: the empty word matches everywhere, and a
/// longer word matches where its first character matches and the rest of the
/// word matches what follows. Where a character does not match, the word
/// fails for that character's reason, and the characters after it are not
/// looked at.
pub proof fn lemma_word_is_sequence_of_chars(word: Seq<char>, text: Seq<char>)
    ensures
        word.len() == 0 ==> word_match(word, text) == Ok::<(Seq<char>, Seq<char>), Seq<char>>(
            (word, text),
        ),
        word.len() > 0 ==> word_match(word, text) == match char_match(word[0], text) {
            Err(reason) => Err::<(Seq<char>, Seq<char>), Seq<char>>(reason),
            Ok((first, after)) => match word_match(word.skip(1), after) {
                Err(reason) => Err(reason),
                Ok((others, rest)) => Ok((seq![first] + others, rest)),
            },
        },
{
    if word.len() == 0 {
        assert(text.skip(0) == text);
    } else {
        let tail = word.skip(1);
        if text.len() > 0 && text[0] == word[0] {
            let after = text.skip(1);
            if tail.is_prefix_of(after) {
                assert(word == seq![word[0]] + tail);
                assert forall|i: int| 0 <= i < word.len() implies word[i] == text[i] by {
                    if i > 0 {
                        assert(tail[i - 1] == after[i - 1]);
                    }
                }
                assert(word.is_prefix_of(text));
                assert(after.skip(tail.len() as int) == text.skip(word.len() as int));
            } else {
                if word.is_prefix_of(text) {
                    assert forall|i: int| 0 <= i < tail.len() implies tail[i] == after[i] by {
                        assert(word[i + 1] == text[i + 1]);
                    }
                    assert(tail.is_prefix_of(after));
                }
            }
        } else {
            if word.is_prefix_of(text) {
                assert(word[0] == text[0]);
            }
        }
    }
}

/// Whether none of `lines` holds a newline.
spec fn newline_free(lines: Seq<Seq<char>>) -> bool {
    forall|i: int| 0 <= i < lines.len() ==> !(#[trigger] lines[i]).contains('\n')
}

/// The item that a line stands for is well formed.
proof fn lemma_entry_well_formed(lines: Seq<Seq<char>>, at: int, stop: int)
    requires
        0 <= at < stop <= lines.len(),
        newline_free(lines),
    ensures
        entry_node(lines, at, stop) matches Ok(node) ==> node.well_formed(),
    decreases stop - at, 0int,
{
    let line = lines[at];
    let depth = leading_tabs(line) as int;
    let body = line.skip(depth);
    if entry_node(lines, at, stop) is Ok {
        lemma_leading_tabs(line);
        assert forall|j: int| 0 <= j < body.len() implies body[j] != '\n' by {
            assert(line.contains(line[j + depth]));
        }
        assert(!body.contains('\n'));
        lemma_fields_are_fields(body);
        if at + 1 < stop {
            lemma_first_field(body);
            lemma_block_well_formed(lines, at + 1, stop);
            let items = block_nodes(lines, at + 1, stop)->Ok_0;
            assert(Node::List(items).well_formed());
            assert(is_field(fields(body)[0]));
        } else if body.contains('\t') {
            assert(is_field(fields(body)[0]));
            assert(is_field(fields(body)[1]));
            assert(Node::Text(fields(body)[1]).well_formed());
        }
    }
}

/// The items of a run of lines are well formed.
proof fn lemma_block_well_formed(lines: Seq<Seq<char>>, start: int, end: int)
    requires
        0 <= start <= end <= lines.len(),
        newline_free(lines),
    ensures
        block_nodes(lines, start, end) matches Ok(items) ==> all_well_formed(items),
    decreases end - start, 1int,
{
    if start < end {
        let stop = block_end(lines, start + 1, end, leading_tabs(lines[start]));
        lemma_block_end(lines, start + 1, end, leading_tabs(lines[start]));
        if let Ok(item) = entry_node(lines, start, stop) {
            lemma_entry_well_formed(lines, start, stop);
            if let Ok(rest) = block_nodes(lines, stop, end) {
                lemma_block_well_formed(lines, stop, end);
                let items = seq![item] + rest;
                assert forall|i: int| 0 <= i < items.len() implies (
                #[trigger] items[i]).well_formed() by {
                    if i > 0 {
                        assert(items[i] == rest[i - 1]);
                    }
                }
            }
        }
    }
}

/// Whatever a document or a fragment parses to is well formed: no key is
/// empty, no key and no string holds a tab or a newline, and a key's value
/// is a string or a list.
pub proof fn lemma_parsed_well_formed(document: Seq<char>)
    ensures
        document_nodes(document) matches Ok(items) ==> all_well_formed(items),
        fragment_pair(document) matches Ok(pair) ==> pair is Pair && pair.well_formed(),
{
    let lines = split_lines(document);
    lemma_lines_hold_no_newline(document);
    lemma_block_well_formed(lines, 0, lines.len() as int);
    if lines.len() > 0 {
        let depth = leading_tabs(lines[0]);
        lemma_block_end(lines, 1, lines.len() as int, depth);
        lemma_entry_well_formed(lines, 0, block_end(lines, 1, lines.len() as int, depth));
    }
}

/// A line whose fields are exactly a key and a value is that pair, wherever
/// tabs stand around the two: before the key, between them, after the value.
/// That holds of the line as a document and as a fragment read as one pair.
pub proof fn lemma_two_fields_are_a_pair(line: Seq<char>)
    requires
        !line.contains('\n'),
        fields(line).len() == 2,
    ensures
        fragment_pair(line) == Ok::<Node, ParseError>(
            Node::Pair(fields(line)[0], Box::new(Node::Text(fields(line)[1]))),
        ),
        document_nodes(line) == Ok::<Seq<Node>, ParseError>(
            seq![Node::Pair(fields(line)[0], Box::new(Node::Text(fields(line)[1])))],
        ),
{
    let depth = leading_tabs(line) as int;
    let body = line.skip(depth);
    lemma_one_line(line);
    let lines = seq![line];
    lemma_single_entry(lines);
    lemma_leading_tabs(line);
    lemma_fields_skip_tabs(line);
    if depth == line.len() {
        assert(fields(body) == Seq::<Seq<char>>::empty());
    }
    assert(!only_tabs(line));
    if !body.contains('\t') {
        lemma_fields_of_field(body);
    }
    assert(block_end(lines, 1, 1, depth as nat) == 1);
}

} // verus!
