use crate::laws::lemma_empty_document;
use crate::laws::lemma_parsed_well_formed;
use crate::laws::lemma_plain_text_document;
use crate::laws::lemma_two_fields_are_a_pair;
use crate::scan::first_field;
use crate::scan::lines_of;
use crate::scan::split_once;
use crate::scan::strip_tabs;
use crate::scan::TAB;
use crate::text::fields;
use crate::text::leading_tabs;
use crate::text::lemma_fields_skip_tabs;
use crate::text::lemma_first_field;
use crate::text::lemma_first_index_of_bounds;
use crate::text::lemma_leading_tabs;
use crate::text::split_lines;
use crate::text::texts;
use crate::tree::all_well_formed;
use crate::tree::lemma_array_node;
use crate::tree::nodes;
use crate::tree::Node;
use crate::tree::TArray;
use crate::tree::TItem;
use crate::tree::TKeyValuePair;
use vstd::prelude::*;

verus! {

/// Why a document is refused. `line` counts the document's lines from zero.
#[derive(Debug, PartialEq, Eq, Clone, Copy)]
pub enum ParseError {
    /// The line has no text to serve as a key: it holds tabs only, or it is
    /// empty and indented lines follow it.
    MissingKey { line: usize },
    /// The line has a key and a tab, but no value after it and no nested
    /// lines below it.
    MissingValue { line: usize },
    /// The line is the first below a key and is indented more than one tab
    /// deeper than the key; or, in a fragment read as one pair, the line
    /// follows the pair without being nested below its key. A line with no
    /// key above it is never refused for its indentation.
    InconsistentIndentation { line: usize },
}

/// Whether `line` holds tabs and nothing else.
pub open spec fn only_tabs(line: Seq<char>) -> bool {
    line.len() > 0 && leading_tabs(line) == line.len()
}

/// Whether `line`, as the first line below a key with `depth` leading tabs,
/// is indented more than one tab deeper than the key.
pub open spec fn skips_level(line: Seq<char>, depth: nat) -> bool {
    !only_tabs(line) && leading_tabs(line) > depth + 1
}

/// Where the run of lines deeper than `depth` that begins at `from` ends: the
/// first index from `from` on, below `end`, of a line with at most `depth`
/// leading tabs, or `end` where there is none.
pub open spec fn block_end(lines: Seq<Seq<char>>, from: int, end: int, depth: nat) -> int
    decreases end - from,
{
    if from < end && leading_tabs(lines[from]) > depth {
        block_end(lines, from + 1, end, depth)
    } else {
        from
    }
}

/// The item that line `at` stands for, where the lines after it and before
/// `stop` are those nested below it.
///
/// The line is read at its own level: its text is what follows its leading
/// tabs. A line of tabs alone has no key. Otherwise:
/// - with lines nested below it, the line is a key (the first field of its
///   text) whose value is the list of those lines' items, whatever else the
///   line holds; the first of those lines is one tab deeper than the key;
/// - with no tab in its text, it is that text;
/// - else it is a key and a value, its first and second fields.
pub open spec fn entry_node(lines: Seq<Seq<char>>, at: int, stop: int) -> Result<Node, ParseError>
    decreases stop - at, 0int,
{
    let line = lines[at];
    let body = line.skip(leading_tabs(line) as int);
    if only_tabs(line) {
        Err(ParseError::MissingKey { line: at as usize })
    } else if at + 1 < stop {
        if body.len() == 0 {
            Err(ParseError::MissingKey { line: at as usize })
        } else if skips_level(lines[at + 1], leading_tabs(line)) {
            Err(ParseError::InconsistentIndentation { line: (at + 1) as usize })
        } else {
            match block_nodes(lines, at + 1, stop) {
                Ok(items) => Ok(Node::Pair(fields(body)[0], Box::new(Node::List(items)))),
                Err(e) => Err(e),
            }
        }
    } else if !body.contains('\t') {
        Ok(Node::Text(body))
    } else if fields(body).len() < 2 {
        Err(ParseError::MissingValue { line: at as usize })
    } else {
        Ok(Node::Pair(fields(body)[0], Box::new(Node::Text(fields(body)[1]))))
    }
}

/// The items of the lines from `start` up to `end`, in document order: a
/// line, together with the deeper lines that follow it, is one item, and the
/// next item begins with the first line that is not deeper. The first line
/// that is refused decides the error.
pub open spec fn block_nodes(lines: Seq<Seq<char>>, start: int, end: int) -> Result<
    Seq<Node>,
    ParseError,
>
    decreases end - start, 1int,
    via block_nodes_terminates
{
    if start >= end {
        Ok(Seq::empty())
    } else {
        let stop = block_end(lines, start + 1, end, leading_tabs(lines[start]));
        match entry_node(lines, start, stop) {
            Err(e) => Err(e),
            Ok(item) => match block_nodes(lines, stop, end) {
                Err(e) => Err(e),
                Ok(items) => Ok(seq![item] + items),
            },
        }
    }
}

#[via_fn]
proof fn block_nodes_terminates(lines: Seq<Seq<char>>, start: int, end: int) {
    if start < end {
        lemma_block_end(lines, start + 1, end, leading_tabs(lines[start]));
    }
}

/// `block_end` lies between `from` and `end`, every line before it is deeper
/// than `depth`, and the line at it, if there is one, is not.
pub proof fn lemma_block_end(lines: Seq<Seq<char>>, from: int, end: int, depth: nat)
    requires
        from <= end,
    ensures
        from <= block_end(lines, from, end, depth) <= end,
        forall|i: int|
            from <= i < block_end(lines, from, end, depth) ==> leading_tabs(#[trigger] lines[i])
                > depth,
        block_end(lines, from, end, depth) < end ==> leading_tabs(
            lines[block_end(lines, from, end, depth)],
        ) <= depth,
    decreases end - from,
{
    if from < end && leading_tabs(lines[from]) > depth {
        lemma_block_end(lines, from + 1, end, depth);
    }
}

/// The top-level items of a whole document.
pub open spec fn document_nodes(document: Seq<char>) -> Result<Seq<Node>, ParseError> {
    let lines = split_lines(document);
    block_nodes(lines, 0, lines.len() as int)
}

/// The key and value that a fragment stands for: its first line with the
/// lines nested below it. A fragment without a line has no key; one whose
/// first line is a bare string has no value; and a line after the first that
/// is not nested below it does not belong to the pair.
pub open spec fn fragment_pair(fragment: Seq<char>) -> Result<Node, ParseError> {
    let lines = split_lines(fragment);
    if lines.len() == 0 {
        Err(ParseError::MissingKey { line: 0 })
    } else {
        let stop = block_end(lines, 1, lines.len() as int, leading_tabs(lines[0]));
        match entry_node(lines, 0, stop) {
            Err(e) => Err(e),
            Ok(Node::Pair(key, value)) => if stop < lines.len() {
                Err(ParseError::InconsistentIndentation { line: stop as usize })
            } else {
                Ok(Node::Pair(key, value))
            },
            Ok(_) => Err(ParseError::MissingValue { line: 0 }),
        }
    }
}

/// What a parse of a document says: the items' values, or the error.
pub open spec fn array_outcome<'a>(r: Result<TArray<'a>, ParseError>) -> Result<
    Seq<Node>,
    ParseError,
> {
    match r {
        Ok(array) => Ok(array@),
        Err(e) => Err(e),
    }
}

/// What a parse of a key and value says: the pair's value, or the error.
pub open spec fn pair_outcome<'a>(r: Result<TKeyValuePair<'a>, ParseError>) -> Result<
    Node,
    ParseError,
> {
    match r {
        Ok(pair) => Ok(pair@),
        Err(e) => Err(e),
    }
}

/// What an item that was parsed, or the error, says.
spec fn item_outcome<'a>(r: Result<TItem<'a>, ParseError>) -> Result<Node, ParseError> {
    match r {
        Ok(item) => Ok(item@),
        Err(e) => Err(e),
    }
}

/// What items that were parsed, or the error, say.
spec fn items_outcome<'a>(r: Result<Vec<TItem<'a>>, ParseError>) -> Result<Seq<Node>, ParseError> {
    match r {
        Ok(items) => Ok(nodes(items@)),
        Err(e) => Err(e),
    }
}

/// `r` with `prefix` before its items.
spec fn prepend(prefix: Seq<Node>, r: Result<Seq<Node>, ParseError>) -> Result<
    Seq<Node>,
    ParseError,
> {
    match r {
        Ok(items) => Ok(prefix + items),
        Err(e) => Err(e),
    }
}

/// The lines of a text, each with its leading tabs counted and taken off.
struct Lines<'a> {
    texts: Ghost<Seq<Seq<char>>>,
    depths: Vec<usize>,
    bodies: Vec<&'a str>,
}

impl<'a> Lines<'a> {
    /// Whether the counts and the bodies are those of the lines.
    spec fn wf(&self) -> bool {
        &&& self.depths.len() == self.texts@.len()
        &&& self.bodies.len() == self.texts@.len()
        &&& forall|i: int|
            0 <= i < self.texts@.len() ==> {
                &&& self.depths[i] == leading_tabs(#[trigger] self.texts@[i])
                &&& self.bodies[i]@ == self.texts@[i].skip(self.depths[i] as int)
            }
    }

    /// Splits `text` into lines and takes the leading tabs off each.
    fn of(text: &'a str) -> (r: Lines<'a>)
        ensures
            r.wf(),
            r.texts@ == split_lines(text@),
    {
        let lines = lines_of(text);
        let ghost all = texts(lines@);
        let mut depths: Vec<usize> = Vec::new();
        let mut bodies: Vec<&'a str> = Vec::new();
        let mut i: usize = 0;
        while i < lines.len()
            invariant
                all == texts(lines@),
                i <= lines.len(),
                depths.len() == i,
                bodies.len() == i,
                forall|j: int|
                    0 <= j < i ==> {
                        &&& depths[j] == leading_tabs(#[trigger] all[j])
                        &&& bodies[j]@ == all[j].skip(depths[j] as int)
                    },
            decreases lines.len() - i,
        {
            let (depth, body) = strip_tabs(lines[i]);
            proof {
                assert(all[i as int] == lines[i as int]@);
            }
            depths.push(depth);
            bodies.push(body);
            i += 1;
        }
        Lines { texts: Ghost(all), depths, bodies }
    }

    /// Finds where the run of lines deeper than `depth` that begins at
    /// `from` ends.
    fn block_end(&self, from: usize, end: usize, depth: usize) -> (stop: usize)
        requires
            self.wf(),
            from <= end <= self.texts@.len(),
        ensures
            stop == block_end(self.texts@, from as int, end as int, depth as nat),
            from <= stop <= end,
    {
        let mut stop: usize = from;
        while stop < end && self.depths[stop] > depth
            invariant
                self.wf(),
                from <= stop <= end <= self.texts@.len(),
                block_end(self.texts@, from as int, end as int, depth as nat) == block_end(
                    self.texts@,
                    stop as int,
                    end as int,
                    depth as nat,
                ),
            decreases end - stop,
        {
            stop += 1;
        }
        stop
    }

    /// Parses line `at`, with the lines up to `stop` nested below it.
    fn parse_entry(&self, at: usize, stop: usize) -> (r: Result<TItem<'a>, ParseError>)
        requires
            self.wf(),
            at < stop <= self.texts@.len(),
        ensures
            item_outcome(r) == entry_node(self.texts@, at as int, stop as int),
        decreases stop - at, 0int,
    {
        let ghost line = self.texts@[at as int];
        let depth: usize = self.depths[at];
        let body: &'a str = self.bodies[at];
        proof {
            lemma_leading_tabs(line);
        }
        if depth > 0 && body.is_empty() {
            return Err(ParseError::MissingKey { line: at });
        }
        if at + 1 < stop {
            if body.is_empty() {
                return Err(ParseError::MissingKey { line: at });
            }
            let below: usize = self.depths[at + 1];
            proof {
                lemma_leading_tabs(self.texts@[at + 1]);
            }
            if below >= 2 && below - 2 >= depth && !self.bodies[at + 1].is_empty() {
                return Err(ParseError::InconsistentIndentation { line: at + 1 });
            }
            match self.parse_block(at + 1, stop) {
                Err(e) => Err(e),
                Ok(items) => {
                    let key = first_field(body);
                    proof {
                        lemma_array_node(TArray(items));
                    }
                    Ok(
                        TItem::KeyValuePair(
                            TKeyValuePair { key, value: Box::new(TItem::Array(TArray(items))) },
                        ),
                    )
                },
            }
        } else {
            proof {
                lemma_first_index_of_bounds(body@, '\t');
            }
            match split_once(body, TAB) {
                None => {
                    assert(!body@.contains('\t'));
                    Ok(TItem::String(body))
                },
                Some((key, tail)) => {
                    let (_, rest) = strip_tabs(tail);
                    proof {
                        assert(body@.contains('\t'));
                        lemma_first_field(body@);
                        assert(body@.skip(key@.len() as int).skip(1) == tail@);
                        lemma_fields_skip_tabs(tail@);
                        lemma_leading_tabs(tail@);
                    }
                    if rest.is_empty() {
                        assert(fields(body@).len() == 1);
                        return Err(ParseError::MissingValue { line: at });
                    }
                    let value = first_field(rest);
                    proof {
                        assert(fields(body@)[1] == fields(body@).skip(1)[0]);
                        assert(TItem::String(value).node() == Node::Text(value@));
                    }
                    Ok(
                        TItem::KeyValuePair(
                            TKeyValuePair { key, value: Box::new(TItem::String(value)) },
                        ),
                    )
                },
            }
        }
    }

    /// Parses the lines from `start` up to `end`.
    fn parse_block(&self, start: usize, end: usize) -> (r: Result<Vec<TItem<'a>>, ParseError>)
        requires
            self.wf(),
            start <= end <= self.texts@.len(),
        ensures
            items_outcome(r) == block_nodes(self.texts@, start as int, end as int),
        decreases end - start, 1int,
    {
        let ghost all = self.texts@;
        let mut items: Vec<TItem<'a>> = Vec::new();
        let mut pos: usize = start;
        while pos < end
            invariant
                self.wf(),
                all == self.texts@,
                start <= pos <= end <= all.len(),
                block_nodes(all, start as int, end as int) == prepend(
                    nodes(items@),
                    block_nodes(all, pos as int, end as int),
                ),
            decreases end - pos,
        {
            let stop = self.block_end(pos + 1, end, self.depths[pos]);
            match self.parse_entry(pos, stop) {
                Err(e) => {
                    return Err(e);
                },
                Ok(item) => {
                    proof {
                        assert(nodes(items@.push(item)) == nodes(items@).push(item@));
                        if let Ok(tail) = block_nodes(all, stop as int, end as int) {
                            assert(nodes(items@) + (seq![item@] + tail) == nodes(items@).push(
                                item@,
                            ) + tail);
                        }
                    }
                    items.push(item);
                    pos = stop;
                },
            }
        }
        proof {
            assert(nodes(items@) + Seq::<Node>::empty() == nodes(items@));
        }
        Ok(items)
    }
}

/// Parses a fragment as a sequence of items.
///
/// A line with no key above it is read at its own level, whatever its
/// indentation; the lines that follow it and are deeper are nested below it.
pub fn parse_array<'a>(fragment: &'a str) -> (r: Result<TArray<'a>, ParseError>)
    ensures
        array_outcome(r) == document_nodes(fragment@),
        r matches Ok(array) ==> all_well_formed(array@),
{
    proof {
        lemma_parsed_well_formed(fragment@);
    }
    let lines = Lines::of(fragment);
    match lines.parse_block(0, lines.depths.len()) {
        Ok(items) => Ok(TArray(items)),
        Err(e) => Err(e),
    }
}

/// Parses a whole document into its top-level items.
///
/// The empty document has no items. A document without a tab and without a
/// newline, unless it is empty, is one string item: the document itself. A
/// line with no key above it is read at its own level, whatever its
/// indentation, so a document of one line with a key and a value is that
/// pair also where tabs come first.
pub fn parse<'a>(document: &'a str) -> (r: Result<TArray<'a>, ParseError>)
    ensures
        array_outcome(r) == document_nodes(document@),
        r matches Ok(array) ==> all_well_formed(array@),
        document@.len() == 0 ==> array_outcome(r) == Ok::<Seq<Node>, ParseError>(Seq::empty()),
        document@.len() > 0 && !document@.contains('\t') && !document@.contains('\n')
            ==> array_outcome(r) == Ok::<Seq<Node>, ParseError>(seq![Node::Text(document@)]),
        !document@.contains('\n') && fields(document@).len() == 2 ==> array_outcome(r) == Ok::<
            Seq<Node>,
            ParseError,
        >(seq![Node::Pair(fields(document@)[0], Box::new(Node::Text(fields(document@)[1])))]),
{
    proof {
        if document@.len() == 0 {
            lemma_empty_document();
        } else if !document@.contains('\n') {
            if !document@.contains('\t') {
                lemma_plain_text_document(document@);
            }
            if fields(document@).len() == 2 {
                lemma_two_fields_are_a_pair(document@);
            }
        }
    }
    parse_array(document)
}

/// Parses a fragment as one key with its value: the first line, read at its
/// own level, and the lines nested below it.
///
/// A fragment of one line whose fields are a key and a value is that pair,
/// wherever tabs stand around the two.
pub fn parse_kvp<'a>(fragment: &'a str) -> (r: Result<TKeyValuePair<'a>, ParseError>)
    ensures
        pair_outcome(r) == fragment_pair(fragment@),
        r matches Ok(pair) ==> pair@.well_formed(),
        !fragment@.contains('\n') && fields(fragment@).len() == 2 ==> pair_outcome(r) == Ok::<
            Node,
            ParseError,
        >(Node::Pair(fields(fragment@)[0], Box::new(Node::Text(fields(fragment@)[1])))),
{
    proof {
        lemma_parsed_well_formed(fragment@);
        if !fragment@.contains('\n') && fields(fragment@).len() == 2 {
            lemma_two_fields_are_a_pair(fragment@);
        }
    }
    let lines = Lines::of(fragment);
    let count: usize = lines.depths.len();
    if count == 0 {
        return Err(ParseError::MissingKey { line: 0 });
    }
    let stop = lines.block_end(1, count, lines.depths[0]);
    match lines.parse_entry(0, stop) {
        Err(e) => Err(e),
        Ok(TItem::KeyValuePair(pair)) => {
            if stop < count {
                Err(ParseError::InconsistentIndentation { line: stop })
            } else {
                Ok(pair)
            }
        },
        Ok(_) => Err(ParseError::MissingValue { line: 0 }),
    }
}

} // verus!
