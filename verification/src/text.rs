use vstd::prelude::*;

verus! {

/// The index of the first `c` in `s`, or the length of `s` where it holds none.
pub open spec fn first_index_of(s: Seq<char>, c: char) -> int
    decreases s.len(),
{
    if s.len() == 0 || s[0] == c {
        0
    } else {
        1 + first_index_of(s.skip(1), c)
    }
}

/// The lines of `s`: the text between newlines. A newline ends a line, so
/// text that ends in one has no empty last line, and empty text has no line.
/// A carriage return is part of its line.
pub open spec fn split_lines(s: Seq<char>) -> Seq<Seq<char>>
    decreases s.len(),
    via split_lines_terminates
{
    if s.len() == 0 {
        Seq::empty()
    } else {
        let k = first_index_of(s, '\n');
        if k < s.len() {
            seq![s.take(k)] + split_lines(s.skip(k + 1))
        } else {
            seq![s]
        }
    }
}

/// The number of tabs that `s` begins with.
pub open spec fn leading_tabs(s: Seq<char>) -> nat
    decreases s.len(),
{
    if s.len() > 0 && s[0] == '\t' {
        1 + leading_tabs(s.skip(1))
    } else {
        0
    }
}

/// The fields of `s`: its maximal runs of characters other than a tab, in
/// order. A run of several tabs separates as one tab does, and tabs at either
/// end bound no field.
pub open spec fn fields(s: Seq<char>) -> Seq<Seq<char>>
    decreases s.len(),
    via fields_terminates
{
    if s.len() == 0 {
        Seq::empty()
    } else if s[0] == '\t' {
        fields(s.skip(1))
    } else {
        let k = first_index_of(s, '\t');
        seq![s.take(k)] + fields(s.skip(k))
    }
}

/// Whether `s` is text that can stand as a field: not empty, and free of
/// tabs and newlines.
pub open spec fn is_field(s: Seq<char>) -> bool {
    s.len() > 0 && !s.contains('\t') && !s.contains('\n')
}

/// The texts of a sequence of string slices.
pub open spec fn texts(pieces: Seq<&str>) -> Seq<Seq<char>> {
    pieces.map_values(|piece: &str| piece@)
}

/// `first_index_of` is the one index at which `c` stands with no `c` before
/// it, or the length where there is no `c`.
pub proof fn lemma_first_index_of(s: Seq<char>, c: char, k: int)
    requires
        0 <= k <= s.len(),
        forall|j: int| 0 <= j < k ==> s[j] != c,
        k == s.len() || s[k] == c,
    ensures
        first_index_of(s, c) == k,
    decreases k,
{
    if k > 0 {
        lemma_first_index_of(s.skip(1), c, k - 1);
    }
}

/// What `first_index_of` returns lies within `s`, no `c` stands before it, and
/// `c` stands at it unless it is the length.
pub proof fn lemma_first_index_of_bounds(s: Seq<char>, c: char)
    ensures
        0 <= first_index_of(s, c) <= s.len(),
        forall|j: int| 0 <= j < first_index_of(s, c) ==> s[j] != c,
        first_index_of(s, c) < s.len() ==> s[first_index_of(s, c)] == c,
    decreases s.len(),
{
    if s.len() == 0 || s[0] == c {
    } else {
        let t = s.skip(1);
        lemma_first_index_of_bounds(t, c);
        assert forall|j: int| 0 <= j < first_index_of(s, c) implies s[j] != c by {
            if j > 0 {
                assert(s[j] == t[j - 1]);
            }
        }
    }
}

/// `s` begins with `leading_tabs(s)` tabs, and what follows them, if
/// anything, is no tab.
pub proof fn lemma_leading_tabs(s: Seq<char>)
    ensures
        leading_tabs(s) <= s.len(),
        forall|j: int| 0 <= j < leading_tabs(s) ==> s[j] == '\t',
        leading_tabs(s) < s.len() ==> s[leading_tabs(s) as int] != '\t',
    decreases s.len(),
{
    if s.len() > 0 && s[0] == '\t' {
        let t = s.skip(1);
        lemma_leading_tabs(t);
        assert forall|j: int| 0 <= j < leading_tabs(s) implies s[j] == '\t' by {
            if j > 0 {
                assert(s[j] == t[j - 1]);
            }
        }
        assert(leading_tabs(s) < s.len() ==> s[leading_tabs(s) as int] == t[leading_tabs(t) as int]);
    }
}

/// `leading_tabs` is the one count of tabs at the front of `s` after which
/// no tab follows.
pub proof fn lemma_leading_tabs_is(s: Seq<char>, count: int)
    requires
        0 <= count <= s.len(),
        forall|j: int| 0 <= j < count ==> s[j] == '\t',
        count < s.len() ==> s[count] != '\t',
    ensures
        leading_tabs(s) == count,
    decreases count,
{
    if count > 0 {
        lemma_leading_tabs_is(s.skip(1), count - 1);
    }
}

#[via_fn]
proof fn split_lines_terminates(s: Seq<char>) {
    lemma_first_index_of_bounds(s, '\n');
}

#[via_fn]
proof fn fields_terminates(s: Seq<char>) {
    lemma_first_index_of_bounds(s, '\t');
}

/// Text that begins with something other than a tab has a first field: what
/// stands before its first tab. Its other fields are those of the rest.
pub proof fn lemma_first_field(s: Seq<char>)
    requires
        s.len() > 0,
        s[0] != '\t',
    ensures
        fields(s).len() > 0,
        fields(s)[0] == s.take(first_index_of(s, '\t')),
        fields(s).skip(1) == fields(s.skip(first_index_of(s, '\t'))),
{
    let k = first_index_of(s, '\t');
    assert((seq![s.take(k)] + fields(s.skip(k))).skip(1) == fields(s.skip(k)));
}

/// Tabs at the front of a text bound no field.
pub proof fn lemma_fields_skip_tabs(s: Seq<char>)
    ensures
        fields(s) == fields(s.skip(leading_tabs(s) as int)),
    decreases s.len(),
{
    if s.len() > 0 && s[0] == '\t' {
        let t = s.skip(1);
        lemma_fields_skip_tabs(t);
        lemma_leading_tabs(t);
        assert(t.skip(leading_tabs(t) as int) == s.skip(leading_tabs(s) as int));
    } else {
        assert(s.skip(0) == s);
    }
}

/// No line holds a newline.
pub proof fn lemma_lines_hold_no_newline(s: Seq<char>)
    ensures
        forall|i: int|
            0 <= i < split_lines(s).len() ==> !(#[trigger] split_lines(s)[i]).contains('\n'),
    decreases s.len(),
{
    if s.len() > 0 {
        let k = first_index_of(s, '\n');
        lemma_first_index_of_bounds(s, '\n');
        if k < s.len() {
            let head = s.take(k);
            let rest = split_lines(s.skip(k + 1));
            lemma_lines_hold_no_newline(s.skip(k + 1));
            assert(!head.contains('\n'));
            assert forall|i: int| 0 <= i < split_lines(s).len() implies !(
            #[trigger] split_lines(s)[i]).contains('\n') by {
                if i > 0 {
                    assert(split_lines(s)[i] == rest[i - 1]);
                }
            }
        } else {
            assert(!s.contains('\n'));
        }
    }
}

/// Every field of a text is not empty and holds no tab; where the text holds
/// no newline, nor does a field of it.
pub proof fn lemma_fields_are_fields(s: Seq<char>)
    ensures
        forall|i: int|
            0 <= i < fields(s).len() ==> (#[trigger] fields(s)[i]).len() > 0 && !fields(
                s,
            )[i].contains('\t'),
        !s.contains('\n') ==> forall|i: int|
            0 <= i < fields(s).len() ==> !(#[trigger] fields(s)[i]).contains('\n'),
    decreases s.len(),
{
    if s.len() == 0 {
    } else if s[0] == '\t' {
        let t = s.skip(1);
        lemma_fields_are_fields(t);
        assert(fields(s) == fields(t));
        assert forall|i: int| 0 <= i < fields(s).len() implies (#[trigger] fields(s)[i]).len() > 0
            && !fields(s)[i].contains('\t') by {
            assert(fields(s)[i] == fields(t)[i]);
        }
        if !s.contains('\n') {
            assert forall|j: int| 0 <= j < t.len() implies t[j] != '\n' by {
                assert(s.contains(s[j + 1]));
            }
            assert(!t.contains('\n'));
            assert forall|i: int| 0 <= i < fields(s).len() implies !(#[trigger] fields(
                s,
            )[i]).contains('\n') by {
                assert(fields(s)[i] == fields(t)[i]);
            }
        }
    } else {
        let k = first_index_of(s, '\t');
        lemma_first_index_of_bounds(s, '\t');
        let head = s.take(k);
        let t = s.skip(k);
        lemma_fields_are_fields(t);
        assert(!head.contains('\t'));
        assert(head.len() > 0);
        assert(fields(s)[0] == head);
        assert forall|i: int| 0 <= i < fields(s).len() implies (#[trigger] fields(s)[i]).len() > 0
            && !fields(s)[i].contains('\t') by {
            if i > 0 {
                assert(fields(s)[i] == fields(t)[i - 1]);
            }
        }
        if !s.contains('\n') {
            assert forall|j: int| 0 <= j < t.len() implies t[j] != '\n' by {
                assert(s.contains(s[j + k]));
            }
            assert(!t.contains('\n'));
            assert forall|j: int| 0 <= j < head.len() implies head[j] != '\n' by {
                assert(s.contains(s[j]));
            }
            assert(!head.contains('\n'));
            assert forall|i: int| 0 <= i < fields(s).len() implies !(#[trigger] fields(
                s,
            )[i]).contains('\n') by {
                if i > 0 {
                    assert(fields(s)[i] == fields(t)[i - 1]);
                }
            }
        }
    }
}

/// A character that a text does not hold is in none of its lines.
pub proof fn lemma_lines_without(s: Seq<char>, c: char)
    requires
        !s.contains(c),
    ensures
        forall|i: int| 0 <= i < split_lines(s).len() ==> !(#[trigger] split_lines(s)[i]).contains(c),
    decreases s.len(),
{
    if s.len() > 0 {
        let k = first_index_of(s, '\n');
        lemma_first_index_of_bounds(s, '\n');
        if k < s.len() {
            let head = s.take(k);
            let tail = s.skip(k + 1);
            assert forall|j: int| 0 <= j < head.len() implies head[j] != c by {
                assert(s.contains(s[j]));
            }
            assert forall|j: int| 0 <= j < tail.len() implies tail[j] != c by {
                assert(s.contains(s[j + k + 1]));
            }
            assert(!head.contains(c));
            assert(!tail.contains(c));
            lemma_lines_without(tail, c);
            assert forall|i: int| 0 <= i < split_lines(s).len() implies !(
            #[trigger] split_lines(s)[i]).contains(c) by {
                if i > 0 {
                    assert(split_lines(s)[i] == split_lines(tail)[i - 1]);
                }
            }
        }
    }
}

} // verus!
