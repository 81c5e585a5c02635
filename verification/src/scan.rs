use crate::text::fields;
use crate::text::first_index_of;
use crate::text::leading_tabs;
use crate::text::lemma_first_index_of;
use crate::text::lemma_first_field;
use crate::text::lemma_leading_tabs_is;
use crate::text::split_lines;
use crate::text::texts;
use vstd::prelude::*;
use vstd::string::StrSliceExecFns;
use vstd::string::StringSliceAdditionalSpecFns;
use vstd::utf8::decode_first_scalar;
use vstd::utf8::decode_utf8;
use vstd::utf8::decode_utf8_encode_utf8;
use vstd::utf8::encode_utf8_decode_utf8;
use vstd::utf8::encode_utf8_first_scalar;
use vstd::utf8::encode_utf8_valid_utf8;
use vstd::utf8::is_char_boundary;
use vstd::utf8::is_char_boundary_iff_not_is_continuation_byte;
use vstd::utf8::is_char_boundary_start_end_of_seq;
use vstd::utf8::decode_utf8_split;
use vstd::utf8::valid_utf8_split;
use vstd::utf8::length_of_first_scalar;
use vstd::utf8::pop_first_scalar;
use vstd::utf8::valid_utf8;

verus! {

/// The byte that stands for a newline.
pub const NEWLINE: u8 = 10;

/// The byte that stands for a tab.
pub const TAB: u8 = 9;

/// A text is what its bytes decode to, and its bytes are valid UTF-8.
proof fn lemma_text_of_bytes(text: &str)
    ensures
        valid_utf8(text.spec_bytes()),
        decode_utf8(text.spec_bytes()) == text@,
{
    encode_utf8_valid_utf8(text@);
    encode_utf8_decode_utf8(text@);
}

/// In valid UTF-8 a first byte below 128 stands for one character by
/// itself, and a character below 128 is never written in another way.
proof fn lemma_first_char(bytes: Seq<u8>, x: u8)
    requires
        valid_utf8(bytes),
        bytes.len() > 0,
        x < 0x80,
    ensures
        valid_utf8(pop_first_scalar(bytes)),
        1 <= length_of_first_scalar(bytes) <= bytes.len(),
        decode_utf8(bytes).len() > 0,
        decode_utf8(bytes).skip(1) == decode_utf8(pop_first_scalar(bytes)),
        decode_utf8(bytes)[0] == x as char <==> bytes[0] == x,
        bytes[0] < 0x80 ==> length_of_first_scalar(bytes) == 1,
{
    let b0 = bytes[0];
    let chars = decode_utf8(bytes);
    assert(b0 <= 0x7f ==> (b0 & 0x7f) as u32 == b0 as u32) by (bit_vector);
    decode_utf8_encode_utf8(bytes);
    encode_utf8_first_scalar(chars);
    assert(decode_first_scalar(bytes) == chars[0] as u32);
}

/// Valid UTF-8 that holds no byte `x` below 128 decodes to text without the
/// character `x`.
proof fn lemma_no_byte_no_char(bytes: Seq<u8>, x: u8)
    requires
        valid_utf8(bytes),
        x < 0x80,
        forall|j: int| 0 <= j < bytes.len() ==> bytes[j] != x,
    ensures
        !decode_utf8(bytes).contains(x as char),
    decreases bytes.len(),
{
    let chars = decode_utf8(bytes);
    if bytes.len() > 0 {
        lemma_first_char(bytes, x);
        let rest = pop_first_scalar(bytes);
        lemma_no_byte_no_char(rest, x);
        assert forall|i: int| 0 <= i < chars.len() implies chars[i] != x as char by {
            if i > 0 {
                assert(chars[i] == chars.skip(1)[i - 1]);
                assert(decode_utf8(rest).contains(chars[i]));
            }
        }
    }
}

/// Where valid UTF-8 begins with `count` bytes `x` below 128, the text
/// begins with as many characters `x`, and the rest of the text is what the
/// rest of the bytes decodes to.
proof fn lemma_leading_run(bytes: Seq<u8>, x: u8, count: int)
    requires
        valid_utf8(bytes),
        x < 0x80,
        0 <= count <= bytes.len(),
        forall|j: int| 0 <= j < count ==> bytes[j] == x,
    ensures
        is_char_boundary(bytes, count),
        count <= decode_utf8(bytes).len(),
        forall|j: int| 0 <= j < count ==> decode_utf8(bytes)[j] == x as char,
        decode_utf8(bytes).skip(count) == decode_utf8(bytes.subrange(count, bytes.len() as int)),
    decreases count,
{
    let chars = decode_utf8(bytes);
    if count == 0 {
        assert(bytes.subrange(0, bytes.len() as int) == bytes);
        assert(chars.skip(0) == chars);
    } else {
        lemma_first_char(bytes, x);
        let rest = pop_first_scalar(bytes);
        assert(rest == bytes.subrange(1, bytes.len() as int));
        lemma_leading_run(rest, x, count - 1);
        assert(rest.subrange(count - 1, rest.len() as int) == bytes.subrange(
            count,
            bytes.len() as int,
        ));
        assert(chars.skip(count) == chars.skip(1).skip(count - 1));
        assert forall|j: int| 0 <= j < count implies chars[j] == x as char by {
            if j > 0 {
                assert(chars[j] == chars.skip(1)[j - 1]);
            }
        }
    }
}

/// The first character boundary after the start is where the first
/// character's bytes end.
proof fn lemma_first_boundary(bytes: Seq<u8>, at: int)
    requires
        valid_utf8(bytes),
        0 < at <= bytes.len(),
        is_char_boundary(bytes, at),
        forall|j: int| 0 < j < at ==> !is_char_boundary(bytes, j),
    ensures
        at == length_of_first_scalar(bytes),
{
    lemma_first_char(bytes, 0);
    let first = length_of_first_scalar(bytes);
    let rest = pop_first_scalar(bytes);
    assert(is_char_boundary(rest, 0));
    assert(is_char_boundary(bytes, first));
    assert(is_char_boundary(rest, at - first));
}

/// Splits `text` at the byte index `at`, which is a character boundary.
fn cut<'a>(text: &'a str, at: usize) -> (r: (&'a str, &'a str))
    requires
        is_char_boundary(text.spec_bytes(), at as int),
        at <= text.spec_bytes().len(),
    ensures
        r.0.spec_bytes() == text.spec_bytes().subrange(0, at as int),
        r.1.spec_bytes() == text.spec_bytes().subrange(at as int, text.spec_bytes().len() as int),
        text@ == r.0@ + r.1@,
{
    let r = text.split_at(at);
    proof {
        lemma_text_of_bytes(text);
        lemma_text_of_bytes(r.0);
        lemma_text_of_bytes(r.1);
        decode_utf8_split(text.spec_bytes(), at as int);
    }
    r
}

/// Splits `text` at the first byte `sep`, which is below 128 and so stands
/// for the character `sep`, into what is before it and what is after it.
/// Gives `None` where `text` holds no such character.
pub fn split_once<'a>(text: &'a str, sep: u8) -> (r: Option<(&'a str, &'a str)>)
    requires
        sep < 0x80,
    ensures
        match r {
            None => first_index_of(text@, sep as char) == text@.len(),
            Some((head, tail)) => {
                &&& first_index_of(text@, sep as char) == head@.len()
                &&& head@.len() < text@.len()
                &&& head@ == text@.take(head@.len() as int)
                &&& tail@ == text@.skip(head@.len() as int + 1)
            },
        },
{
    let bytes = text.as_bytes();
    let mut i: usize = 0;
    while i < bytes.len() && bytes[i] != sep
        invariant
            i <= bytes.len(),
            forall|j: int| 0 <= j < i ==> bytes@[j] != sep,
        decreases bytes.len() - i,
    {
        i += 1;
    }
    proof {
        lemma_text_of_bytes(text);
    }
    if i == bytes.len() {
        proof {
            lemma_no_byte_no_char(bytes@, sep);
            lemma_first_index_of(text@, sep as char, text@.len() as int);
        }
        return None;
    }
    proof {
        is_char_boundary_iff_not_is_continuation_byte(bytes@, i as int);
    }
    let (head, rest) = cut(text, i);
    proof {
        lemma_text_of_bytes(head);
        lemma_text_of_bytes(rest);
        lemma_no_byte_no_char(head.spec_bytes(), sep);
        lemma_first_char(rest.spec_bytes(), sep);
        lemma_leading_run(rest.spec_bytes(), sep, 1);
    }
    let (_, tail) = cut(rest, 1);
    proof {
        lemma_text_of_bytes(tail);
        assert(tail@ == rest@.skip(1));
        assert(text@[head@.len() as int] == rest@[0]);
        assert forall|j: int| 0 <= j < head@.len() implies text@[j] != sep as char by {
            assert(head@.contains(text@[j]));
        }
        lemma_first_index_of(text@, sep as char, head@.len() as int);
        assert(text@.take(head@.len() as int) == head@);
        assert(text@.skip(head@.len() as int + 1) == rest@.skip(1));
    }
    Some((head, tail))
}

/// Takes the leading tabs off `text`, and counts them.
pub fn strip_tabs<'a>(text: &'a str) -> (r: (usize, &'a str))
    ensures
        r.0 == leading_tabs(text@),
        r.1@ == text@.skip(r.0 as int),
{
    let bytes = text.as_bytes();
    let mut i: usize = 0;
    while i < bytes.len() && bytes[i] == TAB
        invariant
            i <= bytes.len(),
            forall|j: int| 0 <= j < i ==> bytes@[j] == TAB,
        decreases bytes.len() - i,
    {
        i += 1;
    }
    proof {
        lemma_text_of_bytes(text);
        lemma_leading_run(bytes@, TAB, i as int);
    }
    let (_, rest) = cut(text, i);
    proof {
        lemma_text_of_bytes(rest);
        if i < bytes.len() {
            valid_utf8_split(bytes@, i as int);
            lemma_first_char(rest.spec_bytes(), TAB);
            assert(text@[i as int] == text@.skip(i as int)[0]);
        }
        lemma_leading_tabs_is(text@, i as int);
    }
    (i, rest)
}

/// Splits `text` into its first character and what follows it. Gives `None`
/// where `text` is empty.
pub fn split_first<'a>(text: &'a str) -> (r: Option<(char, &'a str)>)
    ensures
        match r {
            None => text@.len() == 0,
            Some((first, rest)) => text@.len() > 0 && first == text@[0] && rest@ == text@.skip(1),
        },
{
    if text.is_empty() {
        return None;
    }
    let first = text.get_char(0);
    let n: usize = text.as_bytes().len();
    proof {
        lemma_text_of_bytes(text);
        is_char_boundary_start_end_of_seq(text.spec_bytes());
        assert(n == 0 ==> decode_utf8(text.spec_bytes()).len() == 0);
    }
    let mut i: usize = 1;
    while i < n && !text.is_char_boundary(i)
        invariant
            valid_utf8(text.spec_bytes()),
            n == text.spec_bytes().len(),
            0 < i <= n,
            forall|j: int| 0 < j < i ==> !is_char_boundary(text.spec_bytes(), j),
        decreases n - i,
    {
        i += 1;
    }
    proof {
        lemma_first_boundary(text.spec_bytes(), i as int);
        lemma_first_char(text.spec_bytes(), 0);
    }
    let (_, rest) = cut(text, i);
    proof {
        lemma_text_of_bytes(rest);
    }
    Some((first, rest))
}

/// Splits `text` into its lines.
pub fn lines_of<'a>(text: &'a str) -> (lines: Vec<&'a str>)
    ensures
        texts(lines@) == split_lines(text@),
{
    let mut lines: Vec<&'a str> = Vec::new();
    let mut rest: &'a str = text;
    proof {
        assert(texts(lines@) + split_lines(rest@) == split_lines(text@));
    }
    loop
        invariant_except_break
            split_lines(text@) == texts(lines@) + split_lines(rest@),
        ensures
            texts(lines@) == split_lines(text@),
        decreases rest@.len(),
    {
        if rest.is_empty() {
            proof {
                assert(texts(lines@) + Seq::<Seq<char>>::empty() == texts(lines@));
            }
            break ;
        }
        match split_once(rest, NEWLINE) {
            None => {
                proof {
                    assert(texts(lines@.push(rest)) == texts(lines@) + seq![rest@]);
                }
                lines.push(rest);
                break ;
            },
            Some((line, tail)) => {
                proof {
                    assert(texts(lines@.push(line)) == texts(lines@).push(line@));
                    assert(texts(lines@).push(line@) + split_lines(tail@) == texts(lines@) + (
                    seq![line@] + split_lines(tail@)));
                }
                lines.push(line);
                rest = tail;
            },
        }
    }
    lines
}

/// The first field of `text`, which begins with something other than a tab.
pub fn first_field<'a>(text: &'a str) -> (field: &'a str)
    requires
        text@.len() > 0,
        text@[0] != '\t',
    ensures
        fields(text@).len() > 0,
        field@ == fields(text@)[0],
{
    proof {
        lemma_first_field(text@);
    }
    match split_once(text, TAB) {
        None => {
            proof {
                assert(text@.take(text@.len() as int) == text@);
            }
            text
        },
        Some((head, _)) => head,
    }
}

} // verus!
