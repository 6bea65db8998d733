use vstd::prelude::*;
use vstd::string::StringSliceAdditionalSpecFns;
use vstd::utf8::decode_utf8;
use vstd::utf8::encode_utf8;
use vstd::utf8::is_char_boundary;
use vstd::utf8::length_of_first_scalar;
use vstd::utf8::pop_first_scalar;
use vstd::utf8::valid_utf8;

verus! {

/// True when `needle` stands in `haystack` at byte offset `at`.
pub open spec fn occurs_at(haystack: Seq<u8>, at: int, needle: Seq<u8>) -> bool {
    &&& 0 <= at
    &&& at + needle.len() <= haystack.len()
    &&& haystack.subrange(at, at + needle.len()) == needle
}

/// True when `index` is a byte offset of `text` at which a character starts,
/// or the end of `text`.
pub open spec fn on_boundary(text: Seq<char>, index: int) -> bool {
    is_char_boundary(encode_utf8(text), index)
}

/// The part of `text` from the byte offset `from` on.
pub open spec fn text_from(text: Seq<char>, from: int) -> Seq<char> {
    decode_utf8(encode_utf8(text).subrange(from, encode_utf8(text).len() as int))
}

/// The part of `text` from the byte offset `from` on.
pub fn rest_of<'a>(text: &'a str, from: usize) -> (rest: &'a str)
    requires
        from <= text.spec_bytes().len(),
        on_boundary(text@, from as int),
    ensures
        rest@ == text_from(text@, from as int),
        rest.spec_bytes() == text.spec_bytes().subrange(
            from as int,
            text.spec_bytes().len() as int,
        ),
{
    let (_, rest) = text.split_at(from);
    proof {
        vstd::utf8::encode_utf8_decode_utf8(rest@);
    }
    rest
}

/// Tells whether `needle` stands in `haystack` at byte offset `at`.
pub fn bytes_occur_at(haystack: &[u8], at: usize, needle: &[u8]) -> (found: bool)
    ensures
        found == occurs_at(haystack@, at as int, needle@),
{
    if at > haystack.len() || needle.len() > haystack.len() - at {
        return false;
    }
    let mut i: usize = 0;
    while i < needle.len()
        invariant
            i <= needle.len(),
            at + needle.len() <= haystack.len(),
            forall|j: int| 0 <= j < i ==> haystack@[at + j] == needle@[j],
        decreases needle.len() - i,
    {
        if haystack[at + i] != needle[i] {
            assert(haystack@.subrange(at as int, at + needle.len())[i as int] != needle@[i as int]);
            return false;
        }
        i += 1;
    }
    assert(haystack@.subrange(at as int, at + needle.len()) =~= needle@);
    true
}

/// Tells whether two texts hold the same characters.
pub fn str_equal(left: &str, right: &str) -> (same: bool)
    ensures
        same == (left@ == right@),
{
    let left_bytes = left.as_bytes();
    let right_bytes = right.as_bytes();
    proof {
        vstd::utf8::encode_utf8_decode_utf8(left@);
        vstd::utf8::encode_utf8_decode_utf8(right@);
    }
    if left_bytes.len() != right_bytes.len() {
        return false;
    }
    let same = bytes_occur_at(left_bytes, 0, right_bytes);
    proof {
        assert(left_bytes@.subrange(0, left_bytes@.len() as int) =~= left_bytes@);
        if same {
            assert(decode_utf8(left_bytes@) == decode_utf8(right_bytes@));
        }
    }
    same
}

/// The part of `text` between two byte offsets.
pub fn substring<'a>(text: &'a str, start: usize, end: usize) -> (part: &'a str)
    requires
        start <= end <= text.spec_bytes().len(),
        on_boundary(text@, start as int),
        on_boundary(text@, end as int),
    ensures
        part.spec_bytes() == text.spec_bytes().subrange(start as int, end as int),
{
    let (head, _) = text.split_at(end);
    proof {
        vstd::utf8::encode_utf8_valid_utf8(text@);
        lemma_boundary_in_prefix(text.spec_bytes(), end as int, start as int);
    }
    let (_, part) = head.split_at(start);
    assert(part.spec_bytes() =~= text.spec_bytes().subrange(start as int, end as int));
    part
}

/// The start and the end of a text are character boundaries of it.
pub proof fn lemma_ends_on_boundary(text: Seq<char>)
    ensures
        on_boundary(text, 0),
        on_boundary(text, encode_utf8(text).len() as int),
{
    vstd::utf8::encode_utf8_valid_utf8(text);
    vstd::utf8::is_char_boundary_start_end_of_seq(encode_utf8(text));
}

/// A character boundary of valid UTF-8 is one of each prefix that is cut at
/// a later boundary.
pub proof fn lemma_boundary_in_prefix(bytes: Seq<u8>, cut: int, index: int)
    requires
        valid_utf8(bytes),
        0 <= index <= cut <= bytes.len(),
        is_char_boundary(bytes, cut),
        is_char_boundary(bytes, index),
    ensures
        valid_utf8(bytes.subrange(0, cut)),
        is_char_boundary(bytes.subrange(0, cut), index),
{
    let prefix = bytes.subrange(0, cut);
    vstd::utf8::valid_utf8_split(bytes, cut);
    if index == cut {
        vstd::utf8::is_char_boundary_start_end_of_seq(prefix);
    } else {
        vstd::utf8::is_char_boundary_iff_not_is_continuation_byte(bytes, index);
        vstd::utf8::is_char_boundary_iff_not_is_continuation_byte(prefix, index);
    }
}

/// A character boundary of the part of valid UTF-8 behind a boundary is one
/// of the whole.
pub proof fn lemma_boundary_in_suffix(bytes: Seq<u8>, from: int, index: int)
    requires
        valid_utf8(bytes),
        0 <= from <= bytes.len(),
        is_char_boundary(bytes, from),
        0 <= index <= bytes.len() - from,
        is_char_boundary(bytes.subrange(from, bytes.len() as int), index),
    ensures
        is_char_boundary(bytes, from + index),
{
    let suffix = bytes.subrange(from, bytes.len() as int);
    vstd::utf8::valid_utf8_split(bytes, from);
    if from + index == bytes.len() {
        vstd::utf8::is_char_boundary_start_end_of_seq(bytes);
    } else {
        vstd::utf8::is_char_boundary_iff_not_is_continuation_byte(bytes, from + index);
        vstd::utf8::is_char_boundary_iff_not_is_continuation_byte(suffix, index);
    }
}

/// Where valid UTF-8 starts with valid UTF-8, the end of that start is a
/// character boundary.
pub proof fn lemma_valid_prefix_ends_on_boundary(bytes: Seq<u8>, prefix: Seq<u8>)
    requires
        valid_utf8(bytes),
        valid_utf8(prefix),
        occurs_at(bytes, 0, prefix),
    ensures
        is_char_boundary(bytes, prefix.len() as int),
    decreases prefix.len(),
{
    if prefix.len() > 0 {
        let width = length_of_first_scalar(prefix);
        assert(bytes.subrange(0, prefix.len() as int)[0] == prefix[0]);
        assert(length_of_first_scalar(bytes) == width);
        assert(width <= prefix.len());
        let rest = pop_first_scalar(prefix);
        let rest_of_bytes = pop_first_scalar(bytes);
        assert(rest_of_bytes.subrange(0, rest.len() as int) =~= rest) by {
            assert forall|i: int| 0 <= i < rest.len() implies rest_of_bytes[i] == rest[i] by {
                assert(bytes.subrange(0, prefix.len() as int)[width + i] == prefix[width + i]);
            }
        }
        lemma_valid_prefix_ends_on_boundary(rest_of_bytes, rest);
    }
}

/// Where a valid UTF-8 text stands in another at a character boundary, its
/// end is a character boundary too.
pub proof fn lemma_occurrence_ends_on_boundary(bytes: Seq<u8>, at: int, needle: Seq<u8>)
    requires
        valid_utf8(bytes),
        valid_utf8(needle),
        is_char_boundary(bytes, at),
        occurs_at(bytes, at, needle),
    ensures
        is_char_boundary(bytes, at + needle.len()),
{
    let suffix = bytes.subrange(at, bytes.len() as int);
    vstd::utf8::valid_utf8_split(bytes, at);
    assert(suffix.subrange(0, needle.len() as int) =~= bytes.subrange(at, at + needle.len()));
    lemma_valid_prefix_ends_on_boundary(suffix, needle);
    lemma_boundary_in_suffix(bytes, at, needle.len() as int);
}

} // verus!
