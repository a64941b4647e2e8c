//! The lines of a text: maximal runs of bytes that hold no line feed and no
//! carriage return, found by byte offset.
use crate::text::{
    is_cut, is_newline, lemma_ascii_boundary, lemma_ends_are_boundaries, CARRIAGE_RETURN,
    LINE_FEED,
};
use vstd::prelude::*;
use vstd::string::*;
use vstd::utf8::*;

verus! {

/// The three bytes that encode the byte order mark U+FEFF.
pub open spec fn has_bom(bytes: Seq<u8>) -> bool {
    bytes.len() >= 3 && bytes[0] == 0xEF && bytes[1] == 0xBB && bytes[2] == 0xBF
}

/// The offset of the first newline byte at or after `from`, or the length of
/// the text where there is none.
pub open spec fn first_newline(bytes: Seq<u8>, from: int) -> int
    decreases bytes.len() - from,
{
    if from >= bytes.len() {
        bytes.len() as int
    } else if is_newline(bytes[from]) {
        from
    } else {
        first_newline(bytes, from + 1)
    }
}

/// The offset of the first byte at or after `from` that is no newline, or the
/// length of the text where there is none.
pub open spec fn first_text(bytes: Seq<u8>, from: int) -> int
    decreases bytes.len() - from,
{
    if from >= bytes.len() {
        bytes.len() as int
    } else if !is_newline(bytes[from]) {
        from
    } else {
        first_text(bytes, from + 1)
    }
}

/// The first line that starts at or after `from`: where its first byte stands
/// and where the newline (or the end of the text) after it stands.
pub open spec fn line_at(bytes: Seq<u8>, from: int) -> Option<(int, int)> {
    let start = first_text(bytes, from);
    if start < bytes.len() {
        Some((start, first_newline(bytes, start)))
    } else {
        None
    }
}

/// The first line after the newline that ends the line `from` lies in.
pub open spec fn line_after(bytes: Seq<u8>, from: int) -> Option<(int, int)> {
    let stop = first_newline(bytes, from);
    if stop < bytes.len() {
        line_at(bytes, stop)
    } else {
        None
    }
}

/// A pair of machine offsets is the pair of offsets of the model, or both are
/// absent.
pub open spec fn same_span(found: Option<(usize, usize)>, model: Option<(int, int)>) -> bool {
    match found {
        Some((start, end)) => model == Some((start as int, end as int)),
        None => model is None,
    }
}

/// `first_newline` is the least offset from `from` on that holds a newline.
pub proof fn lemma_first_newline(bytes: Seq<u8>, from: int)
    requires
        0 <= from <= bytes.len(),
    ensures
        from <= first_newline(bytes, from) <= bytes.len(),
        first_newline(bytes, from) < bytes.len() ==> is_newline(
            bytes[first_newline(bytes, from)],
        ),
        forall|k: int| from <= k < first_newline(bytes, from) ==> !is_newline(#[trigger] bytes[k]),
    decreases bytes.len() - from,
{
    if from < bytes.len() && !is_newline(bytes[from]) {
        lemma_first_newline(bytes, from + 1);
    }
}

/// `first_text` is the least offset from `from` on that holds no newline.
pub proof fn lemma_first_text(bytes: Seq<u8>, from: int)
    requires
        0 <= from <= bytes.len(),
    ensures
        from <= first_text(bytes, from) <= bytes.len(),
        first_text(bytes, from) < bytes.len() ==> !is_newline(bytes[first_text(bytes, from)]),
        forall|k: int| from <= k < first_text(bytes, from) ==> is_newline(#[trigger] bytes[k]),
    decreases bytes.len() - from,
{
    if from < bytes.len() && is_newline(bytes[from]) {
        lemma_first_text(bytes, from + 1);
    }
}

/// A line searched for from a character boundary on is not empty, holds no
/// newline, lies inside the text, and both its ends fall between characters.
pub proof fn lemma_line_at(bytes: Seq<u8>, from: int)
    requires
        valid_utf8(bytes),
        0 <= from <= bytes.len(),
        is_char_boundary(bytes, from),
        line_at(bytes, from) is Some,
    ensures
        ({
            let (start, end) = line_at(bytes, from).unwrap();
            &&& from <= start < end <= bytes.len()
            &&& is_cut(bytes, start, end)
            &&& forall|k: int| start <= k < end ==> !is_newline(#[trigger] bytes[k])
            &&& forall|k: int| from <= k < start ==> is_newline(#[trigger] bytes[k])
            &&& end < bytes.len() ==> is_newline(bytes[end])
        }),
{
    lemma_first_text(bytes, from);
    let start = first_text(bytes, from);
    lemma_first_newline(bytes, start);
    let end = first_newline(bytes, start);
    lemma_ends_are_boundaries(bytes);
    if end < bytes.len() {
        lemma_ascii_boundary(bytes, end);
    }
    if start > from {
        lemma_ascii_boundary(bytes, start - 1);
    }
}

/// Returns the size of the byte order mark if the text starts with one.
pub fn starts_with_bom(text: &str) -> (r: usize)
    ensures
        r == (if has_bom(text.spec_bytes()) { 3usize } else { 0usize }),
{
    let b = text.as_bytes();
    if b.len() >= 3 && b[0] == 0xEF && b[1] == 0xBB && b[2] == 0xBF {
        3
    } else {
        0
    }
}

/// Finds the first newline byte at or after `offset`.
pub fn find_newline(text: &str, offset: usize) -> (r: Option<usize>)
    ensures
        r is Some <==> first_newline(text.spec_bytes(), offset as int) < text.spec_bytes().len(),
        r matches Some(p) ==> p == first_newline(text.spec_bytes(), offset as int),
{
    let b = text.as_bytes();
    let mut pos: usize = offset;
    while pos < b.len()
        invariant
            b@ == text.spec_bytes(),
            offset <= pos,
            first_newline(b@, offset as int) == first_newline(b@, pos as int),
        decreases b.len() - pos,
    {
        if b[pos] == LINE_FEED || b[pos] == CARRIAGE_RETURN {
            return Some(pos);
        }
        pos += 1;
    }
    None
}

/// Finds the byte positions (start, end) of the first line at or after
/// `offset`, or `None` where only newlines are left.
pub fn find_first_line(text: &str, offset: usize) -> (r: Option<(usize, usize)>)
    ensures
        same_span(r, line_at(text.spec_bytes(), offset as int)),
{
    let b = text.as_bytes();
    let mut pos: usize = offset;
    while pos < b.len()
        invariant
            b@ == text.spec_bytes(),
            offset <= pos,
            first_text(b@, offset as int) == first_text(b@, pos as int),
        decreases b.len() - pos,
    {
        if b[pos] != LINE_FEED && b[pos] != CARRIAGE_RETURN {
            proof {
                lemma_first_newline(b@, pos as int);
            }
            return match find_newline(text, pos) {
                None => Some((pos, b.len())),
                Some(end) => Some((pos, end)),
            };
        }
        pos += 1;
    }
    None
}

/// Finds the byte positions (start, end) of the line that follows the one
/// `offset` lies in, or `None` where there is none.
pub fn find_next_line(text: &str, offset: usize) -> (r: Option<(usize, usize)>)
    ensures
        same_span(r, line_after(text.spec_bytes(), offset as int)),
{
    match find_newline(text, offset) {
        None => None,
        Some(pos) => find_first_line(text, pos),
    }
}

} // verus!
