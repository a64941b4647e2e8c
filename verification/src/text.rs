//! Strings as UTF-8 byte sequences: cutting at byte offsets, comparing,
//! trimming and case folding.
use vstd::prelude::*;
use vstd::string::*;
use vstd::utf8::*;

verus! {

/// The bytes that the parser knows by name.
pub const TAB: u8 = 9;

pub const LINE_FEED: u8 = 10;

pub const CARRIAGE_RETURN: u8 = 13;

pub const SPACE: u8 = 32;

pub const HASH: u8 = 35;

pub const ASTERISK: u8 = 42;

pub const PLUS: u8 = 43;

pub const HYPHEN: u8 = 45;

pub const FULL_STOP: u8 = 46;

pub const LEFT_BRACKET: u8 = 91;

pub const RIGHT_BRACKET: u8 = 93;

pub const BACKTICK: u8 = 96;

pub const LEFT_BRACE: u8 = 123;

pub const RIGHT_BRACE: u8 = 125;

pub const TILDE: u8 = 126;

/// Line feed and carriage return both end a line.
pub open spec fn is_newline(b: u8) -> bool {
    b == LINE_FEED || b == CARRIAGE_RETURN
}

/// The text that the bytes from `start` up to `end` encode.
pub open spec fn span(bytes: Seq<u8>, start: int, end: int) -> Seq<char> {
    decode_utf8(bytes.subrange(start, end))
}

/// The text between two byte offsets of a string.
pub open spec fn byte_slice(s: Seq<char>, start: int, end: int) -> Seq<char> {
    span(encode_utf8(s), start, end)
}

/// Both offsets are in range, in order, and fall between characters.
pub open spec fn is_cut(bytes: Seq<u8>, start: int, end: int) -> bool {
    &&& 0 <= start <= end <= bytes.len()
    &&& is_char_boundary(bytes, start)
    &&& is_char_boundary(bytes, end)
}

/// An offset next to a byte below 128 falls between characters: such a byte
/// is a whole character in UTF-8.
pub proof fn lemma_ascii_boundary(bytes: Seq<u8>, i: int)
    requires
        valid_utf8(bytes),
        0 <= i < bytes.len(),
        bytes[i] < 128,
    ensures
        is_char_boundary(bytes, i),
        is_char_boundary(bytes, i + 1),
{
    let b = bytes[i];
    assert(!is_continuation_byte(b) && is_leading_byte_width_1(b)) by (bit_vector)
        requires
            b < 128,
    ;
    is_char_boundary_iff_not_is_continuation_byte(bytes, i);
    valid_utf8_split(bytes, i);
    let tail = bytes.subrange(i, bytes.len() as int);
    assert(tail[0] == b);
    let rest = pop_first_scalar(tail);
    assert(rest =~= bytes.subrange(i + 1, bytes.len() as int));
    if i + 1 < bytes.len() {
        assert(valid_utf8(rest));
        is_char_boundary_start_end_of_seq(rest);
        is_char_boundary_iff_not_is_continuation_byte(rest, 0);
        assert(rest[0] == bytes[i + 1]);
        is_char_boundary_iff_not_is_continuation_byte(bytes, i + 1);
    } else {
        is_char_boundary_start_end_of_seq(bytes);
    }
}

/// The two ends of a byte sequence fall between characters.
pub proof fn lemma_ends_are_boundaries(bytes: Seq<u8>)
    requires
        valid_utf8(bytes),
    ensures
        is_char_boundary(bytes, 0),
        is_char_boundary(bytes, bytes.len() as int),
{
    is_char_boundary_start_end_of_seq(bytes);
}

/// What lies between two character boundaries is itself valid UTF-8.
pub proof fn lemma_cut_is_valid(bytes: Seq<u8>, start: int, end: int)
    requires
        valid_utf8(bytes),
        is_cut(bytes, start, end),
    ensures
        valid_utf8(bytes.subrange(start, end)),
        is_char_boundary(bytes.subrange(start, bytes.len() as int), end - start),
{
    valid_utf8_split(bytes, start);
    let tail = bytes.subrange(start, bytes.len() as int);
    if end < bytes.len() {
        is_char_boundary_iff_not_is_continuation_byte(bytes, end);
        assert(tail[end - start] == bytes[end]);
        if end > start {
            is_char_boundary_iff_not_is_continuation_byte(tail, end - start);
        }
    } else {
        is_char_boundary_start_end_of_seq(tail);
    }
    valid_utf8_split(tail, end - start);
    assert(tail.subrange(0, end - start) =~= bytes.subrange(start, end));
}

/// The part of `text` between two byte offsets that fall between characters.
pub(crate) fn slice(text: &str, start: usize, end: usize) -> (r: &str)
    requires
        is_cut(text.spec_bytes(), start as int, end as int),
    ensures
        r.spec_bytes() == text.spec_bytes().subrange(start as int, end as int),
        r@ == span(text.spec_bytes(), start as int, end as int),
{
    broadcast use encode_utf8_valid_utf8, encode_utf8_decode_utf8;

    proof {
        lemma_cut_is_valid(text.spec_bytes(), start as int, end as int);
    }
    let (_, tail) = text.split_at(start);
    let (r, _) = tail.split_at(end - start);
    assert(r.spec_bytes() =~= text.spec_bytes().subrange(start as int, end as int));
    r
}

/// Whether a character is whitespace: whether it has the Unicode property
/// White_Space. These are the tab, the line feed, the vertical tab, the form
/// feed, the carriage return, the space, the next line character, the
/// no-break space, the ogham space mark, the spaces from the en quad to the
/// hair space, the line and the paragraph separator, the narrow no-break
/// space, the medium mathematical space and the ideographic space.
pub open spec fn is_blank(c: char) -> bool {
    ('\u{9}' <= c && c <= '\u{d}') || c == ' ' || c == '\u{85}' || c == '\u{a0}' || c
        == '\u{1680}' || ('\u{2000}' <= c && c <= '\u{200a}') || c == '\u{2028}' || c
        == '\u{2029}' || c == '\u{202f}' || c == '\u{205f}' || c == '\u{3000}'
}

/// The lower-case form of a text, as Unicode defines it without regard to
/// language.
pub uninterp spec fn lowercase(s: Seq<char>) -> Seq<char>;

/// A text without the whitespace at its end.
pub open spec fn trimmed_end(s: Seq<char>) -> Seq<char>
    decreases s.len(),
{
    if s.len() > 0 && is_blank(s.last()) {
        trimmed_end(s.drop_last())
    } else {
        s
    }
}

/// A text without the whitespace at its start.
pub open spec fn trimmed_start(s: Seq<char>) -> Seq<char>
    decreases s.len(),
{
    if s.len() > 0 && is_blank(s[0]) {
        trimmed_start(s.drop_first())
    } else {
        s
    }
}

/// A text without the whitespace at either end.
pub open spec fn trimmed(s: Seq<char>) -> Seq<char> {
    trimmed_end(trimmed_start(s))
}

/// A text with every occurrence of `from`, found from left to right and none
/// overlapping another, replaced by `to`. An empty `from` occurs nowhere.
pub open spec fn replaced(s: Seq<char>, from: Seq<char>, to: Seq<char>) -> Seq<char>
    decreases s.len(),
{
    if from.len() == 0 || s.len() < from.len() {
        s
    } else if s.subrange(0, from.len() as int) == from {
        to + replaced(s.subrange(from.len() as int, s.len() as int), from, to)
    } else {
        seq![s[0]] + replaced(s.drop_first(), from, to)
    }
}

/// `String::push`: appends one character.
pub assume_specification[ String::push ](s: &mut String, c: char)
    ensures
        final(s)@ == old(s)@.push(c),
;

/// The text without its trailing whitespace is the part up to its last
/// character that is no whitespace.
pub proof fn lemma_trimmed_end(s: Seq<char>, keep: int)
    requires
        0 <= keep <= s.len(),
        keep > 0 ==> !is_blank(s[keep - 1]),
        forall|k: int| keep <= k < s.len() ==> is_blank(#[trigger] s[k]),
    ensures
        trimmed_end(s) == s.subrange(0, keep),
    decreases s.len(),
{
    if s.len() > keep {
        let front = s.drop_last();
        assert forall|k: int| keep <= k < front.len() implies
            is_blank(#[trigger] front[k]) by {
            assert(front[k] == s[k]);
        }
        lemma_trimmed_end(front, keep);
        assert(front.subrange(0, keep) =~= s.subrange(0, keep));
    } else {
        assert(s.subrange(0, keep) =~= s);
    }
}

/// The text without its leading whitespace is the part from its first
/// character on that is no whitespace.
pub proof fn lemma_trimmed_start(s: Seq<char>, skip: int)
    requires
        0 <= skip <= s.len(),
        skip < s.len() ==> !is_blank(s[skip]),
        forall|k: int| 0 <= k < skip ==> is_blank(#[trigger] s[k]),
    ensures
        trimmed_start(s) == s.subrange(skip, s.len() as int),
    decreases s.len(),
{
    if skip > 0 {
        let rest = s.drop_first();
        assert forall|k: int| 0 <= k < skip - 1 implies is_blank(#[trigger] rest[k]) by {
            assert(rest[k] == s[k + 1]);
        }
        lemma_trimmed_start(rest, skip - 1);
        assert(rest.subrange(skip - 1, rest.len() as int) =~= s.subrange(skip, s.len() as int));
    } else {
        assert(s.subrange(0, s.len() as int) =~= s);
    }
}

/// The characters of a text from one place up to another.
fn char_range(s: &str, from: usize, to: usize) -> (r: String)
    requires
        from <= to <= s@.len(),
    ensures
        r@ == s@.subrange(from as int, to as int),
{
    let total = s.unicode_len();
    let mut out = String::new();
    let mut i: usize = 0;
    for c in it: s.chars()
        invariant
            it.seq() == s@,
            i == it.index(),
            total == s@.len(),
            from <= to <= s@.len(),
            out@ == s@.subrange(
                from as int,
                if i < from {
                    from as int
                } else if i < to {
                    i as int
                } else {
                    to as int
                },
            ),
    {
        if from <= i && i < to {
            out.push(c);
            assert(out@ =~= s@.subrange(from as int, i + 1));
        }
        i += 1;
    }
    out
}

/// Whether a character is whitespace.
pub fn is_blank_char(c: char) -> (r: bool)
    ensures
        r == is_blank(c),
{
    ('\u{9}' <= c && c <= '\u{d}') || c == ' ' || c == '\u{85}' || c == '\u{a0}' || c
        == '\u{1680}' || ('\u{2000}' <= c && c <= '\u{200a}') || c == '\u{2028}' || c
        == '\u{2029}' || c == '\u{202f}' || c == '\u{205f}' || c == '\u{3000}'
}

/// The text without the whitespace at its end.
pub fn trim_end(s: &str) -> (r: String)
    ensures
        r@ == trimmed_end(s@),
{
    let total = s.unicode_len();
    let mut keep: usize = 0;
    let mut i: usize = 0;
    for c in it: s.chars()
        invariant
            it.seq() == s@,
            i == it.index(),
            total == s@.len(),
            keep <= i,
            keep > 0 ==> !is_blank(s@[keep - 1]),
            forall|k: int| keep <= k < i ==> is_blank(#[trigger] s@[k]),
    {
        if !is_blank_char(c) {
            keep = i + 1;
        }
        i += 1;
    }
    proof {
        lemma_trimmed_end(s@, keep as int);
    }
    char_range(s, 0, keep)
}

/// The text without the whitespace at either end.
pub fn trim(s: &str) -> (r: String)
    ensures
        r@ == trimmed(s@),
{
    let total = s.unicode_len();
    let mut skip: usize = 0;
    let mut started = false;
    let mut keep: usize = 0;
    let mut i: usize = 0;
    for c in it: s.chars()
        invariant
            it.seq() == s@,
            i == it.index(),
            total == s@.len(),
            keep <= i,
            skip <= i,
            keep > 0 ==> !is_blank(s@[keep - 1]),
            forall|k: int| keep <= k < i ==> is_blank(#[trigger] s@[k]),
            forall|k: int| 0 <= k < skip ==> is_blank(#[trigger] s@[k]),
            started ==> skip < i && !is_blank(s@[skip as int]) && skip < keep,
            !started ==> skip == i && keep == 0,
    {
        if !is_blank_char(c) {
            keep = i + 1;
            started = true;
        } else if !started {
            skip = i + 1;
        }
        i += 1;
    }
    let to = if started {
        keep
    } else {
        skip
    };
    proof {
        lemma_trimmed_start(s@, skip as int);
        let rest = s@.subrange(skip as int, s@.len() as int);
        assert forall|k: int| to - skip <= k < rest.len() implies
            is_blank(#[trigger] rest[k]) by {
            assert(rest[k] == s@[k + skip]);
        }
        if to > skip {
            assert(rest[to - skip - 1] == s@[to - 1]);
        }
        lemma_trimmed_end(rest, to - skip);
        assert(rest.subrange(0, to - skip) =~= s@.subrange(skip as int, to as int));
    }
    char_range(s, skip, to)
}

/// `str::to_lowercase`: the lower-case form of the text.
#[verifier::external_body]
pub(crate) fn to_lowercase(s: &str) -> (r: String)
    ensures
        r@ == lowercase(s@),
{
    s.to_lowercase()
}

/// The characters of a text.
pub fn to_chars(s: &str) -> (r: Vec<char>)
    ensures
        r@ == s@,
{
    let mut out: Vec<char> = Vec::new();
    for c in it: s.chars()
        invariant
            it.seq() == s@,
            out@ == s@.subrange(0, it.index() as int),
    {
        out.push(c);
        assert(out@ =~= s@.subrange(0, it.index() + 1));
    }
    assert(s@.subrange(0, s@.len() as int) =~= s@);
    out
}

/// Whether the pattern stands in the text at the given place.
pub(crate) fn matches_at(text: &Vec<char>, at: usize, pattern: &Vec<char>) -> (r: bool)
    requires
        at + pattern@.len() <= text@.len(),
    ensures
        r == (text@.subrange(at as int, at + pattern@.len()) == pattern@),
{
    let n = text.len();
    let mut k: usize = 0;
    while k < pattern.len()
        invariant
            k <= pattern@.len(),
            n == text@.len(),
            at + pattern@.len() <= text@.len(),
            forall|j: int| 0 <= j < k ==> text@[at + j] == pattern@[j],
        decreases pattern.len() - k,
    {
        if text[at + k] != pattern[k] {
            assert(text@.subrange(at as int, at + pattern@.len())[k as int] != pattern@[k as int]);
            return false;
        }
        k += 1;
    }
    assert(text@.subrange(at as int, at + pattern@.len()) =~= pattern@);
    true
}

/// The text with every occurrence of `from`, found from left to right and
/// none overlapping another, replaced by `to`. An empty `from` occurs
/// nowhere.
pub fn replace(s: &str, from: &str, to: &str) -> (r: String)
    ensures
        r@ == replaced(s@, from@, to@),
{
    let text = to_chars(s);
    let pattern = to_chars(from);
    let n = text.len();
    let m = pattern.len();
    let mut out = String::new();
    if m == 0 {
        return s.to_owned();
    }
    let mut i: usize = 0;
    assert(text@.subrange(0, n as int) =~= text@);
    while i < n
        invariant
            i <= n,
            n == text@.len(),
            m == pattern@.len(),
            m > 0,
            text@ == s@,
            pattern@ == from@,
            replaced(text@, pattern@, to@) == out@ + replaced(
                text@.subrange(i as int, n as int),
                pattern@,
                to@,
            ),
        decreases n - i,
    {
        let ghost rest = text@.subrange(i as int, n as int);
        let ghost before = out@;
        if m <= n - i && matches_at(&text, i, &pattern) {
            out.append(to);
            proof {
                assert(rest.subrange(0, m as int) =~= text@.subrange(i as int, i + m));
                assert(rest.subrange(m as int, rest.len() as int)
                    =~= text@.subrange(i + m, n as int));
                assert(out@ + replaced(text@.subrange(i + m, n as int), pattern@, to@)
                    =~= before + (
                to@ + replaced(text@.subrange(i + m, n as int), pattern@, to@)));
            }
            i += m;
        } else {
            out.push(text[i]);
            proof {
                if m <= n - i {
                    assert(rest.subrange(0, m as int) =~= text@.subrange(i as int, i + m));
                }
                assert(rest.drop_first() =~= text@.subrange(i + 1, n as int));
                assert(out@ + replaced(text@.subrange(i + 1, n as int), pattern@, to@)
                    =~= before + (
                seq![rest[0]] + replaced(text@.subrange(i + 1, n as int), pattern@, to@)));
            }
            i += 1;
        }
    }
    assert(text@.subrange(n as int, n as int) =~= Seq::<char>::empty());
    assert(out@ + Seq::<char>::empty() =~= out@);
    out
}

/// Whether `count` copies of `byte` stand at the start of the bytes.
pub open spec fn starts_with_run(bytes: Seq<u8>, byte: u8, count: int) -> bool {
    bytes.len() >= count && forall|k: int| 0 <= k < count ==> bytes[k] == byte
}

/// Whether `count` copies of `byte` stand at offset `at`.
pub(crate) fn has_run_at(bytes: &[u8], at: usize, end: usize, byte: u8, count: usize) -> (r: bool)
    requires
        at <= end <= bytes@.len(),
    ensures
        r == starts_with_run(bytes@.subrange(at as int, end as int), byte, count as int),
{
    if end - at < count {
        return false;
    }
    let mut k: usize = 0;
    while k < count
        invariant
            at <= end <= bytes@.len(),
            count <= end - at,
            k <= count,
            forall|j: int| 0 <= j < k ==> bytes@.subrange(at as int, end as int)[j] == byte,
        decreases count - k,
    {
        if bytes[at + k] != byte {
            assert(bytes@.subrange(at as int, end as int)[k as int] != byte);
            return false;
        }
        k += 1;
    }
    true
}

/// Whether two byte strings are the same.
pub fn bytes_equal(a: &[u8], b: &[u8]) -> (r: bool)
    ensures
        r == (a@ == b@),
{
    if a.len() != b.len() {
        return false;
    }
    let mut k: usize = 0;
    while k < a.len()
        invariant
            a@.len() == b@.len(),
            k <= a@.len(),
            forall|j: int| 0 <= j < k ==> a@[j] == b@[j],
        decreases a.len() - k,
    {
        if a[k] != b[k] {
            return false;
        }
        k += 1;
    }
    assert(a@ =~= b@);
    true
}

/// Whether two strings are the same text.
pub fn str_equal(a: &str, b: &str) -> (r: bool)
    ensures
        r == (a@ == b@),
{
    broadcast use encode_utf8_decode_utf8;

    let r = bytes_equal(a.as_bytes(), b.as_bytes());
    proof {
        if r {
            assert(decode_utf8(a.spec_bytes()) == decode_utf8(b.spec_bytes()));
        }
    }
    r
}

/// Whether one byte string stands before another in the order of a
/// dictionary: at the first place where they differ the first has the
/// smaller byte, or the first ends there and the second goes on.
pub open spec fn lex_less(a: Seq<u8>, b: Seq<u8>) -> bool
    decreases a.len(),
{
    if b.len() == 0 {
        false
    } else if a.len() == 0 {
        true
    } else if a[0] != b[0] {
        a[0] < b[0]
    } else {
        lex_less(a.drop_first(), b.drop_first())
    }
}

/// Whether one byte string stands before another in the order of a
/// dictionary.
pub fn bytes_less(a: &[u8], b: &[u8]) -> (r: bool)
    ensures
        r == lex_less(a@, b@),
{
    let mut k: usize = 0;
    assert(a@.subrange(0, a@.len() as int) =~= a@);
    assert(b@.subrange(0, b@.len() as int) =~= b@);
    while k < a.len() && k < b.len()
        invariant
            k <= a@.len(),
            k <= b@.len(),
            lex_less(a@, b@) == lex_less(
                a@.subrange(k as int, a@.len() as int),
                b@.subrange(k as int, b@.len() as int),
            ),
        decreases a.len() - k,
    {
        let ghost x = a@.subrange(k as int, a@.len() as int);
        let ghost y = b@.subrange(k as int, b@.len() as int);
        assert(x[0] == a@[k as int] && y[0] == b@[k as int]);
        if a[k] != b[k] {
            return a[k] < b[k];
        }
        assert(x.drop_first() =~= a@.subrange(k + 1, a@.len() as int));
        assert(y.drop_first() =~= b@.subrange(k + 1, b@.len() as int));
        k += 1;
    }
    k < b.len()
}

} // verus!
