//! The note parser: one pass over the lines of a note that collects titles,
//! identifiers, links and tasks, and finds the backlinks section.
//!
//! A wikilink is the bare form `[[target]]`: whatever stands between the
//! brackets is the target, a `|` or a `#` in it included. A backlinks section
//! ends at the first line that is no list item; empty lines are no lines and
//! end nothing. Where a note holds the heading more than once, the section
//! is the last one.
use crate::link::{LinkKey, WikiLink};
use crate::pattern::{
    capture_first, compile, first_capture, first_replaced, is_match, pattern_compiles, pattern_matches,
    pattern_of, replace_first,
};
use crate::lines::{
    find_first_line, find_next_line, first_newline, has_bom, lemma_line_at, line_after, line_at,
    starts_with_bom,
};
use crate::text::{
    bytes_equal, has_run_at, is_cut, lemma_ascii_boundary, lemma_ends_are_boundaries, slice,
    starts_with_run, trim, trim_end, trimmed, trimmed_end, ASTERISK, BACKTICK, FULL_STOP, HASH,
    HYPHEN, LEFT_BRACE, LEFT_BRACKET, LINE_FEED, PLUS, RIGHT_BRACE, RIGHT_BRACKET, SPACE, TAB,
    TILDE,
};
use vstd::prelude::*;
use vstd::string::*;
use vstd::utf8::*;

verus! {

/// The expression that finds a title in a line of front matter.
pub open spec fn yaml_title_pattern() -> Seq<char> {
    "\\A\\s*['\"]?title['\"]?\\s*: \\s*['\"]?([^'\"]+)['\"]?\\z"@
}

/// The expression that finds an open task in a line.
pub open spec fn task_pattern() -> Seq<char> {
    "\\A\\s*[-+*]\\s+\\[ \\]\\s+(.+?)\\z"@
}

/// The expression that tells an indented list item from indented code.
pub open spec fn indented_list_pattern() -> Seq<char> {
    "\\A\\s+([-+*]|\\d+\\.)\\s.+\\z"@
}

/// The expression that finds an identifier: the configured pattern, standing
/// alone between whitespace or word boundaries.
pub open spec fn id_expr_pattern(id_pattern: Seq<char>) -> Seq<char> {
    "(?:\\A|\\s)("@ + id_pattern + ")(?:\\z|\\b)"@
}

/// The offset of the last occurrence of a byte, or -1 where there is none.
pub open spec fn last_index_of(bytes: Seq<u8>, byte: u8) -> int
    decreases bytes.len(),
{
    if bytes.len() == 0 {
        -1
    } else if bytes.last() == byte {
        bytes.len() - 1
    } else {
        last_index_of(bytes.drop_last(), byte)
    }
}

/// A heading without the attribute block at its end: where the heading ends
/// in `}`, everything from the last `{` on is left out.
pub open spec fn without_attributes(bytes: Seq<u8>) -> Seq<u8> {
    if bytes.len() > 0 && bytes.last() == RIGHT_BRACE && last_index_of(bytes, LEFT_BRACE) >= 0 {
        bytes.subrange(0, last_index_of(bytes, LEFT_BRACE))
    } else {
        bytes
    }
}

/// The number of `#` at the end of the bytes.
pub open spec fn trailing_hashes(bytes: Seq<u8>) -> nat
    decreases bytes.len(),
{
    if bytes.len() > 0 && bytes.last() == HASH {
        trailing_hashes(bytes.drop_last()) + 1
    } else {
        0
    }
}

/// A heading without its closing sequence: the `#` at its end, where a space
/// or a tab stands in front of them.
pub open spec fn without_closing_hashes(bytes: Seq<u8>) -> Seq<u8> {
    let kept = bytes.len() - trailing_hashes(bytes);
    if 0 < kept < bytes.len() && (bytes[kept - 1] == SPACE || bytes[kept - 1] == TAB) {
        bytes.subrange(0, kept)
    } else {
        bytes
    }
}

/// The characters that a backslash escapes in Markdown.
pub open spec fn is_escapable(c: char) -> bool {
    c == '\\' || c == '`' || c == '*' || c == '_' || c == '{' || c == '}' || c == '[' || c == ']'
        || c == '<' || c == '>' || c == '(' || c == ')' || c == '#' || c == '+' || c == ','
        || c == '-' || c == '.' || c == '!' || c == '|'
}

/// A text without the backslashes that escape a character: each pair of a
/// backslash and an escapable character, read from the left, becomes the
/// character alone.
pub open spec fn unescaped(s: Seq<char>) -> Seq<char>
    decreases s.len(),
{
    if s.len() == 0 {
        s
    } else if s[0] == '\\' && s.len() >= 2 && is_escapable(s[1]) {
        seq![s[1]] + unescaped(s.subrange(2, s.len() as int))
    } else {
        seq![s[0]] + unescaped(s.drop_first())
    }
}

/// The offset of the first `]]` at or after `from`, or the length of the
/// bytes where there is none.
pub open spec fn first_close(bytes: Seq<u8>, from: int) -> int
    decreases bytes.len() - from,
{
    if from + 1 >= bytes.len() {
        bytes.len() as int
    } else if bytes[from] == RIGHT_BRACKET && bytes[from + 1] == RIGHT_BRACKET {
        from
    } else {
        first_close(bytes, from + 1)
    }
}

/// Whether a line feed stands at an offset from `from` up to `to`.
pub open spec fn has_line_feed(bytes: Seq<u8>, from: int, to: int) -> bool {
    exists|k: int| from <= k < to && #[trigger] bytes[k] == LINE_FEED
}

/// Where the texts of the wikilinks stand, from `from` on and from left to
/// right. A wikilink is `[[`, then at least one character, then the first
/// `]]` after that character, with no line feed in between; the next one is
/// looked for behind it.
pub open spec fn link_spans(bytes: Seq<u8>, from: int) -> Seq<(int, int)>
    decreases bytes.len() - from,
{
    if from < 0 || from + 5 > bytes.len() {
        seq![]
    } else if bytes[from] == LEFT_BRACKET && bytes[from + 1] == LEFT_BRACKET {
        let close = first_close(bytes, from + 3);
        if from + 3 <= close && close + 2 <= bytes.len() && !has_line_feed(bytes, from + 2, close) {
            seq![(from + 2, close)] + link_spans(bytes, close + 2)
        } else {
            link_spans(bytes, from + 1)
        }
    } else {
        link_spans(bytes, from + 1)
    }
}

/// Whether a byte may not stand at either end of a file name link: a space
/// or a dot.
pub open spec fn is_stray(byte: u8) -> bool {
    byte == SPACE || byte == FULL_STOP
}

/// The link that a text between brackets makes: an identifier link where the
/// text holds an identifier; else a file name link, unless the text starts or
/// ends with a space or a dot, which makes no link.
pub open spec fn link_of(id_pattern: Seq<char>, text: Seq<u8>) -> Option<LinkKey> {
    if pattern_matches(id_expr_pattern(id_pattern), decode_utf8(text)) {
        Some(LinkKey::Id(decode_utf8(text)))
    } else if text.len() == 0 || is_stray(text[0]) || is_stray(text.last()) {
        None
    } else {
        Some(LinkKey::FileName(decode_utf8(text)))
    }
}

/// The links that the texts at the given places make, in order.
pub open spec fn links_at(id_pattern: Seq<char>, bytes: Seq<u8>, spans: Seq<(int, int)>) -> Seq<
    LinkKey,
>
    decreases spans.len(),
{
    if spans.len() == 0 {
        seq![]
    } else {
        let before = links_at(id_pattern, bytes, spans.drop_last());
        match link_of(id_pattern, bytes.subrange(spans.last().0, spans.last().1)) {
            Some(link) => before.push(link),
            None => before,
        }
    }
}

/// The wikilinks of a text, in order.
pub open spec fn wikilinks(id_pattern: Seq<char>, bytes: Seq<u8>) -> Seq<LinkKey> {
    links_at(id_pattern, bytes, link_spans(bytes, 0))
}

/// The views of a list of links.
pub open spec fn keys(links: Seq<WikiLink>) -> Seq<LinkKey> {
    links.map_values(|l: WikiLink| l@)
}

/// The views of a list of strings.
pub open spec fn texts(strings: Seq<String>) -> Seq<Seq<char>> {
    strings.map_values(|s: String| s@)
}

/// `first_close` is the least offset from `from` on at which `]]` stands.
pub proof fn lemma_first_close(bytes: Seq<u8>, from: int)
    requires
        0 <= from,
    ensures
        first_close(bytes, from) >= from || first_close(bytes, from) == bytes.len(),
        first_close(bytes, from) <= bytes.len(),
        first_close(bytes, from) < bytes.len() ==> first_close(bytes, from) + 1 < bytes.len()
            && bytes[first_close(bytes, from)]
                == RIGHT_BRACKET && bytes[first_close(bytes, from) + 1] == RIGHT_BRACKET,
    decreases bytes.len() - from,
{
    if from + 1 < bytes.len() && !(bytes[from] == RIGHT_BRACKET && bytes[from + 1] == RIGHT_BRACKET) {
        lemma_first_close(bytes, from + 1);
    }
}

/// Where the parser stands between two lines.
#[derive(Clone, Copy, Debug)]
pub enum ParseState {
    /// Before the first line.
    Initial,
    /// Inside the front matter.
    Yaml,
    /// In the body of the note.
    Regular,
    /// Inside a fenced code block that the given byte, three times, opened.
    CodeBlock(u8),
    /// Inside the backlinks section.
    BackLinks,
}

/// What parsing a note yields, as a value.
pub struct NoteDataView {
    pub titles: Seq<Seq<char>>,
    pub ids: Seq<Seq<char>>,
    pub links: Seq<LinkKey>,
    pub tasks: Seq<Seq<char>>,
    pub backlinks_start: Option<usize>,
    pub backlinks_end: Option<usize>,
}

/// What parsing a note yields: the candidates for its title and identifier
/// in the order found, its links and open tasks, and the byte offsets at
/// which the backlinks section starts and ends.
#[derive(Debug)]
pub struct NoteData {
    pub titles: Vec<String>,
    pub ids: Vec<String>,
    pub links: Vec<WikiLink>,
    pub tasks: Vec<String>,
    pub backlinks_start: Option<usize>,
    pub backlinks_end: Option<usize>,
}

impl View for NoteData {
    type V = NoteDataView;

    open spec fn view(&self) -> NoteDataView {
        NoteDataView {
            titles: texts(self.titles@),
            ids: texts(self.ids@),
            links: keys(self.links@),
            tasks: texts(self.tasks@),
            backlinks_start: self.backlinks_start,
            backlinks_end: self.backlinks_end,
        }
    }
}

/// Nothing found yet.
pub open spec fn no_data() -> NoteDataView {
    NoteDataView {
        titles: seq![],
        ids: seq![],
        links: seq![],
        tasks: seq![],
        backlinks_start: None,
        backlinks_end: None,
    }
}

/// Whether the byte occurs in the line.
pub open spec fn has_byte(ln: Seq<u8>, byte: u8) -> bool {
    exists|k: int| 0 <= k < ln.len() && #[trigger] ln[k] == byte
}

/// The title that a heading line `# ...` gives: what follows the marker,
/// without an attribute block, a closing sequence and the whitespace at the
/// end, and unescaped.
pub open spec fn heading_title(ln: Seq<u8>) -> Seq<char> {
    let plain = trimmed_end(decode_utf8(without_attributes(ln.subrange(2, ln.len() as int))));
    unescaped(trimmed_end(decode_utf8(without_closing_hashes(encode_utf8(plain)))))
}

/// A list with what the first group of a pattern captures in a line added,
/// where it captures anything.
pub open spec fn with_capture(found: Seq<Seq<char>>, pattern: Seq<char>, ln: Seq<u8>) -> Seq<
    Seq<char>,
> {
    match first_capture(pattern, decode_utf8(ln)) {
        Some(text) => found.push(text),
        None => found,
    }
}

/// What a line of the body does: a heading gives a title, indented code is
/// passed over, a fence opens a code block, the backlinks heading opens the
/// backlinks section at this line's offset, and any other line is searched
/// for an identifier, for links and for a task.
pub open spec fn regular_step(cfg: ParserView, ln: Seq<u8>, start: int, d: NoteDataView) -> (
    ParseState,
    NoteDataView,
) {
    if ln.len() > 2 && ln[0] == HASH && ln[1] == SPACE {
        (
            ParseState::Regular,
            NoteDataView {
                titles: d.titles.push(heading_title(ln)),
                ids: with_capture(d.ids, id_expr_pattern(cfg.id_pattern), ln),
                links: d.links + wikilinks(cfg.id_pattern, ln),
                ..d
            },
        )
    } else if (ln[0] == TAB || starts_with_run(ln, SPACE, 4)) && !pattern_matches(
        indented_list_pattern(),
        decode_utf8(ln),
    ) {
        (ParseState::Regular, d)
    } else if starts_with_run(ln, BACKTICK, 3) || starts_with_run(ln, TILDE, 3) {
        (ParseState::CodeBlock(ln[0]), d)
    } else if ln == encode_utf8(cfg.backlinks_heading) {
        (
            ParseState::BackLinks,
            NoteDataView { backlinks_start: Some(start as usize), backlinks_end: None, ..d },
        )
    } else {
        (
            ParseState::Regular,
            NoteDataView {
                ids: with_capture(d.ids, id_expr_pattern(cfg.id_pattern), ln),
                links: d.links + wikilinks(cfg.id_pattern, ln),
                tasks: if ln.len() > 4 && has_byte(ln, LEFT_BRACKET) {
                    with_capture(d.tasks, task_pattern(), ln)
                } else {
                    d.tasks
                },
                ..d
            },
        )
    }
}

/// What one line does to the state of the parser and to what it has found.
/// `ln` holds the bytes of the line, which is not empty, and `start` is the
/// offset of its first byte in the note.
#[verifier::opaque]
pub open spec fn step(cfg: ParserView, state: ParseState, ln: Seq<u8>, start: int, d: NoteDataView) -> (
    ParseState,
    NoteDataView,
) {
    match state {
        ParseState::Initial => if starts_with_run(ln, HYPHEN, 3) {
            (ParseState::Yaml, d)
        } else {
            regular_step(cfg, ln, start, d)
        },
        ParseState::Yaml => if starts_with_run(ln, HYPHEN, 3) || starts_with_run(ln, FULL_STOP, 3) {
            (ParseState::Regular, d)
        } else if ln[0] == HASH {
            (ParseState::Yaml, d)
        } else {
            (
                ParseState::Yaml,
                NoteDataView {
                    titles: if ln.len() > 7 {
                        with_capture(d.titles, yaml_title_pattern(), ln)
                    } else {
                        d.titles
                    },
                    ids: with_capture(d.ids, id_expr_pattern(cfg.id_pattern), ln),
                    links: d.links + wikilinks(cfg.id_pattern, ln),
                    ..d
                },
            )
        },
        ParseState::Regular => regular_step(cfg, ln, start, d),
        ParseState::CodeBlock(token) => if starts_with_run(ln, token, 3) {
            (ParseState::Regular, d)
        } else {
            (state, d)
        },
        ParseState::BackLinks => if ln[0] == HYPHEN || ln[0] == PLUS || ln[0] == ASTERISK {
            (ParseState::BackLinks, d)
        } else {
            regular_step(cfg, ln, start, NoteDataView { backlinks_end: Some(start as usize), ..d })
        },
    }
}

/// The lines of a text from `from` on: for each, the offset of its first
/// byte and the offset behind its last.
pub open spec fn lines(bytes: Seq<u8>, from: int) -> Seq<(int, int)>
    decreases bytes.len() - from,
{
    match line_at(bytes, from) {
        Some((start, end)) => if from <= start < end <= bytes.len() {
            seq![(start, end)] + lines(bytes, end)
        } else {
            seq![]
        },
        None => seq![],
    }
}

/// The state of the parser after the given lines, and what it has found in
/// them.
pub open spec fn run(cfg: ParserView, bytes: Seq<u8>, lines: Seq<(int, int)>) -> (
    ParseState,
    NoteDataView,
)
    decreases lines.len(),
{
    if lines.len() == 0 {
        (ParseState::Initial, no_data())
    } else {
        let (state, d) = run(cfg, bytes, lines.drop_last());
        let (start, end) = lines.last();
        step(cfg, state, bytes.subrange(start, end), start, d)
    }
}

/// What parsing a note yields: the lines behind a byte order mark, if there
/// is one, taken one after the other from the initial state.
pub open spec fn parsed(cfg: ParserView, bytes: Seq<u8>) -> NoteDataView {
    run(cfg, bytes, lines(bytes, if has_bom(bytes) { 3int } else { 0int })).1
}

/// Whether two offsets describe a backlinks section of the text: the line at
/// `start` is the heading, and `end`, where there is one, is the start of a
/// line behind it. With no start there is no end.
pub open spec fn is_region(bytes: Seq<u8>, heading: Seq<u8>, start: Option<usize>, end: Option<usize>) -> bool {
    match start {
        None => end is None,
        Some(s) => {
            &&& heading.len() > 0
            &&& s + heading.len() <= bytes.len()
            &&& bytes.subrange(s as int, s + heading.len()) == heading
            &&& is_cut(bytes, s as int, s + heading.len())
            &&& match end {
                None => true,
                Some(e) => s + heading.len() <= e < bytes.len() && is_char_boundary(bytes, e as int),
            }
        },
    }
}

/// What holds of the backlinks offsets between two lines, with `from` the
/// offset up to which the text has been read.
pub open spec fn region_so_far(
    bytes: Seq<u8>,
    heading: Seq<u8>,
    state: ParseState,
    d: NoteDataView,
    from: int,
) -> bool {
    &&& is_region(bytes, heading, d.backlinks_start, d.backlinks_end)
    &&& d.backlinks_start matches Some(s) ==> s + heading.len() <= from
    &&& state is BackLinks ==> d.backlinks_start is Some && d.backlinks_end is None
}

/// One line keeps the backlinks offsets a section of the text.
pub proof fn lemma_step_region(
    cfg: ParserView,
    state: ParseState,
    bytes: Seq<u8>,
    start: int,
    end: int,
    d: NoteDataView,
    from: int,
)
    requires
        bytes.len() <= usize::MAX,
        0 <= from <= start < end <= bytes.len(),
        is_cut(bytes, start, end),
        region_so_far(bytes, encode_utf8(cfg.backlinks_heading), state, d, from),
    ensures
        region_so_far(
            bytes,
            encode_utf8(cfg.backlinks_heading),
            step(cfg, state, bytes.subrange(start, end), start, d).0,
            step(cfg, state, bytes.subrange(start, end), start, d).1,
            end,
        ),
{
    reveal(step);
}

/// What a parser is configured with.
pub struct ParserView {
    /// The pattern of an identifier, as configured.
    pub id_pattern: Seq<char>,
    /// The line that opens the backlinks section.
    pub backlinks_heading: Seq<char>,
}

/// A parser: the compiled expressions and the backlinks heading.
pub struct NoteParser {
    id_pattern: String,
    id_expr: regex::Regex,
    yaml_title_expr: regex::Regex,
    task_expr: regex::Regex,
    indented_list_expr: regex::Regex,
    backlinks_heading: String,
}

impl View for NoteParser {
    type V = ParserView;

    closed spec fn view(&self) -> ParserView {
        ParserView { id_pattern: self.id_pattern@, backlinks_heading: self.backlinks_heading@ }
    }
}

impl NoteParser {
    /// Every expression was compiled from the pattern it stands for.
    #[verifier::type_invariant]
    pub closed spec fn wf(&self) -> bool {
        &&& pattern_of(&self.id_expr) == id_expr_pattern(self.id_pattern@)
        &&& pattern_of(&self.yaml_title_expr) == yaml_title_pattern()
        &&& pattern_of(&self.task_expr) == task_pattern()
        &&& pattern_of(&self.indented_list_expr) == indented_list_pattern()
    }

    /// Whether a parser can be made for this identifier pattern: the
    /// expression built round it and the three fixed ones must compile.
    pub open spec fn accepts(id_pattern: Seq<char>) -> bool {
        &&& pattern_compiles(id_expr_pattern(id_pattern))
        &&& pattern_compiles(yaml_title_pattern())
        &&& pattern_compiles(task_pattern())
        &&& pattern_compiles(indented_list_pattern())
    }

    /// Makes a parser for an identifier pattern and a backlinks heading. Where
    /// the expression built round the identifier pattern does not compile, the
    /// error says that the identifier format cannot be read.
    pub fn new(id_pattern: &str, backlinks_heading: &str) -> (r: Result<NoteParser, &'static str>)
        ensures
            r is Ok <==> Self::accepts(id_pattern@),
            r matches Ok(p) ==> p.wf() && p@.id_pattern == id_pattern@ && p@.backlinks_heading
                == backlinks_heading@,
            !pattern_compiles(id_expr_pattern(id_pattern@)) ==> (r matches Err(e) && e@
                == "Cannot parse ID format as regular expression"@),
    {
        let mut id_expr_str = String::new();
        id_expr_str.append("(?:\\A|\\s)(");
        id_expr_str.append(id_pattern);
        id_expr_str.append(")(?:\\z|\\b)");
        assert(id_expr_str@ =~= id_expr_pattern(id_pattern@));
        let id_expr = match compile(id_expr_str.as_str()) {
            Ok(expr) => expr,
            Err(_) => return Err("Cannot parse ID format as regular expression"),
        };
        let yaml_title_expr = match compile(
            "\\A\\s*['\"]?title['\"]?\\s*: \\s*['\"]?([^'\"]+)['\"]?\\z",
        ) {
            Ok(expr) => expr,
            Err(_) => return Err("Cannot compile the title expression"),
        };
        let task_expr = match compile("\\A\\s*[-+*]\\s+\\[ \\]\\s+(.+?)\\z") {
            Ok(expr) => expr,
            Err(_) => return Err("Cannot compile the task expression"),
        };
        let indented_list_expr = match compile("\\A\\s+([-+*]|\\d+\\.)\\s.+\\z") {
            Ok(expr) => expr,
            Err(_) => return Err("Cannot compile the list expression"),
        };
        Ok(
            NoteParser {
                id_pattern: id_pattern.to_owned(),
                id_expr,
                yaml_title_expr,
                task_expr,
                indented_list_expr,
                backlinks_heading: backlinks_heading.to_owned(),
            },
        )
    }

    /// The line that opens the backlinks section.
    pub fn backlinks_heading(&self) -> (r: &str)
        ensures
            r@ == self@.backlinks_heading,
    {
        self.backlinks_heading.as_str()
    }

    /// The first identifier in a text.
    pub fn get_id(&self, text: &str) -> (r: Option<String>)
        ensures
            r is Some <==> first_capture(id_expr_pattern(self@.id_pattern), text@) is Some,
            r matches Some(id) ==> id@ == first_capture(
                id_expr_pattern(self@.id_pattern),
                text@,
            ).unwrap(),
    {
        proof {
            use_type_invariant(self);
        }
        capture_first(&self.id_expr, text)
    }

    /// Whether a text holds an identifier.
    pub fn is_id(&self, text: &str) -> (r: bool)
        ensures
            r == pattern_matches(id_expr_pattern(self@.id_pattern), text@),
    {
        proof {
            use_type_invariant(self);
        }
        is_match(&self.id_expr, text)
    }

    /// The text without its first identifier and without the whitespace
    /// round what is left.
    pub fn remove_id(&self, text: &str) -> (r: String)
        ensures
            r@ == trimmed(
                first_replaced(id_expr_pattern(self@.id_pattern), text@, Seq::<char>::empty()),
            ),
    {
        proof {
            use_type_invariant(self);
            reveal_strlit("");
            assert(""@ =~= Seq::<char>::empty());
        }
        let without = replace_first(&self.id_expr, text, "");
        trim(without.as_str())
    }
    /// Parses the text of a note.
    pub fn parse(&self, text: &str) -> (r: NoteData)
        ensures
            r@ == parsed(self@, text.spec_bytes()),
            is_region(
                text.spec_bytes(),
                encode_utf8(self@.backlinks_heading),
                r.backlinks_start,
                r.backlinks_end,
            ),
    {
        broadcast use encode_utf8_valid_utf8;

        let mut data = NoteData {
            titles: Vec::new(),
            ids: Vec::new(),
            links: Vec::new(),
            tasks: Vec::new(),
            backlinks_start: None,
            backlinks_end: None,
        };
        assert(texts(data.titles@) =~= seq![]);
        assert(texts(data.ids@) =~= seq![]);
        assert(texts(data.tasks@) =~= seq![]);
        assert(keys(data.links@) =~= seq![]);
        let mut state = ParseState::Initial;
        let bom = starts_with_bom(text);
        let ghost bytes = text.spec_bytes();
        let total = text.as_bytes().len();
        assert(bytes.len() == total);
        let ghost mut done: Seq<(int, int)> = seq![];
        let ghost mut from: int = bom as int;
        proof {
            if has_bom(bytes) {
                reveal_with_fuel(is_char_boundary, 2);
                assert(is_char_boundary(bytes, 3));
            }
            assert(done + lines(bytes, from) =~= lines(bytes, from));
        }
        let mut line = find_first_line(text, bom);
        loop
            invariant
                bytes == text.spec_bytes(),
                valid_utf8(bytes),
                bytes.len() <= usize::MAX,
                0 <= from <= bytes.len(),
                is_char_boundary(bytes, from),
                crate::lines::same_span(line, line_at(bytes, from)),
                lines(bytes, if has_bom(bytes) { 3int } else { 0int }) == done + lines(bytes, from),
                (state, data@) == run(self@, bytes, done),
                region_so_far(bytes, encode_utf8(self@.backlinks_heading), state, data@, from),
            ensures
                data@ == parsed(self@, bytes),
                is_region(
                    bytes,
                    encode_utf8(self@.backlinks_heading),
                    data.backlinks_start,
                    data.backlinks_end,
                ),
            decreases bytes.len() - from,
        {
            let (start, end) = match line {
                Some(span) => span,
                None => {
                    assert(done + lines(bytes, from) =~= done);
                    break ;
                },
            };
            proof {
                lemma_line_at(bytes, from);
                assert(first_newline(bytes, end as int) == end);
                assert(line_after(bytes, end as int) == line_at(bytes, end as int));
                assert(done + (seq![(start as int, end as int)] + lines(bytes, end as int))
                    =~= done.push(
                    (start as int, end as int),
                ) + lines(bytes, end as int));
                assert(done.push((start as int, end as int)).drop_last() =~= done);
                lemma_step_region(self@, state, bytes, start as int, end as int, data@, from);
            }
            let ln = slice(text, start, end);
            state = self.step_line(state, ln, start, &mut data);
            proof {
                done = done.push((start as int, end as int));
                from = end as int;
            }
            line = find_next_line(text, end);
        }
        data
    }

    /// Takes one line in the given state.
    fn step_line(&self, state: ParseState, ln: &str, start: usize, data: &mut NoteData) -> (r:
        ParseState)
        requires
            ln.spec_bytes().len() > 0,
        ensures
            (r, final(data)@) == step(self@, state, ln.spec_bytes(), start as int, old(data)@),
    {
        let b = ln.as_bytes();
        let n = b.len();
        assert(b@.subrange(0, n as int) =~= b@);
        proof {
            reveal(step);
        }
        match state {
            ParseState::Initial => {
                if has_run_at(b, 0, n, HYPHEN, 3) {
                    ParseState::Yaml
                } else {
                    self.regular_line(ln, start, data)
                }
            },
            ParseState::Yaml => {
                if has_run_at(b, 0, n, HYPHEN, 3) || has_run_at(b, 0, n, FULL_STOP, 3) {
                    ParseState::Regular
                } else if b[0] == HASH {
                    ParseState::Yaml
                } else {
                    if n > 7 {
                        add_capture(&self.yaml_title_expr, ln, &mut data.titles);
                        proof {
                            use_type_invariant(self);
                        }
                    }
                    self.add_id(ln, &mut data.ids);
                    self.add_links(ln, &mut data.links);
                    ParseState::Yaml
                }
            },
            ParseState::Regular => self.regular_line(ln, start, data),
            ParseState::CodeBlock(token) => {
                if has_run_at(b, 0, n, token, 3) {
                    ParseState::Regular
                } else {
                    state
                }
            },
            ParseState::BackLinks => {
                if b[0] == HYPHEN || b[0] == PLUS || b[0] == ASTERISK {
                    ParseState::BackLinks
                } else {
                    data.backlinks_end = Some(start);
                    self.regular_line(ln, start, data)
                }
            },
        }
    }

    /// Takes one line of the body.
    fn regular_line(&self, ln: &str, start: usize, data: &mut NoteData) -> (r: ParseState)
        requires
            ln.spec_bytes().len() > 0,
        ensures
            (r, final(data)@) == regular_step(self@, ln.spec_bytes(), start as int, old(data)@),
    {
        broadcast use encode_utf8_valid_utf8, encode_utf8_decode_utf8;

        proof {
            use_type_invariant(self);
        }
        let b = ln.as_bytes();
        let n = b.len();
        assert(b@.subrange(0, n as int) =~= b@);
        if n > 2 && b[0] == HASH && b[1] == SPACE {
            proof {
                lemma_ascii_boundary(b@, 1);
                lemma_ends_are_boundaries(b@);
            }
            let rest = slice(ln, 2, n);
            let stripped = NoteParser::strip_heading_attributes(rest);
            let plain = trim_end(stripped);
            let open = trim_end(strip_closing_hashes(plain.as_str()));
            let title = escape_markdown(open.as_str());
            let ghost before = data.titles@;
            data.titles.push(title);
            assert(texts(data.titles@) =~= texts(before).push(heading_title(b@)));
            self.add_id(ln, &mut data.ids);
            self.add_links(ln, &mut data.links);
            ParseState::Regular
        } else if (b[0] == TAB || has_run_at(b, 0, n, SPACE, 4)) && !is_match(&self.indented_list_expr, ln) {
            ParseState::Regular
        } else if has_run_at(b, 0, n, BACKTICK, 3) || has_run_at(b, 0, n, TILDE, 3) {
            ParseState::CodeBlock(b[0])
        } else if bytes_equal(b, self.backlinks_heading.as_str().as_bytes()) {
            data.backlinks_start = Some(start);
            data.backlinks_end = None;
            ParseState::BackLinks
        } else {
            self.add_id(ln, &mut data.ids);
            self.add_links(ln, &mut data.links);
            if n > 4 && contains_byte(b, LEFT_BRACKET) {
                add_capture(&self.task_expr, ln, &mut data.tasks);
            }
            ParseState::Regular
        }
    }

    /// Adds the identifier of a line, if it has one.
    fn add_id(&self, ln: &str, ids: &mut Vec<String>)
        ensures
            texts(final(ids)@) == with_capture(
                texts(old(ids)@),
                id_expr_pattern(self@.id_pattern),
                ln.spec_bytes(),
            ),
    {
        proof {
            use_type_invariant(self);
        }
        add_capture(&self.id_expr, ln, ids);
    }

    /// Adds the links of a line.
    fn add_links(&self, ln: &str, links: &mut Vec<WikiLink>)
        ensures
            keys(final(links)@) == keys(old(links)@) + wikilinks(self@.id_pattern, ln.spec_bytes()),
    {
        match self.get_wiki_links(ln) {
            Some(mut found) => {
                let ghost before = links@;
                let ghost added = found@;
                links.append(&mut found);
                assert(keys(links@) =~= keys(before) + keys(added));
            },
            None => {
                assert(keys(links@) + Seq::<LinkKey>::empty() =~= keys(links@));
            },
        }
    }

    /// Removes the attribute block at the end of a heading (`{#id}`).
    pub fn strip_heading_attributes(text: &str) -> (r: &str)
        ensures
            r.spec_bytes() == without_attributes(text.spec_bytes()),
    {
        broadcast use encode_utf8_valid_utf8;

        let b = text.as_bytes();
        let n = b.len();
        if n == 0 || b[n - 1] != RIGHT_BRACE {
            return text;
        }
        let mut k: usize = n;
        assert(b@.subrange(0, n as int) =~= b@);
        while k > 0
            invariant
                b@ == text.spec_bytes(),
                valid_utf8(b@),
                n == b@.len(),
                n > 0,
                b@.last() == RIGHT_BRACE,
                k <= n,
                last_index_of(b@, LEFT_BRACE)
                    == last_index_of(b@.subrange(0, k as int), LEFT_BRACE),
            decreases k,
        {
            k -= 1;
            assert(b@.subrange(0, k + 1).drop_last() =~= b@.subrange(0, k as int));
            assert(b@.subrange(0, k + 1).last() == b@[k as int]);
            if b[k] == LEFT_BRACE {
                proof {
                    lemma_ascii_boundary(b@, k as int);
                    lemma_ends_are_boundaries(b@);
                }
                return slice(text, 0, k);
            }
        }
        text
    }

    /// The wikilinks of a text, in order; `None` where the text holds none,
    /// well-formed or not.
    pub fn get_wiki_links(&self, text: &str) -> (r: Option<Vec<WikiLink>>)
        ensures
            r is Some <==> link_spans(text.spec_bytes(), 0).len() > 0,
            r matches Some(links)
                ==> keys(links@) == wikilinks(self@.id_pattern, text.spec_bytes()),
    {
        broadcast use encode_utf8_valid_utf8;

        let b = text.as_bytes();
        let n = b.len();
        let mut links: Vec<WikiLink> = Vec::new();
        let mut found = false;
        let ghost mut spans: Seq<(int, int)> = seq![];
        let mut i: usize = 0;
        assert(keys(links@) =~= links_at(self@.id_pattern, b@, spans));
        while i < n && n - i >= 5
            invariant
                b@ == text.spec_bytes(),
                n == b@.len(),
                valid_utf8(b@),
                i <= n + 1,
                link_spans(b@, 0) == spans + link_spans(b@, i as int),
                found == (spans.len() > 0),
                keys(links@) == links_at(self@.id_pattern, b@, spans),
            decreases n + 1 - i,
        {
            if b[i] == LEFT_BRACKET && b[i + 1] == LEFT_BRACKET {
                let (close, feed) = find_close(b, i + 2);
                if close < n && !feed {
                    proof {
                        assert(first_close(b@, i + 3) == first_close(b@, i + 2 + 1));
                        lemma_ascii_boundary(b@, i as int + 1);
                        lemma_ascii_boundary(b@, close as int);
                        assert(spans + (seq![(i + 2, close as int)] + link_spans(b@, close + 2))
                            =~= spans.push(
                            (i + 2, close as int),
                        ) + link_spans(b@, close + 2));
                        assert(spans.push((i + 2, close as int)).drop_last() =~= spans);
                    }
                    let inner = slice(text, i + 2, close);
                    let ghost before = links@;
                    if self.is_id(inner) {
                        links.push(WikiLink::Id(inner.to_owned()));
                        assert(keys(links@) =~= keys(before).push(LinkKey::Id(inner@)));
                    } else if !(b[i + 2] == SPACE || b[i + 2] == FULL_STOP || b[close - 1] == SPACE || b[close - 1]
                        == FULL_STOP) {
                        links.push(WikiLink::FileName(inner.to_owned()));
                        assert(keys(links@) =~= keys(before).push(LinkKey::FileName(inner@)));
                    }
                    proof {
                        spans = spans.push((i + 2, close as int));
                    }
                    found = true;
                    i = close + 2;
                } else {
                    i += 1;
                }
            } else {
                i += 1;
            }
        }
        assert(link_spans(b@, i as int) =~= seq![]);
        assert(spans + Seq::<(int, int)>::empty() =~= spans);
        if found {
            Some(links)
        } else {
            None
        }
    }
}

/// Adds what the first group of an expression captures in a line, if it
/// captures anything.
fn add_capture(re: &regex::Regex, ln: &str, found: &mut Vec<String>)
    ensures
        texts(final(found)@) == with_capture(texts(old(found)@), pattern_of(re), ln.spec_bytes()),
{
    broadcast use encode_utf8_decode_utf8;

    match capture_first(re, ln) {
        Some(text) => {
            let ghost before = found@;
            found.push(text);
            assert(texts(found@) =~= texts(before).push(text@));
        },
        None => {},
    }
}

/// Removes the closing sequence of a heading.
fn strip_closing_hashes(text: &str) -> (r: &str)
    ensures
        r.spec_bytes() == without_closing_hashes(text.spec_bytes()),
{
    broadcast use encode_utf8_valid_utf8;

    let b = text.as_bytes();
    let n = b.len();
    let mut k: usize = n;
    assert(b@.subrange(0, n as int) =~= b@);
    while k > 0 && b[k - 1] == HASH
        invariant
            b@ == text.spec_bytes(),
            n == b@.len(),
            k <= n,
            trailing_hashes(b@) == trailing_hashes(b@.subrange(0, k as int)) + (n - k),
        decreases k,
    {
        assert(b@.subrange(0, k as int).drop_last() =~= b@.subrange(0, k - 1));
        k -= 1;
    }
    if 0 < k && k < n && (b[k - 1] == SPACE || b[k - 1] == TAB) {
        proof {
            lemma_ascii_boundary(b@, k - 1);
            lemma_ends_are_boundaries(b@);
        }
        slice(text, 0, k)
    } else {
        text
    }
}

/// Whether the byte occurs in the line.
fn contains_byte(b: &[u8], byte: u8) -> (r: bool)
    ensures
        r == has_byte(b@, byte),
{
    let mut k: usize = 0;
    while k < b.len()
        invariant
            k <= b@.len(),
            forall|j: int| 0 <= j < k ==> b@[j] != byte,
        decreases b.len() - k,
    {
        if b[k] == byte {
            return true;
        }
        k += 1;
    }
    false
}

/// Finds the first `]]` at or after `from + 1` and, where there is one, tells
/// whether a line feed stands between `from` and it.
fn find_close(b: &[u8], from: usize) -> (r: (usize, bool))
    requires
        from + 1 <= b@.len(),
    ensures
        r.0 == first_close(b@, from + 1),
        from + 1 <= r.0 <= b@.len(),
        r.0 < b@.len() ==> r.0 + 2 <= b@.len() && b@[r.0 as int] == RIGHT_BRACKET && b@[r.0 + 1]
            == RIGHT_BRACKET,
        r.0 < b@.len() ==> r.1 == has_line_feed(b@, from as int, r.0 as int),
{
    let n = b.len();
    let mut feed = b[from] == LINE_FEED;
    let mut j: usize = from + 1;
    assert(feed == has_line_feed(b@, from as int, j as int)) by {
        if has_line_feed(b@, from as int, j as int) {
            let k = choose|k: int| from <= k < j && #[trigger] b@[k] == LINE_FEED;
            assert(k == from);
        }
    }
    while j < n && n - j >= 2
        invariant
            n == b@.len(),
            from + 1 <= j <= n,
            first_close(b@, from + 1) == first_close(b@, j as int),
            feed == has_line_feed(b@, from as int, j as int),
        decreases n - j,
    {
        if b[j] == RIGHT_BRACKET && b[j + 1] == RIGHT_BRACKET {
            return (j, feed);
        }
        let ghost was = feed;
        if b[j] == LINE_FEED {
            feed = true;
        }
        assert(feed == has_line_feed(b@, from as int, j + 1)) by {
            if has_line_feed(b@, from as int, j + 1) && !feed {
                let k = choose|k: int| from <= k < j + 1 && #[trigger] b@[k] == LINE_FEED;
                assert(k < j);
            }
            if was {
                let k = choose|k: int| from <= k < j && #[trigger] b@[k] == LINE_FEED;
                assert(from <= k < j + 1 && b@[k] == LINE_FEED);
            }
        }
        j += 1;
    }
    proof {
        lemma_first_close(b@, j as int);
    }
    (n, feed)
}

/// Removes the backslash in front of every character that it escapes.
pub fn escape_markdown(text: &str) -> (r: String)
    ensures
        r@ == unescaped(text@),
{
    let mut out = String::new();
    let mut pending = false;
    assert(text@.subrange(0, text@.len() as int) =~= text@);
    assert(Seq::<char>::empty() + text@ =~= text@);
    for c in it: text.chars()
        invariant
            it.seq() == text@,
            unescaped(text@) == out@ + unescaped(
                (if pending {
                    seq!['\\']
                } else {
                    Seq::<char>::empty()
                }) + text@.subrange(it.index() as int, text@.len() as int),
            ),
    {
        let ghost rest = text@.subrange(it.index() as int, text@.len() as int);
        let ghost next = text@.subrange(it.index() + 1, text@.len() as int);
        assert(rest[0] == c);
        assert(rest.drop_first() =~= next);
        if pending {
            let ghost s = seq!['\\'] + rest;
            assert(s[0] == '\\' && s[1] == c && s.len() >= 2);
            assert(s.drop_first() =~= rest);
            assert(s.subrange(2, s.len() as int) =~= next);
            if is_escapable_char(c) {
                out.push(c);
                assert(unescaped(s) == seq![c] + unescaped(next));
            } else {
                out.push('\\');
                out.push(c);
                assert(unescaped(s) == seq!['\\'] + unescaped(rest));
                assert(unescaped(rest) == seq![c] + unescaped(next));
            }
            pending = false;
            assert(Seq::<char>::empty() + next =~= next);
            assert(unescaped(text@) =~= out@ + unescaped(next));
        } else if c == '\\' {
            pending = true;
            assert(Seq::<char>::empty() + rest =~= rest);
            assert(seq!['\\'] + next =~= rest);
        } else {
            out.push(c);
            assert(Seq::<char>::empty() + rest =~= rest);
            assert(Seq::<char>::empty() + next =~= next);
            assert(unescaped(rest) == seq![c] + unescaped(next));
            assert(unescaped(text@) =~= out@ + unescaped(next));
        }
    }
    let ghost none = Seq::<char>::empty();
    assert(text@.subrange(text@.len() as int, text@.len() as int) =~= none);
    assert(unescaped(none) =~= none);
    if pending {
        let ghost one = seq!['\\'];
        assert(one + none =~= one);
        assert(one.drop_first() =~= none);
        assert(unescaped(one) =~= seq![one[0]] + unescaped(one.drop_first()));
        out.push('\\');
    } else {
        assert(none + none =~= none);
    }
    assert(out@ =~= unescaped(text@));
    out
}

/// Whether a backslash escapes the character.
fn is_escapable_char(c: char) -> (r: bool)
    ensures
        r == is_escapable(c),
{
    c == '\\' || c == '`' || c == '*' || c == '_' || c == '{' || c == '}' || c == '[' || c == ']'
        || c == '<' || c == '>' || c == '(' || c == ')' || c == '#' || c == '+' || c == ','
        || c == '-' || c == '.' || c == '!' || c == '|'
}

} // verus!
