//! Notes: a file, and what the parser and the rules of identity make of it.
use crate::link::{LinkKey, WikiLink};
use crate::mdparse::{
    id_expr_pattern, is_region, keys, parsed, texts, NoteData, NoteDataView, NoteParser,
    ParserView,
};
use crate::pattern::{first_capture, first_replaced};
use crate::text::{
    byte_slice, lemma_ends_are_boundaries, lowercase, slice, str_equal, to_lowercase, trim,
    trim_end, trimmed, trimmed_end,
};
use std::hash::{Hash, Hasher};
use vstd::prelude::*;
use vstd::std_specs::cmp::PartialEqSpecImpl;
use vstd::string::*;
use vstd::utf8::*;

verus! {

/// One note file, as read: never changed in place, only superseded.
#[derive(Debug)]
pub struct NoteFile {
    /// Full path to file
    pub path: String,
    /// Filename without path and extension
    pub stem: String,
    /// Filename extension without leading dot
    pub extension: String,
    /// File contents
    pub content: String,
}

/// A note file as a value.
pub struct FileView {
    pub path: Seq<char>,
    pub stem: Seq<char>,
    pub extension: Seq<char>,
    pub content: Seq<char>,
}

impl View for NoteFile {
    type V = FileView;

    open spec fn view(&self) -> FileView {
        FileView {
            path: self.path@,
            stem: self.stem@,
            extension: self.extension@,
            content: self.content@,
        }
    }
}

/// Whether a character may not stand in a file name: what a file system
/// reserves, and the control characters.
pub open spec fn is_illegal(c: char) -> bool {
    c == '<' || c == '>' || c == ':' || c == '*' || c == '?' || c == '|' || c == '/' || c == '"'
        || c == '\\' || c <= '\u{1f}' || ('\u{7f}' <= c && c <= '\u{9f}')
}

/// A text with a space in place of each illegal character.
pub open spec fn blanked(s: Seq<char>) -> Seq<char> {
    s.map_values(|c: char| if is_illegal(c) { ' ' } else { c })
}

/// A text without the dots at its start.
pub open spec fn without_leading_dots(s: Seq<char>) -> Seq<char>
    decreases s.len(),
{
    if s.len() > 0 && s[0] == '.' {
        without_leading_dots(s.drop_first())
    } else {
        s
    }
}

/// A text without the dots at its end.
pub open spec fn without_trailing_dots(s: Seq<char>) -> Seq<char>
    decreases s.len(),
{
    if s.len() > 0 && s.last() == '.' {
        without_trailing_dots(s.drop_last())
    } else {
        s
    }
}

/// A text without the dots at its start and without the dots at its end.
pub open spec fn without_dots(s: Seq<char>) -> Seq<char> {
    without_trailing_dots(without_leading_dots(s))
}

/// A text with one space in place of each run of spaces.
pub open spec fn collapsed(s: Seq<char>) -> Seq<char>
    decreases s.len(),
{
    if s.len() == 0 {
        s
    } else if s[0] == ' ' && s.len() >= 2 && s[1] == ' ' {
        collapsed(s.drop_first())
    } else {
        seq![s[0]] + collapsed(s.drop_first())
    }
}

/// The file name that a text makes: illegal characters become spaces, the
/// dots at either end go, runs of spaces shrink to one space, and the
/// whitespace at either end goes.
pub open spec fn cleaned(s: Seq<char>) -> Seq<char> {
    trimmed(collapsed(without_dots(blanked(s))))
}

/// What is written to disk for the given contents: the contents without the
/// whitespace at their end, and one line feed.
pub open spec fn saved_text(contents: Seq<char>) -> Seq<char> {
    trimmed_end(contents).push('\n')
}

impl NoteFile {
    /// Cleans a file name so that it complies with the rules of Windows, OSX
    /// and Linux: a space stands for each character that a file name cannot
    /// hold, every dot at the start and every dot at the end is taken away,
    /// each run of spaces becomes one space, and at last the whitespace at
    /// both ends is taken away.
    pub fn clean_filename(filename: &str) -> (r: String)
        ensures
            r@ == cleaned(filename@),
    {
        let mut chars: Vec<char> = Vec::new();
        for c in it: filename.chars()
            invariant
                it.seq() == filename@,
                chars@ == blanked(filename@.subrange(0, it.index() as int)),
        {
            let ghost before = filename@.subrange(0, it.index() as int);
            let ghost after = filename@.subrange(0, it.index() + 1);
            assert(after =~= before.push(c));
            if is_illegal_char(c) {
                chars.push(' ');
            } else {
                chars.push(c);
            }
            assert(chars@ =~= blanked(after));
        }
        assert(filename@.subrange(0, filename@.len() as int) =~= filename@);
        let n = chars.len();
        let mut lo: usize = 0;
        assert(chars@.subrange(0, n as int) =~= chars@);
        while lo < n && chars[lo] == '.'
            invariant
                lo <= n,
                n == chars@.len(),
                without_leading_dots(chars@) == without_leading_dots(
                    chars@.subrange(lo as int, n as int),
                ),
            decreases n - lo,
        {
            assert(chars@.subrange(lo as int, n as int).drop_first() =~= chars@.subrange(
                lo + 1,
                n as int,
            ));
            lo += 1;
        }
        let mut hi: usize = n;
        while hi > lo && chars[hi - 1] == '.'
            invariant
                lo <= hi <= n,
                n == chars@.len(),
                without_dots(chars@) == without_trailing_dots(
                    chars@.subrange(lo as int, hi as int),
                ),
            decreases hi - lo,
        {
            assert(chars@.subrange(lo as int, hi as int).drop_last() =~= chars@.subrange(
                lo as int,
                hi - 1,
            ));
            hi -= 1;
        }
        let ghost kept = chars@.subrange(lo as int, hi as int);
        proof {
            assert(without_dots(chars@) == kept);
            assert(kept.subrange(0, kept.len() as int) =~= kept);
        }
        let mut out = String::new();
        let mut i: usize = lo;
        while i < hi
            invariant
                lo <= i <= hi <= n,
                n == chars@.len(),
                kept == chars@.subrange(lo as int, hi as int),
                collapsed(kept) == out@ + collapsed(kept.subrange(i - lo, kept.len() as int)),
            decreases hi - i,
        {
            let ghost rest = kept.subrange(i - lo, kept.len() as int);
            let ghost next = kept.subrange(i - lo + 1, kept.len() as int);
            assert(rest.drop_first() =~= next);
            assert(rest[0] == chars@[i as int]);
            if chars[i] == ' ' && i + 1 < hi && chars[i + 1] == ' ' {
                assert(rest[1] == chars@[i + 1]);
            } else {
                out.push(chars[i]);
                assert(collapsed(rest) == seq![rest[0]] + collapsed(next));
                assert(collapsed(kept) =~= out@ + collapsed(next));
            }
            i += 1;
        }
        assert(kept.subrange(kept.len() as int, kept.len() as int) =~= Seq::<char>::empty());
        assert(out@ =~= collapsed(kept));
        trim(out.as_str())
    }

    /// What `save` writes for the given contents: they always end with one
    /// line feed.
    pub fn text_to_save(contents: &str) -> (r: String)
        ensures
            r@ == saved_text(contents@),
    {
        let mut out = trim_end(contents);
        out.push('\n');
        out
    }

    /// The file that supersedes this one when it is renamed: the same
    /// contents and extension under the new path and stem.
    pub fn rename(&self, new_path: &str, new_stem: &str) -> (r: NoteFile)
        ensures
            r@ == (FileView { path: new_path@, stem: new_stem@, ..self@ }),
    {
        NoteFile {
            path: new_path.to_owned(),
            stem: new_stem.to_owned(),
            extension: self.extension.clone(),
            content: self.content.clone(),
        }
    }

    /// The file that supersedes this one when its contents are rewritten.
    pub fn replace_contents(&self, contents: &str) -> (r: NoteFile)
        ensures
            r@ == (FileView { content: contents@, ..self@ }),
    {
        NoteFile {
            path: self.path.clone(),
            stem: self.stem.clone(),
            extension: self.extension.clone(),
            content: contents.to_owned(),
        }
    }
}

impl Clone for NoteFile {
    fn clone(&self) -> (r: Self)
        ensures
            r@ == self@,
    {
        NoteFile {
            path: self.path.clone(),
            stem: self.stem.clone(),
            extension: self.extension.clone(),
            content: self.content.clone(),
        }
    }
}

/// Whether a character may not stand in a file name.
fn is_illegal_char(c: char) -> (r: bool)
    ensures
        r == is_illegal(c),
{
    c == '<' || c == '>' || c == ':' || c == '*' || c == '?' || c == '|' || c == '/' || c == '"'
        || c == '\\' || c <= '\u{1f}' || ('\u{7f}' <= c && c <= '\u{9f}')
}

/// The text of a link to a note, with the title of the note behind it: the
/// target is the identifier where there is one, else the file stem, and the
/// title is left out where it says the same as the target.
pub open spec fn wikilink_text(id: Option<Seq<char>>, title: Seq<char>, stem: Seq<char>) -> Seq<char> {
    let target = match id {
        Some(i) => i,
        None => stem,
    };
    let description = if title == target {
        Seq::<char>::empty()
    } else {
        title
    };
    trimmed_end("[["@ + target + "]] "@ + description)
}

/// What the library tells of a note to those who only read.
#[derive(PartialEq, Eq, Hash, Debug)]
pub struct NoteMeta {
    pub path: String,
    pub stem: String,
    pub extension: String,
    pub title: String,
    pub id: Option<String>,
}

/// The description of a note as a value.
pub struct MetaView {
    pub path: Seq<char>,
    pub stem: Seq<char>,
    pub extension: Seq<char>,
    pub title: Seq<char>,
    pub id: Option<Seq<char>>,
}

/// The view of an optional string.
pub open spec fn option_text(s: Option<String>) -> Option<Seq<char>> {
    match s {
        Some(text) => Some(text@),
        None => None,
    }
}

impl View for NoteMeta {
    type V = MetaView;

    open spec fn view(&self) -> MetaView {
        MetaView {
            path: self.path@,
            stem: self.stem@,
            extension: self.extension@,
            title: self.title@,
            id: option_text(self.id),
        }
    }
}

impl NoteMeta {
    /// A link to the note with its title, as it is written in a list.
    pub fn get_wikilink_to(&self) -> (r: String)
        ensures
            r@ == wikilink_text(self@.id, self@.title, self@.stem),
    {
        get_wikilink(&self.id, self.title.as_str(), self.stem.as_str())
    }
}

/// A link to a note with its title, from the parts that name the note.
pub fn get_wikilink(id: &Option<String>, title: &str, file_stem: &str) -> (r: String)
    ensures
        r@ == wikilink_text(option_text(*id), title@, file_stem@),
{
    let link_target: &str = match id {
        Some(i) => i.as_str(),
        None => file_stem,
    };
    let mut out = String::new();
    out.append("[[");
    out.append(link_target);
    out.append("]] ");
    if !str_equal(title, link_target) {
        out.append(title);
    }
    assert(out@ =~= "[["@ + link_target@ + "]] "@ + (if title@ == link_target@ {
        Seq::<char>::empty()
    } else {
        title@
    }));
    trim_end(out.as_str())
}

/// A note as a value: its file and what was derived from it.
pub struct NoteView {
    pub file: FileView,
    pub title: Seq<char>,
    pub id: Option<Seq<char>>,
    pub links: Seq<LinkKey>,
    pub tasks: Seq<Seq<char>>,
    pub backlinks_start: Option<usize>,
    pub backlinks_end: Option<usize>,
    pub backlinks_heading: Seq<char>,
}

/// Whether a link addresses the note with the given file stem and
/// identifier, whatever the case of its text.
pub open spec fn is_self_link(stem: Seq<char>, id: Option<Seq<char>>, link: LinkKey) -> bool {
    match link {
        LinkKey::FileName(name) => lowercase(name) == lowercase(stem),
        LinkKey::Id(text) => id matches Some(own) && lowercase(text) == lowercase(own),
    }
}

/// Whether a link that addresses the same note stands in the list.
pub open spec fn has_link(links: Seq<LinkKey>, link: LinkKey) -> bool {
    exists|k: int| 0 <= k < links.len() && (#[trigger] links[k]).folded() == link.folded()
}

/// The links of a note as a set, in the order of their first occurrence:
/// without those that address the note itself, and without a second link to
/// a note already addressed.
pub open spec fn link_set(stem: Seq<char>, id: Option<Seq<char>>, links: Seq<LinkKey>) -> Seq<LinkKey>
    decreases links.len(),
{
    if links.len() == 0 {
        seq![]
    } else {
        let before = link_set(stem, id, links.drop_last());
        if is_self_link(stem, id, links.last()) || has_link(before, links.last()) {
            before
        } else {
            before.push(links.last())
        }
    }
}

/// The identifier of a note: the one in its file stem is preferred to the
/// first one in its contents.
pub open spec fn resolved_id(cfg: ParserView, stem: Seq<char>, d: NoteDataView) -> Option<Seq<char>> {
    match first_capture(id_expr_pattern(cfg.id_pattern), stem) {
        Some(id) => Some(id),
        None => if d.ids.len() > 0 {
            Some(d.ids[0])
        } else {
            None
        },
    }
}

/// The title of a note: the first one in its contents, or else its file stem
/// without the identifier.
pub open spec fn resolved_title(cfg: ParserView, stem: Seq<char>, d: NoteDataView) -> Seq<char> {
    if d.titles.len() > 0 {
        d.titles[0]
    } else {
        trimmed(first_replaced(id_expr_pattern(cfg.id_pattern), stem, Seq::<char>::empty()))
    }
}

/// The note that a parser makes of a file.
pub open spec fn note_of(cfg: ParserView, file: FileView) -> NoteView {
    let d = parsed(cfg, encode_utf8(file.content));
    let id = resolved_id(cfg, file.stem, d);
    NoteView {
        file,
        title: resolved_title(cfg, file.stem, d),
        id,
        links: link_set(file.stem, id, d.links),
        tasks: d.tasks,
        backlinks_start: d.backlinks_start,
        backlinks_end: d.backlinks_end,
        backlinks_heading: cfg.backlinks_heading,
    }
}

impl NoteView {
    /// The bytes of the contents.
    pub open spec fn bytes(self) -> Seq<u8> {
        encode_utf8(self.file.content)
    }

    /// The offset at which the backlinks section ends: where the parser saw
    /// it end, or the end of the contents.
    pub open spec fn region_end(self) -> int {
        match self.backlinks_end {
            Some(e) => e as int,
            None => self.bytes().len() as int,
        }
    }

    /// What every note holds: the offsets describe a backlinks section of
    /// the contents, no link addresses the note itself, and no two links
    /// address the same note.
    pub open spec fn well_formed(self) -> bool {
        &&& is_region(
            self.bytes(),
            encode_utf8(self.backlinks_heading),
            self.backlinks_start,
            self.backlinks_end,
        )
        &&& forall|k: int|
            0 <= k < self.links.len()
                ==> !is_self_link(self.file.stem, self.id, #[trigger] self.links[k])
        &&& forall|j: int, k: int|
            0 <= j < k < self.links.len() ==> (#[trigger] self.links[j]).folded()
                != (#[trigger] self.links[k]).folded()
    }

    /// The contents without the backlinks section.
    pub open spec fn without_backlinks(self) -> Seq<char> {
        match self.backlinks_start {
            Some(start) => byte_slice(self.file.content, 0, start as int) + byte_slice(
                self.file.content,
                self.region_end(),
                self.bytes().len() as int,
            ),
            None => self.file.content,
        }
    }

    /// The contents with a backlinks section of the given heading and body
    /// in place of the old one, or behind everything else where there was
    /// none: what stands before, the heading, the body and what stands
    /// after, with an empty line between each two, and no whitespace at the
    /// end.
    pub open spec fn with_backlinks(self, heading: Seq<char>, body: Seq<char>) -> Seq<char> {
        let before = match self.backlinks_start {
            Some(start) => byte_slice(self.file.content, 0, start as int),
            None => self.file.content,
        };
        let after = match self.backlinks_start {
            Some(_) => byte_slice(self.file.content, self.region_end(), self.bytes().len() as int),
            None => Seq::<char>::empty(),
        };
        trimmed_end(trimmed_end(before) + "\n\n"@ + heading + "\n\n"@ + body + "\n\n"@ + after)
    }

    /// What stands in the backlinks section below its heading, without the
    /// whitespace round it; `None` where the note has no such section.
    pub open spec fn backlinks_body(self) -> Option<Seq<char>> {
        match self.backlinks_start {
            Some(start) => Some(
                trimmed(
                    byte_slice(
                        self.file.content,
                        start + encode_utf8(self.backlinks_heading).len(),
                        self.region_end(),
                    ),
                ),
            ),
            None => None,
        }
    }

    /// The description of the note.
    pub open spec fn meta(self) -> MetaView {
        MetaView {
            path: self.file.path,
            stem: self.file.stem,
            extension: self.file.extension,
            title: self.title,
            id: self.id,
        }
    }
}

/// The link set holds no link to the note itself and no two links to one
/// note, whatever the case of their texts.
pub proof fn lemma_link_set(stem: Seq<char>, id: Option<Seq<char>>, links: Seq<LinkKey>)
    ensures
        forall|k: int|
            0 <= k < link_set(stem, id, links).len() ==> !is_self_link(
                stem,
                id,
                #[trigger] link_set(stem, id, links)[k],
            ),
        forall|j: int, k: int|
            0 <= j < k < link_set(stem, id, links).len() ==> (#[trigger] link_set(
                stem,
                id,
                links,
            )[j]).folded() != (#[trigger] link_set(stem, id, links)[k]).folded(),
    decreases links.len(),
{
    if links.len() > 0 {
        lemma_link_set(stem, id, links.drop_last());
    }
}

/// A note: a file together with the title, identifier, links and tasks that
/// the parser found in it, and the place of its backlinks section.
#[derive(Debug)]
pub struct Note {
    file: NoteFile,
    title: String,
    title_lower: String,
    id: Option<String>,
    links: Vec<WikiLink>,
    tasks: Vec<String>,
    backlinks_start: Option<usize>,
    backlinks_end: Option<usize>,
    backlinks_heading: String,
}

impl View for Note {
    type V = NoteView;

    closed spec fn view(&self) -> NoteView {
        NoteView {
            file: self.file@,
            title: self.title@,
            id: option_text(self.id),
            links: keys(self.links@),
            tasks: texts(self.tasks@),
            backlinks_start: self.backlinks_start,
            backlinks_end: self.backlinks_end,
            backlinks_heading: self.backlinks_heading@,
        }
    }
}

impl Note {
    /// The derived fields fit the file.
    #[verifier::type_invariant]
    pub closed spec fn wf(&self) -> bool {
        &&& self@.well_formed()
        &&& self.title_lower@ == lowercase(self.title@)
    }

    /// Parses a file and settles the identity of the note.
    pub fn new(file: NoteFile, parser: &NoteParser) -> (r: Note)
        ensures
            r@ == note_of(parser@, file@),
            r@.well_formed(),
    {
        let data = parser.parse(file.content.as_str());
        let NoteData { titles, ids, links: found, tasks, backlinks_start, backlinks_end } = data;
        let id = match parser.get_id(file.stem.as_str()) {
            Some(file_id) => Some(file_id),
            None => if ids.len() > 0 {
                Some(ids[0].clone())
            } else {
                None
            },
        };
        let title = if titles.len() > 0 {
            titles[0].clone()
        } else {
            parser.remove_id(file.stem.as_str())
        };
        let mut links: Vec<WikiLink> = Vec::new();
        let mut i: usize = 0;
        assert(found@.subrange(0, 0) =~= Seq::<WikiLink>::empty());
        assert(keys(Seq::<WikiLink>::empty()) =~= Seq::<LinkKey>::empty());
        assert(keys(links@) =~= Seq::<LinkKey>::empty());
        while i < found.len()
            invariant
                i <= found@.len(),
                keys(links@)
                    == link_set(file.stem@, option_text(id), keys(found@.subrange(0, i as int))),
            decreases found.len() - i,
        {
            let link = &found[i];
            proof {
                let upto = keys(found@.subrange(0, i + 1));
                assert(upto.drop_last() =~= keys(found@.subrange(0, i as int)));
                assert(upto.last() == link@);
            }
            if !is_link_to_parts(file.stem.as_str(), &id, link) && !contains_link(&links, link) {
                let ghost before = links@;
                links.push(link.clone());
                assert(keys(links@) =~= keys(before).push(link@));
            }
            i += 1;
        }
        proof {
            assert(found@.subrange(0, found@.len() as int) =~= found@);
            lemma_link_set(file.stem@, option_text(id), keys(found@));
        }
        let title_lower = to_lowercase(title.as_str());
        Note {
            file,
            title,
            title_lower,
            id,
            links,
            tasks,
            backlinks_start,
            backlinks_end,
            backlinks_heading: parser.backlinks_heading().to_owned(),
        }
    }

    /// The file of the note.
    pub fn file(&self) -> (r: &NoteFile)
        ensures
            r@ == self@.file,
    {
        &self.file
    }

    /// The title of the note.
    pub fn title(&self) -> (r: &str)
        ensures
            r@ == self@.title,
    {
        self.title.as_str()
    }

    /// The title of the note in lower case, by which notes are ordered.
    pub fn title_lower(&self) -> (r: &str)
        ensures
            r@ == lowercase(self@.title),
    {
        proof {
            use_type_invariant(self);
        }
        self.title_lower.as_str()
    }

    /// The identifier of the note, if it has one.
    pub fn id(&self) -> (r: &Option<String>)
        ensures
            option_text(*r) == self@.id,
    {
        &self.id
    }

    /// The notes that this one links to: no link twice, none to itself.
    pub fn links(&self) -> (r: &Vec<WikiLink>)
        ensures
            keys(r@) == self@.links,
            self@.well_formed(),
    {
        proof {
            use_type_invariant(self);
        }
        &self.links
    }

    /// The open tasks of the note, in the order found.
    pub fn tasks(&self) -> (r: &Vec<String>)
        ensures
            texts(r@) == self@.tasks,
    {
        &self.tasks
    }

    /// Whether the note has a backlinks section.
    pub fn has_backlinks(&self) -> (r: bool)
        ensures
            r == self@.backlinks_start is Some,
    {
        self.backlinks_start.is_some()
    }

    /// Whether the note links to any other note.
    pub fn has_outgoing_links(&self) -> (r: bool)
        ensures
            r == (self@.links.len() > 0),
    {
        self.links.len() > 0
    }

    /// Returns note contents with the backlinks section left out.
    pub fn get_contents_without_backlinks(&self) -> (r: String)
        ensures
            r@ == self@.without_backlinks(),
            self@.backlinks_start is None ==> r@ == self@.file.content,
    {
        broadcast use encode_utf8_valid_utf8;

        proof {
            use_type_invariant(self);
        }
        let content = self.file.content.as_str();
        match self.backlinks_start {
            Some(start) => {
                let len = content.as_bytes().len();
                let end = match self.backlinks_end {
                    Some(e) => e,
                    None => len,
                };
                proof {
                    lemma_ends_are_boundaries(content.spec_bytes());
                }
                let mut contents = slice(content, 0, start).to_owned();
                contents.append(slice(content, end, len));
                contents
            },
            None => content.to_owned(),
        }
    }

    /// Returns note contents with the backlinks section switched or added.
    pub fn get_contents_with_new_backlinks(&self, heading: &str, backlinks: &str) -> (r: String)
        ensures
            r@ == self@.with_backlinks(heading@, backlinks@),
    {
        broadcast use encode_utf8_valid_utf8;

        proof {
            use_type_invariant(self);
        }
        let content = self.file.content.as_str();
        let len = content.as_bytes().len();
        proof {
            lemma_ends_are_boundaries(content.spec_bytes());
        }
        let (before, after) = match self.backlinks_start {
            Some(start) => {
                let end = match self.backlinks_end {
                    Some(e) => e,
                    None => len,
                };
                (slice(content, 0, start), slice(content, end, len))
            },
            None => (content, slice(content, len, len)),
        };
        proof {
            assert(content.spec_bytes().subrange(len as int, len as int) =~= Seq::<u8>::empty());
            assert(decode_utf8(Seq::<u8>::empty()) =~= Seq::<char>::empty());
        }
        let mut joined = trim_end(before);
        joined.append("\n\n");
        joined.append(heading);
        joined.append("\n\n");
        joined.append(backlinks);
        joined.append("\n\n");
        joined.append(after);
        trim_end(joined.as_str())
    }

    /// Returns backlinks section without the heading, trimmed
    pub fn get_backlinks_section_without_heading(&self) -> (r: Option<String>)
        ensures
            r is Some <==> self@.backlinks_body() is Some,
            r matches Some(body) ==> body@ == self@.backlinks_body().unwrap(),
    {
        broadcast use encode_utf8_valid_utf8;

        proof {
            use_type_invariant(self);
        }
        let content = self.file.content.as_str();
        match self.backlinks_start {
            Some(start) => {
                let len = content.as_bytes().len();
                let end = match self.backlinks_end {
                    Some(e) => e,
                    None => len,
                };
                let skip = self.backlinks_heading.as_str().as_bytes().len();
                proof {
                    lemma_ends_are_boundaries(content.spec_bytes());
                }
                Some(trim(slice(content, start + skip, end)))
            },
            None => None,
        }
    }

    /// Return a copy of the note's meta data
    pub fn get_meta(&self) -> (r: NoteMeta)
        ensures
            r@ == self@.meta(),
    {
        NoteMeta {
            path: self.file.path.clone(),
            stem: self.file.stem.clone(),
            extension: self.file.extension.clone(),
            title: self.title.clone(),
            id: match &self.id {
                Some(id) => Some(id.clone()),
                None => None,
            },
        }
    }

    /// A link to the note with its title, as it is written in a list.
    pub fn get_wikilink_to(&self) -> (r: String)
        ensures
            r@ == wikilink_text(self@.id, self@.title, self@.file.stem),
    {
        get_wikilink(&self.id, self.title.as_str(), self.file.stem.as_str())
    }

    /// The link that addresses the note by its file name.
    pub fn get_filename_link(&self) -> (r: WikiLink)
        ensures
            r@ == LinkKey::FileName(self@.file.stem),
    {
        WikiLink::FileName(self.file.stem.clone())
    }

    /// Whether a link addresses this note.
    pub fn is_link_to(&self, link: &WikiLink) -> (r: bool)
        ensures
            r == is_self_link(self@.file.stem, self@.id, link@),
    {
        is_link_to_parts(self.file.stem.as_str(), &self.id, link)
    }
}

impl PartialEq for Note {
    /// A note is the note of its file: two notes are the same when their
    /// paths are.
    fn eq(&self, other: &Self) -> (r: bool) {
        self.file.path == other.file.path
    }
}

impl PartialEqSpecImpl for Note {
    open spec fn obeys_eq_spec() -> bool {
        true
    }

    open spec fn eq_spec(&self, other: &Self) -> bool {
        self@.file.path == other@.file.path
    }
}

impl Eq for Note {

}

impl Hash for Note {
    /// Hashes the path, by which notes are told apart.
    fn hash<H: Hasher>(&self, state: &mut H) {
        self.file.path.hash(state);
    }
}

/// Whether a link addresses the note with this file stem and identifier.
pub fn is_link_to_parts(stem: &str, id: &Option<String>, link: &WikiLink) -> (r: bool)
    ensures
        r == is_self_link(stem@, option_text(*id), link@),
{
    match link {
        WikiLink::FileName(filename) => {
            let a = to_lowercase(stem);
            let b = to_lowercase(filename.as_str());
            a == b
        },
        WikiLink::Id(text) => match id {
            Some(own) => {
                let a = to_lowercase(own.as_str());
                let b = to_lowercase(text.as_str());
                a == b
            },
            None => false,
        },
    }
}

/// Whether a link that addresses the same note stands in the list.
pub fn contains_link(links: &Vec<WikiLink>, link: &WikiLink) -> (r: bool)
    ensures
        r == has_link(keys(links@), link@),
{
    let mut k: usize = 0;
    while k < links.len()
        invariant
            k <= links@.len(),
            forall|j: int| 0 <= j < k ==> (#[trigger] keys(links@)[j]).folded() != link@.folded(),
        decreases links.len() - k,
    {
        if links[k] == *link {
            assert(keys(links@)[k as int].folded() == link@.folded());
            return true;
        }
        k += 1;
    }
    false
}

} // verus!
