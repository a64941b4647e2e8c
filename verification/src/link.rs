//! Wikilinks: what a note is addressed by.
use crate::text::{lowercase, to_lowercase};
use std::hash::{Hash, Hasher};
use vstd::prelude::*;
use vstd::std_specs::cmp::PartialEqSpecImpl;
use vstd::string::*;

verus! {

/// A reference to a note, by its identifier or by its file name.
#[derive(Debug)]
pub enum WikiLink {
    Id(String),
    FileName(String),
}

/// A wikilink as a value: its kind and its text.
pub enum LinkKey {
    Id(Seq<char>),
    FileName(Seq<char>),
}

impl LinkKey {
    /// The text between the brackets.
    pub open spec fn text(self) -> Seq<char> {
        match self {
            LinkKey::Id(s) => s,
            LinkKey::FileName(s) => s,
        }
    }

    /// The link with its text in lower case: two links address the same note
    /// exactly when their folded forms are equal.
    pub open spec fn folded(self) -> LinkKey {
        match self {
            LinkKey::Id(s) => LinkKey::Id(lowercase(s)),
            LinkKey::FileName(s) => LinkKey::FileName(lowercase(s)),
        }
    }
}

impl View for WikiLink {
    type V = LinkKey;

    open spec fn view(&self) -> LinkKey {
        match self {
            WikiLink::Id(s) => LinkKey::Id(s@),
            WikiLink::FileName(s) => LinkKey::FileName(s@),
        }
    }
}

impl WikiLink {
    /// The text between the brackets.
    pub fn text(&self) -> (r: &str)
        ensures
            r@ == self@.text(),
    {
        match self {
            WikiLink::Id(s) => s.as_str(),
            WikiLink::FileName(s) => s.as_str(),
        }
    }

    /// Whether the link names an identifier.
    pub fn is_id(&self) -> (r: bool)
        ensures
            r == (self@ is Id),
    {
        match self {
            WikiLink::Id(_) => true,
            WikiLink::FileName(_) => false,
        }
    }

    /// The link as it is written in a note: its text in double brackets.
    pub fn to_string(&self) -> (r: String)
        ensures
            r@ == "[["@ + self@.text() + "]]"@,
    {
        let mut out = String::new();
        out.append("[[");
        out.append(self.text());
        out.append("]]");
        assert(out@ =~= "[["@ + self@.text() + "]]"@);
        out
    }
}

impl Clone for WikiLink {
    fn clone(&self) -> (r: Self)
        ensures
            r@ == self@,
    {
        match self {
            WikiLink::Id(s) => WikiLink::Id(s.clone()),
            WikiLink::FileName(s) => WikiLink::FileName(s.clone()),
        }
    }
}

impl PartialEq for WikiLink {
    /// Links are compared without regard to case, and never equal across
    /// kinds.
    fn eq(&self, other: &Self) -> (r: bool) {
        match (self, other) {
            (WikiLink::Id(a), WikiLink::Id(b)) => {
                let x = to_lowercase(a.as_str());
                let y = to_lowercase(b.as_str());
                x == y
            },
            (WikiLink::FileName(a), WikiLink::FileName(b)) => {
                let x = to_lowercase(a.as_str());
                let y = to_lowercase(b.as_str());
                x == y
            },
            _ => false,
        }
    }
}

impl PartialEqSpecImpl for WikiLink {
    open spec fn obeys_eq_spec() -> bool {
        true
    }

    open spec fn eq_spec(&self, other: &Self) -> bool {
        self@.folded() == other@.folded()
    }
}

impl Eq for WikiLink {

}

/// `Hash::hash` of a `String`: feeds the text to the hasher.
pub assume_specification<H: Hasher>[ <String as Hash>::hash::<H> ](s: &String, state: &mut H)
;

impl Hash for WikiLink {
    /// Hashes the lower-case text, so that equal links hash alike.
    fn hash<H: Hasher>(&self, state: &mut H) {
        let folded = to_lowercase(self.text());
        folded.hash(state);
    }
}

} // verus!
