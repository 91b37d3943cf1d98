//! A note: a title, a markdown body, and a stable identifier.

use vstd::prelude::*;
use vstd::string::StringExecFns;

verus! {

/// One stored note.
#[derive(Debug)]
pub struct Note {
    pub title: String,
    pub body: String,
    pub id: String,
}

impl Clone for Note {
    /// Cloning a note keeps its fields.
    fn clone(&self) -> (r: Self)
        ensures
            r == *self,
    {
        Note { title: self.title.clone(), body: self.body.clone(), id: self.id.clone() }
    }
}

/// The text a note is ranked by: its title and body, joined by one
/// space.
pub open spec fn note_text_spec(n: Note) -> Seq<char> {
    n.title@ + seq![' '] + n.body@
}

/// Joins a note's title and body with one space: the document string
/// that stands for the note in ranking.
pub fn note_text(n: &Note) -> (r: String)
    ensures
        r@ == note_text_spec(*n),
{
    let mut t = n.title.clone();
    t.append(" ");
    t.append(n.body.as_str());
    proof {
        reveal_strlit(" ");
        assert(" "@ =~= seq![' ']);
        assert(t@ =~= note_text_spec(*n));
    }
    t
}

} // verus!
