//! The selectable note list: the items on show, which one is
//! selected, and how the selection moves.  Rendering belongs to the
//! application around the library; the state transitions live here.

use crate::note::Note;
use vstd::prelude::*;
use vstd::string::StringExecFns;

verus! {

/// A direction the selection can move in.
#[derive(Debug, Clone, Copy)]
pub enum Direction {
    Up,
    Down,
}

/// Rendering of markdown text; the application implements this for
/// its widget type.
pub trait UIMarkdown {
    fn markdown(&mut self, markdown: &str);
}

/// A list of notes with an optional selection.
pub struct SelectableList {
    pub items: Vec<Note>,
    pub selected_item: Option<usize>,
    pub show_preview_under: bool,
}

/// Where the selection stands after moving in `direction`: `Down`
/// advances to the next item, or to the first when nothing is
/// selected; `Up` retreats to the previous one; at either end, and on
/// an empty list, the selection stays.
pub open spec fn move_selection_spec(
    len: nat,
    sel: Option<usize>,
    direction: Direction,
) -> Option<usize> {
    match direction {
        Direction::Down => match sel {
            Some(k) => if len > 0 && (k as nat) < (len - 1) as nat {
                Some((k + 1) as usize)
            } else {
                sel
            },
            None => if len > 0 {
                Some(0usize)
            } else {
                None
            },
        },
        Direction::Up => match sel {
            Some(k) => if k > 0 {
                Some((k - 1) as usize)
            } else {
                sel
            },
            None => None,
        },
    }
}

/// The text copied for a note: a markdown heading with the title,
/// then the body.
pub open spec fn copy_text_spec(n: Note) -> Seq<char> {
    seq!['#', ' '] + n.title@ + seq!['\n', '\n'] + n.body@
}

/// The text printed for a note: a markdown link from its title to
/// its identifier.
pub open spec fn link_text_spec(n: Note) -> Seq<char> {
    seq!['['] + n.title@ + seq![']', '(', ':', '/'] + n.id@ + seq![')']
}

impl SelectableList {
    /// A fresh list: nothing selected, preview hidden.
    pub fn new(items: Vec<Note>) -> (r: Self)
        ensures
            r.items == items,
            r.selected_item is None,
            r.show_preview_under == false,
    {
        SelectableList { items, selected_item: None, show_preview_under: false }
    }

    /// Moves the selection one step as [`move_selection_spec`] says;
    /// the items themselves never change.
    pub fn move_selection(&mut self, direction: Direction)
        ensures
            final(self).items == old(self).items,
            final(self).show_preview_under == old(self).show_preview_under,
            final(self).selected_item == move_selection_spec(
                old(self).items@.len(),
                old(self).selected_item,
                direction,
            ),
    {
        match (direction, self.selected_item) {
            (Direction::Down, Some(selected)) => {
                if self.items.len() > 0 && selected < self.items.len() - 1 {
                    self.selected_item = Some(selected + 1);
                }
            },
            (Direction::Down, None) => {
                if self.items.len() > 0 {
                    self.selected_item = Some(0);
                }
            },
            (Direction::Up, Some(selected)) => {
                if selected > 0 {
                    self.selected_item = Some(selected - 1);
                }
            },
            (Direction::Up, None) => {},
        }
    }

    /// The clipboard text for the selected note: a heading with its
    /// title, then its body; `None` when no valid item is selected.
    pub fn selected_copy_text(&self) -> (r: Option<String>)
        ensures
            match self.selected_item {
                Some(k) => if (k as nat) < self.items@.len() {
                    r matches Some(t) && t@ == copy_text_spec(self.items@[k as int])
                } else {
                    r is None
                },
                None => r is None,
            },
    {
        match self.selected_item {
            Some(k) => {
                if k < self.items.len() {
                    let note = &self.items[k];
                    let mut t = String::new();
                    t.append("# ");
                    t.append(note.title.as_str());
                    t.append("\n\n");
                    t.append(note.body.as_str());
                    proof {
                        reveal_strlit("# ");
                        reveal_strlit("\n\n");
                        assert("# "@ =~= seq!['#', ' ']);
                        assert("\n\n"@ =~= seq!['\n', '\n']);
                        assert(t@ =~= copy_text_spec(self.items@[k as int]));
                    }
                    Some(t)
                } else {
                    None
                }
            },
            None => None,
        }
    }

    /// The stdout line for the selected note: a markdown link from
    /// its title to its identifier; `None` when no valid item is
    /// selected.
    pub fn selected_link_text(&self) -> (r: Option<String>)
        ensures
            match self.selected_item {
                Some(k) => if (k as nat) < self.items@.len() {
                    r matches Some(t) && t@ == link_text_spec(self.items@[k as int])
                } else {
                    r is None
                },
                None => r is None,
            },
    {
        match self.selected_item {
            Some(k) => {
                if k < self.items.len() {
                    let note = &self.items[k];
                    let mut t = String::new();
                    t.append("[");
                    t.append(note.title.as_str());
                    t.append("](:/");
                    t.append(note.id.as_str());
                    t.append(")");
                    proof {
                        reveal_strlit("[");
                        reveal_strlit("](:/");
                        reveal_strlit(")");
                        assert("["@ =~= seq!['[']);
                        assert("](:/"@ =~= seq![']', '(', ':', '/']);
                        assert(")"@ =~= seq![')']);
                        assert(t@ =~= link_text_spec(self.items@[k as int]));
                    }
                    Some(t)
                } else {
                    None
                }
            },
            None => None,
        }
    }
}

} // verus!
