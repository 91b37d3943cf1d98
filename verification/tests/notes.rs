//! Tests of the note types, the selectable list, and the filtered
//! note view.

use noteapp::bm25::sort_notes_trigram;
use noteapp::cli::Cli;
use noteapp::cli::Commands;
use noteapp::list::Direction;
use noteapp::list::SelectableList;
use noteapp::note::note_text;
use noteapp::note::Note;
use noteapp::ui::update_filtered_notes;

fn note(title: &str, body: &str, id: &str) -> Note {
    Note {
        title: title.to_string(),
        body: body.to_string(),
        id: id.to_string(),
    }
}

#[test]
fn test_note_text_joins_title_and_body() {
    let n = note("Pi", "ratio of circumference to diameter", "n1");
    assert_eq!(note_text(&n), "Pi ratio of circumference to diameter");
}

#[test]
fn test_sort_notes_trigram_ranks_matching_note_first() {
    let notes = vec![
        note("Golden Ratio", "the golden ratio", "n1"),
        note("Fibonacci", "a number sequence", "n2"),
        note("Pi", "another constant", "n3"),
    ];
    let sorted = sort_notes_trigram(&notes, "fibonacci");
    assert_eq!(sorted[0].id, "n2");
    assert_eq!(sorted.len(), 3);
}

#[test]
fn test_sort_notes_trigram_keeps_duplicates_apart() {
    // Two notes with identical text are both returned, in their
    // original relative order.
    let notes = vec![
        note("same", "text", "first"),
        note("same", "text", "second"),
    ];
    let sorted = sort_notes_trigram(&notes, "same");
    assert_eq!(sorted[0].id, "first");
    assert_eq!(sorted[1].id, "second");
}

#[test]
fn test_update_filtered_notes_title_filter() {
    let notes = vec![
        note("Pythagorean Theorem", "a right triangle", "n1"),
        note("Golden Ratio", "phi", "n2"),
        note("Fibonacci Sequence", "0 1 1 2 3 5 8", "n3"),
    ];
    let filtered = update_filtered_notes(&notes, "golden", "");
    assert_eq!(filtered[0].id, "n2");
    assert_eq!(filtered.len(), 3);
}

#[test]
fn test_update_filtered_notes_body_filter() {
    let notes = vec![
        note("Pythagorean Theorem", "a right triangle", "n1"),
        note("Golden Ratio", "phi", "n2"),
        note("Fibonacci Sequence", "0 1 1 2 3 5 8", "n3"),
    ];
    let filtered = update_filtered_notes(&notes, "", "triangle");
    assert_eq!(filtered[0].id, "n1");
}

#[test]
fn test_sort_notes_trigram_spans_title_body_boundary() {
    // The ranked text is "title body": a trigram can straddle the
    // joining space.
    let notes = vec![note("xy", "zw", "n1"), note("ab", "cd", "n2")];
    let sorted = sort_notes_trigram(&notes, "b c");
    assert_eq!(sorted[0].id, "n2");
}

#[test]
fn test_update_filtered_notes_both_filters() {
    let notes = vec![
        note("alpha", "first entry", "n1"),
        note("alphabet", "second entry", "n2"),
        note("gamma", "third entry", "n3"),
    ];
    // Title filter ranks the two alpha titles first; the body filter
    // then ranks "second entry" ahead.
    let filtered = update_filtered_notes(&notes, "alpha", "second");
    assert_eq!(filtered[0].id, "n2");
    assert_eq!(filtered.len(), 3);
}

#[test]
fn test_update_filtered_notes_no_filters_keeps_order() {
    let notes = vec![note("b", "x", "n1"), note("a", "y", "n2")];
    let filtered = update_filtered_notes(&notes, "", "");
    assert_eq!(filtered[0].id, "n1");
    assert_eq!(filtered[1].id, "n2");
}

#[test]
fn test_move_selection() {
    let notes = vec![note("a", "", "n1"), note("b", "", "n2")];
    let mut list = SelectableList::new(notes);
    assert_eq!(list.selected_item, None);
    list.move_selection(Direction::Up);
    assert_eq!(list.selected_item, None);
    list.move_selection(Direction::Down);
    assert_eq!(list.selected_item, Some(0));
    list.move_selection(Direction::Down);
    assert_eq!(list.selected_item, Some(1));
    list.move_selection(Direction::Down);
    assert_eq!(list.selected_item, Some(1));
    list.move_selection(Direction::Up);
    assert_eq!(list.selected_item, Some(0));
    list.move_selection(Direction::Up);
    assert_eq!(list.selected_item, Some(0));
}

#[test]
fn test_move_selection_empty_list() {
    let mut list = SelectableList::new(Vec::new());
    list.move_selection(Direction::Down);
    assert_eq!(list.selected_item, None);
    list.move_selection(Direction::Up);
    assert_eq!(list.selected_item, None);
}

#[test]
fn test_selected_copy_text() {
    let notes = vec![note("Pi", "a constant", "n1")];
    let mut list = SelectableList::new(notes);
    assert_eq!(list.selected_copy_text(), None);
    list.move_selection(Direction::Down);
    assert_eq!(list.selected_copy_text(), Some("# Pi\n\na constant".to_string()));
}

#[test]
fn test_selected_link_text() {
    let notes = vec![note("Pi", "a constant", "abc123")];
    let mut list = SelectableList::new(notes);
    assert_eq!(list.selected_link_text(), None);
    list.move_selection(Direction::Down);
    assert_eq!(list.selected_link_text(), Some("[Pi](:/abc123)".to_string()));
}

#[test]
fn test_cli_data() {
    let cli = Cli {
        database: "notes.db".to_string(),
        command: Some(Commands::Search {
            query: "pi".to_string(),
        }),
    };
    assert_eq!(cli.database, "notes.db");
    match cli.command {
        Some(Commands::Search { query }) => assert_eq!(query, "pi"),
        _ => panic!("expected the search command"),
    }
}
