use helix_doc::changeset::{Assoc, ChangeSet, Operation};
use helix_doc::document::{Document, Mode};
use helix_doc::lsp::{changeset_to_changes as to_events, pos_to_lsp_pos, ChangeEvent, Position};
use helix_doc::selection::{Range, Selection};
use helix_doc::text::Text;
use helix_doc::transaction::{State, Transaction};

fn chars(s: &str) -> Vec<char> {
    s.chars().collect()
}

fn text(s: &str) -> Text {
    Text::from_chars(chars(s))
}

fn string_of(t: &Text) -> String {
    t.to_chars().into_iter().collect()
}

fn state_with(s: &str, anchor: usize, head: usize) -> State {
    let mut state = State::new(text(s));
    state.selection = Selection::single(anchor, head);
    state
}

fn event(l0: usize, c0: usize, l1: usize, c1: usize, s: &str) -> ChangeEvent {
    ChangeEvent {
        start: Position { line: l0, character: c0 },
        end: Position { line: l1, character: c1 },
        text: chars(s),
    }
}

fn replace(state: &State, from: usize, to: usize, s: &str) -> Transaction {
    Transaction::change(state, vec![(from, to, Some(chars(s)))])
}

#[test]
fn changeset_to_changes() {
    let mut doc = Document::new(state_with("hello", 5, 5));

    // insert
    let transaction = Transaction::insert(&doc.state, chars(" world"));
    let old_doc = doc.state.snapshot();
    let changes = to_events(&old_doc.doc, transaction.changes());
    doc.apply(&transaction);
    assert_eq!(changes, vec![event(0, 5, 0, 5, " world")]);

    // delete
    let transaction = transaction.invert(&old_doc);
    let old_doc = doc.state.snapshot();
    let changes = to_events(&old_doc.doc, transaction.changes());
    doc.apply(&transaction);
    assert_eq!(changes, vec![event(0, 5, 0, 11, "")]);

    // replace
    doc.state.selection = Selection::single(0, 5);
    let range = doc.state.selection.primary();
    let transaction = replace(&doc.state, range.from(), range.to(), "aeiou");
    let changes = to_events(&doc.state.doc, transaction.changes());
    assert_eq!(changes, vec![event(0, 0, 0, 5, "aeiou")]);
}

#[test]
fn insert_world_after_hello() {
    let mut doc = Document::new(state_with("hello", 5, 5));
    doc.set_language_server(true);
    let transaction = Transaction::insert(&doc.state, chars(" world"));
    assert!(doc.apply(&transaction));
    assert_eq!(string_of(doc.text()), "hello world");
    assert_eq!(doc.outbox.len(), 1);
    assert_eq!(doc.outbox[0].version, 0);
    assert_eq!(doc.outbox[0].changes, vec![event(0, 5, 0, 5, " world")]);
    assert!(doc.syntax_stale);
    // the cursor sticks to what follows it
    assert_eq!(doc.selection().primary(), Range::new(11, 11));
}

#[test]
fn inverted_insertion_restores_hello() {
    let mut doc = Document::new(state_with("hello", 5, 5));
    doc.set_language_server(true);
    let before = doc.state.snapshot();
    let transaction = Transaction::insert(&doc.state, chars(" world"));
    assert!(doc.apply(&transaction));
    let inverse = transaction.invert(&before);
    assert!(doc.apply(&inverse));
    assert_eq!(string_of(doc.text()), "hello");
    assert_eq!(doc.outbox.len(), 2);
    assert_eq!(doc.outbox[1].changes, vec![event(0, 5, 0, 11, "")]);
    assert_eq!(doc.selection().primary(), Range::new(5, 5));
}

#[test]
fn replace_selection_with_vowels() {
    let mut doc = Document::new(state_with("hello world", 0, 5));
    doc.set_language_server(true);
    let transaction = replace(&doc.state, 0, 5, "aeiou");
    assert!(doc.apply(&transaction));
    assert_eq!(string_of(doc.text()), "aeiou world");
    assert_eq!(doc.outbox[0].changes, vec![event(0, 0, 0, 5, "aeiou")]);
}

#[test]
fn mismatched_length_is_rejected() {
    let mut doc = Document::new(state_with("hello", 2, 3));
    let other = state_with("hello world", 0, 0);
    let transaction = replace(&other, 6, 11, "there");
    assert!(!doc.apply(&transaction));
    assert_eq!(string_of(doc.text()), "hello");
    assert_eq!(doc.selection().primary(), Range::new(2, 3));
    assert!(doc.changes.is_empty());
    assert!(doc.old_state.is_none());
    assert!(!doc.syntax_stale);

    let mut state = state_with("hello", 1, 1);
    assert!(!transaction.apply(&mut state));
    assert_eq!(string_of(&state.doc), "hello");
    assert_eq!(state.selection.primary(), Range::new(1, 1));
}

#[test]
fn two_edits_undo_in_one_step() {
    let mut doc = Document::new(state_with("hello", 5, 5));
    let t1 = Transaction::insert(&doc.state, chars(" world"));
    assert!(doc.apply(&t1));
    let t2 = replace(&doc.state, 0, 1, "J");
    assert!(doc.apply(&t2));
    assert_eq!(string_of(doc.text()), "Jello world");
    // both edits sit in one pending change set over the original text
    assert_eq!(doc.changes.len(), 5);
    assert_eq!(doc.changes.len_after(), 11);
    doc.append_changes_to_history();
    assert!(doc.changes.is_empty());
    assert!(doc.undo());
    assert_eq!(string_of(doc.text()), "hello");
    assert_eq!(doc.selection().primary(), Range::new(5, 5));
    assert!(!doc.history.can_undo());
    assert!(doc.redo());
    assert_eq!(string_of(doc.text()), "Jello world");
}

#[test]
fn undo_then_redo_of_one_edit() {
    let mut doc = Document::new(state_with("abc", 1, 2));
    let t = replace(&doc.state, 1, 2, "XYZ");
    assert!(doc.apply(&t));
    let after = doc.state.snapshot();
    doc.append_changes_to_history();
    assert!(doc.undo());
    assert_eq!(string_of(doc.text()), "abc");
    assert_eq!(doc.selection().primary(), Range::new(1, 2));
    assert_eq!(doc.version, 1);
    assert!(doc.redo());
    assert_eq!(string_of(doc.text()), string_of(&after.doc));
    assert_eq!(doc.selection().primary(), after.selection.primary());
    assert_eq!(doc.version, 2);
}

#[test]
fn undo_and_redo_on_empty_history_do_nothing() {
    let mut doc = Document::new(state_with("abc", 1, 1));
    assert!(!doc.undo());
    assert!(!doc.redo());
    assert_eq!(string_of(doc.text()), "abc");
    assert_eq!(doc.version, 0);
    assert_eq!(doc.selection().primary(), Range::new(1, 1));
    assert_eq!(doc.mode(), Mode::Normal);
    // nothing pending: a commit changes nothing either
    doc.append_changes_to_history();
    assert!(!doc.history.can_undo());
}

#[test]
fn new_edit_drops_redo() {
    let mut doc = Document::new(state_with("abc", 0, 0));
    let t = replace(&doc.state, 0, 0, "x");
    doc.apply(&t);
    doc.append_changes_to_history();
    assert!(doc.undo());
    assert!(doc.history.can_redo());
    let t = replace(&doc.state, 3, 3, "y");
    doc.apply(&t);
    doc.append_changes_to_history();
    assert!(!doc.history.can_redo());
    assert_eq!(string_of(doc.text()), "abcy");
}

#[test]
fn compose_matches_sequential_mapping() {
    // "hello" -> "hello world" -> "Jello world"
    let s0 = state_with("hello", 0, 0);
    let a = replace(&s0, 5, 5, " world");
    let mut s1 = s0.snapshot();
    assert!(a.apply(&mut s1));
    let b = replace(&s1, 0, 1, "J");
    let mut s2 = s1.snapshot();
    assert!(b.apply(&mut s2));
    let ab = a.changes.snapshot().compose(b.changes.snapshot());
    assert_eq!(string_of(&ab.apply(&s0.doc)), "Jello world");
    assert_eq!(string_of(&s2.doc), "Jello world");
    for pos in 0..=5 {
        let seq = b.changes.map_pos(a.changes.map_pos(pos, Assoc::Before), Assoc::Before);
        assert_eq!(ab.map_pos(pos, Assoc::Before), seq);
    }
    assert_eq!(ab.map_pos(5, Assoc::Before), 5);
    assert_eq!(ab.map_pos(5, Assoc::After), 11);
    assert_eq!(ab.map_pos(0, Assoc::Before), 0);
    assert_eq!(ab.map_pos(1, Assoc::Before), 0);
}

#[test]
fn compose_with_identity_keeps_changes() {
    let s0 = state_with("abcd", 0, 0);
    let t = replace(&s0, 1, 3, "Z");
    let id = ChangeSet::new(&s0.doc);
    assert!(id.is_empty());
    let c = id.compose(t.changes.snapshot());
    assert!(!c.is_empty());
    assert_eq!(string_of(&c.apply(&s0.doc)), "aZd");
    let after = Text::from_chars(chars("aZd"));
    let c2 = t.changes.snapshot().compose(ChangeSet::new(&after));
    assert_eq!(string_of(&c2.apply(&s0.doc)), "aZd");
}

#[test]
fn invert_round_trip_on_text() {
    let s0 = state_with("the quick fox", 0, 0);
    let t = Transaction::change(
        &s0,
        vec![(0, 3, Some(chars("a"))), (4, 9, None), (13, 13, Some(chars("!")))],
    );
    let after = t.changes.apply(&s0.doc);
    assert_eq!(string_of(&after), "a  fox!");
    let inv = t.changes.invert(&s0.doc);
    assert_eq!(inv.len(), 7);
    assert_eq!(inv.len_after(), 13);
    assert_eq!(string_of(&inv.apply(&after)), "the quick fox");
}

#[test]
fn map_pos_at_boundaries() {
    let s0 = state_with("abcdef", 0, 0);
    let t = Transaction::change(&s0, vec![(2, 4, Some(chars("XY")))]);
    let c = &t.changes;
    // retained before the edit
    assert_eq!(c.map_pos(1, Assoc::After), 1);
    // start of the deleted span
    assert_eq!(c.map_pos(2, Assoc::Before), 2);
    assert_eq!(c.map_pos(2, Assoc::After), 4);
    // inside the deleted span collapses onto its end
    assert_eq!(c.map_pos(3, Assoc::Before), 2);
    assert_eq!(c.map_pos(3, Assoc::After), 4);
    // end of the deleted span and after it
    assert_eq!(c.map_pos(4, Assoc::After), 4);
    assert_eq!(c.map_pos(6, Assoc::After), 6);
}

#[test]
fn change_builds_operations() {
    let s0 = state_with("abcdef", 0, 0);
    let t = Transaction::change(&s0, vec![(2, 4, Some(chars("XY")))]);
    let ops = t.changes.changes();
    assert_eq!(ops.len(), 4);
    assert!(matches!(ops[0], Operation::Retain(2)));
    assert!(matches!(ops[1], Operation::Delete(2)));
    assert!(matches!(&ops[2], Operation::Insert(s) if *s == chars("XY")));
    assert!(matches!(ops[3], Operation::Retain(2)));
    assert_eq!(t.changes.len(), 6);
    assert_eq!(t.changes.len_after(), 6);
}

#[test]
fn empty_text_change_sets() {
    let empty = Text::empty();
    let id = ChangeSet::new(&empty);
    assert!(id.is_empty());
    assert_eq!(id.len(), 0);
    assert_eq!(id.changes().len(), 0);
    assert_eq!(id.map_pos(0, Assoc::After), 0);
    let s0 = State::new(Text::empty());
    let t = Transaction::insert(&s0, chars("hi"));
    assert_eq!(string_of(&t.changes.apply(&empty)), "hi");
}

#[test]
fn positions_count_lines_and_utf16_units() {
    let t = text("ab\nc\u{1F600}d");
    assert_eq!(pos_to_lsp_pos(&t, 0), Position { line: 0, character: 0 });
    assert_eq!(pos_to_lsp_pos(&t, 2), Position { line: 0, character: 2 });
    assert_eq!(pos_to_lsp_pos(&t, 3), Position { line: 1, character: 0 });
    assert_eq!(pos_to_lsp_pos(&t, 5), Position { line: 1, character: 3 });
    assert_eq!(pos_to_lsp_pos(&t, 6), Position { line: 1, character: 4 });
}

#[test]
fn multi_line_events() {
    let s0 = state_with("one\ntwo\nthree", 0, 0);
    let t = Transaction::change(&s0, vec![(4, 7, Some(chars("2"))), (8, 8, Some(chars(">")))]);
    let events = to_events(&s0.doc, &t.changes);
    assert_eq!(events, vec![event(1, 0, 1, 3, "2"), event(2, 0, 2, 0, ">")]);
}

#[test]
fn insert_at_every_cursor() {
    let mut s0 = State::new(text("ab"));
    s0.selection = Selection::new(vec![Range::new(0, 0), Range::new(1, 1), Range::new(2, 2)], 1);
    let t = Transaction::insert(&s0, chars("-"));
    let mut s = s0.snapshot();
    assert!(t.apply(&mut s));
    assert_eq!(string_of(&s.doc), "-a-b-");
    assert_eq!(s.selection.primary_index(), 1);
    assert_eq!(s.selection.ranges()[1], Range::new(3, 3));
}

#[test]
fn transaction_selection_wins_over_mapping() {
    let s0 = state_with("abc", 0, 0);
    let t = replace(&s0, 0, 0, "zz").with_selection(Selection::single(1, 2));
    let mut s = s0.snapshot();
    assert!(t.apply(&mut s));
    assert_eq!(string_of(&s.doc), "zzabc");
    assert_eq!(s.selection.primary(), Range::new(1, 2));
}

#[test]
fn url_of_absolute_path() {
    let mut doc = Document::new(state_with("x", 0, 0));
    assert_eq!(doc.url(), None);
    assert_eq!(doc.identifier(), None);
    doc.path = Some(String::from("/tmp/notes.txt"));
    assert_eq!(doc.url(), Some(String::from("file:///tmp/notes.txt")));
    assert_eq!(doc.versioned_identifier(), Some((String::from("file:///tmp/notes.txt"), 0)));
    doc.path = Some(String::from("notes.txt"));
    assert_eq!(doc.url(), None);
}

#[test]
fn set_language_marks_syntax_stale() {
    let mut doc = Document::new(state_with("x", 0, 0));
    doc.set_language(String::from("source.rust"));
    assert_eq!(doc.language.as_deref(), Some("source.rust"));
    assert!(doc.syntax_stale);
    assert!(doc.path().is_none());
}

#[test]
fn no_notification_without_session() {
    let mut doc = Document::new(state_with("hello", 5, 5));
    let t = Transaction::insert(&doc.state, chars("!"));
    assert!(doc.apply(&t));
    assert!(doc.outbox.is_empty());
    let id = Transaction::from_changes(ChangeSet::new(&doc.state.doc));
    doc.set_language_server(true);
    assert!(doc.apply(&id));
    assert!(doc.outbox.is_empty());
}
