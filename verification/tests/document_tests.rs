use story_composer::document::Document;
use story_composer::search::SearchLocation;
use story_composer::MAX_PLOTS;
use story_composer::MAX_UNDO_HISTORY;

fn bytes(s: &str) -> Vec<u8> {
    s.as_bytes().to_vec()
}

#[test]
fn new_document_state() {
    let d = Document::new();
    assert_eq!(d.plot_count(), 1);
    assert_eq!(d.plot_id(0), 0);
    assert!(d.plot_text(0).is_empty());
    assert!(d.composed_text().is_empty());
    assert_eq!(d.next_id(), 1);
    assert_eq!(d.undo_len(), 0);
    assert_eq!(d.redo_len(), 0);
    assert!(!d.is_dirty());
    assert!(d.file_path().is_none());
    assert!(d.pending_delete().is_none());
}

#[test]
fn compose_two_fragments() {
    let mut d = Document::new();
    d.set_plot_text(0, bytes("A"));
    d.add_plot_after(0);
    d.set_plot_text(1, bytes("B"));
    d.compose();
    assert_eq!(d.composed_text(), &bytes("A\n\n---\n\nB"));
}

#[test]
fn compose_single_fragment_has_no_separator() {
    let mut d = Document::new();
    d.set_plot_text(0, bytes("only"));
    d.compose();
    assert_eq!(d.composed_text(), &bytes("only"));
}

#[test]
fn compose_is_idempotent_on_unchanged_fragments() {
    let mut d = Document::new();
    d.set_plot_text(0, bytes("x"));
    d.add_plot_after(0);
    d.set_plot_text(1, bytes("y"));
    d.compose();
    let first = d.composed_text().clone();
    d.compose();
    assert_eq!(d.composed_text(), &first);
}

#[test]
fn fragments_never_empty() {
    let mut d = Document::new();
    d.remove_plot(0);
    assert_eq!(d.plot_count(), 1);
    d.add_plot_after(0);
    d.remove_plot(1);
    d.remove_plot(0);
    assert_eq!(d.plot_count(), 1);
}

#[test]
fn ids_strictly_increase_and_never_repeat() {
    let mut d = Document::new();
    d.add_plot_after(0);
    assert_eq!(d.plot_id(1), 1);
    d.add_plot_after(1);
    assert_eq!(d.plot_id(2), 2);
    d.remove_plot(1);
    d.add_plot_after(0);
    // the removed id 1 is not reused
    assert_eq!(d.plot_id(1), 3);
    assert_eq!(d.next_id(), 4);
    let ids: Vec<usize> = (0..d.plot_count()).map(|i| d.plot_id(i)).collect();
    assert_eq!(ids, vec![0, 3, 2]);
}

#[test]
fn undo_restores_prior_state_and_redo_returns() {
    let mut d = Document::new();
    d.set_plot_text(0, bytes("first"));
    d.compose();
    d.add_plot_after(0);
    d.set_plot_text(1, bytes("second"));
    assert_eq!(d.plot_count(), 2);
    d.undo();
    // back to the state right before add_plot_after
    assert_eq!(d.plot_count(), 1);
    assert_eq!(d.plot_text(0), &bytes("first"));
    assert_eq!(d.composed_text(), &bytes("first"));
    d.redo();
    // forward again to the state right before the undo
    assert_eq!(d.plot_count(), 2);
    assert_eq!(d.plot_text(1), &bytes("second"));
}

#[test]
fn undo_on_empty_history_is_a_no_op() {
    let mut d = Document::new();
    d.set_plot_text(0, bytes("kept"));
    d.undo();
    assert_eq!(d.plot_text(0), &bytes("kept"));
    assert_eq!(d.undo_len(), 0);
    d.redo();
    assert_eq!(d.plot_text(0), &bytes("kept"));
}

#[test]
fn new_edit_discards_redo_entries() {
    let mut d = Document::new();
    d.set_plot_text(0, bytes("a"));
    d.compose();
    d.compose();
    d.undo();
    assert_eq!(d.redo_len(), 1);
    d.add_plot_after(0);
    assert_eq!(d.redo_len(), 0);
    d.redo();
    assert_eq!(d.plot_count(), 2);
}

#[test]
fn history_caps_at_limit_and_evicts_oldest() {
    let mut d = Document::new();
    for i in 0..105usize {
        d.set_plot_text(0, bytes(&format!("v{}", i)));
        d.compose();
        // compose snapshots the state before it, holding text v{i} and the
        // composed text of the round before
    }
    assert_eq!(d.undo_len(), MAX_UNDO_HISTORY);
    for _ in 0..MAX_UNDO_HISTORY {
        d.undo();
    }
    assert_eq!(d.undo_len(), 0);
    // the oldest retained snapshot was taken at round 5, so rounds 0..=4 are gone
    assert_eq!(d.plot_text(0), &bytes("v5"));
    assert_eq!(d.composed_text(), &bytes("v4"));
    d.undo();
    assert_eq!(d.plot_text(0), &bytes("v5"));
}

#[test]
fn boundary_moves_and_removals_are_no_ops() {
    let mut d = Document::new();
    d.remove_plot(0);
    assert_eq!(d.plot_count(), 1);
    d.move_plot_up(0);
    assert_eq!(d.plot_id(0), 0);
    d.move_plot_down(0);
    assert_eq!(d.plot_id(0), 0);
    // a no-op does not snapshot either
    assert_eq!(d.undo_len(), 0);
}

#[test]
fn insert_at_cap_is_a_no_op() {
    let mut d = Document::new();
    for i in 0..(MAX_PLOTS - 1) {
        d.add_plot_after(i);
    }
    assert_eq!(d.plot_count(), MAX_PLOTS);
    let next_before = d.next_id();
    d.add_plot_after(0);
    assert_eq!(d.plot_count(), MAX_PLOTS);
    assert_eq!(d.next_id(), next_before);
}

#[test]
fn move_up_and_down_swap_neighbours() {
    let mut d = Document::new();
    d.add_plot_after(0);
    d.add_plot_after(1);
    d.set_plot_text(0, bytes("a"));
    d.set_plot_text(1, bytes("b"));
    d.set_plot_text(2, bytes("c"));
    d.move_plot_up(2);
    let texts: Vec<&Vec<u8>> = (0..3).map(|i| d.plot_text(i)).collect();
    assert_eq!(texts, vec![&bytes("a"), &bytes("c"), &bytes("b")]);
    d.move_plot_down(0);
    let texts: Vec<&Vec<u8>> = (0..3).map(|i| d.plot_text(i)).collect();
    assert_eq!(texts, vec![&bytes("c"), &bytes("a"), &bytes("b")]);
}

#[test]
fn search_reports_overlapping_occurrences() {
    let mut d = Document::new();
    d.set_plot_text(0, bytes("aaa"));
    let hits = d.search(&bytes("aa"));
    assert_eq!(hits.len(), 2);
    assert!(hits[0].location == SearchLocation::Plot);
    assert_eq!(hits[0].plot_index, Some(0));
    assert_eq!((hits[0].start, hits[0].end), (0, 2));
    assert!(hits[1].location == SearchLocation::Plot);
    assert_eq!((hits[1].start, hits[1].end), (1, 3));
}

#[test]
fn search_scans_fragments_then_composed_text() {
    let mut d = Document::new();
    d.set_plot_text(0, bytes("ab"));
    d.add_plot_after(0);
    d.set_plot_text(1, bytes("xaby"));
    d.set_composed_text(bytes("abab"));
    let hits = d.search(&bytes("ab"));
    assert_eq!(hits.len(), 4);
    assert_eq!(hits[0].plot_index, Some(0));
    assert_eq!((hits[0].start, hits[0].end), (0, 2));
    assert_eq!(hits[1].plot_index, Some(1));
    assert_eq!((hits[1].start, hits[1].end), (1, 3));
    assert!(hits[2].location == SearchLocation::ComposedText);
    assert_eq!(hits[2].plot_index, None);
    assert_eq!((hits[2].start, hits[2].end), (0, 2));
    assert_eq!((hits[3].start, hits[3].end), (2, 4));
}

#[test]
fn search_uses_byte_offsets_for_multibyte_text() {
    let mut d = Document::new();
    d.set_plot_text(0, bytes("物語の物語"));
    let hits = d.search(&bytes("物語"));
    // each of the five characters is three bytes long
    assert_eq!(hits.len(), 2);
    assert_eq!((hits[0].start, hits[0].end), (0, 6));
    assert_eq!((hits[1].start, hits[1].end), (9, 15));
}

#[test]
fn search_with_empty_needle_finds_nothing() {
    let mut d = Document::new();
    d.set_plot_text(0, bytes("anything"));
    let hits = d.search(&bytes(""));
    assert!(hits.is_empty());
}

#[test]
fn replace_all_consumes_matches_left_to_right() {
    let mut d = Document::new();
    d.set_plot_text(0, bytes("aaa"));
    d.replace_all(&bytes("aa"), &bytes("b"));
    assert_eq!(d.plot_text(0), &bytes("ba"));
}

#[test]
fn replace_all_touches_fragments_and_composed_independently() {
    let mut d = Document::new();
    d.set_plot_text(0, bytes("one cat"));
    d.set_composed_text(bytes("cat cat"));
    d.replace_all(&bytes("cat"), &bytes("dog"));
    assert_eq!(d.plot_text(0), &bytes("one dog"));
    assert_eq!(d.composed_text(), &bytes("dog dog"));
}

#[test]
fn replace_all_with_empty_needle_is_a_no_op() {
    let mut d = Document::new();
    d.set_plot_text(0, bytes("stays"));
    d.replace_all(&bytes(""), &bytes("gone"));
    assert_eq!(d.plot_text(0), &bytes("stays"));
    assert_eq!(d.undo_len(), 0);
}

#[test]
fn replace_all_is_undoable() {
    let mut d = Document::new();
    d.set_plot_text(0, bytes("aaa"));
    d.replace_all(&bytes("aa"), &bytes("b"));
    d.undo();
    assert_eq!(d.plot_text(0), &bytes("aaa"));
}

#[test]
fn export_converts_line_feeds_to_crlf() {
    let mut d = Document::new();
    d.set_composed_text(bytes("one\ntwo\nthree"));
    assert_eq!(d.export_bytes(), bytes("one\r\ntwo\r\nthree"));
}

#[test]
fn delete_needs_confirmation() {
    let mut d = Document::new();
    d.add_plot_after(0);
    d.set_plot_text(1, bytes("doomed"));
    let id = d.plot_id(1);
    d.request_delete(id);
    assert_eq!(d.pending_delete(), Some(id));
    assert_eq!(d.plot_count(), 2);
    d.confirm_delete();
    assert_eq!(d.plot_count(), 1);
    assert!(d.pending_delete().is_none());
}

#[test]
fn cancelled_delete_changes_nothing() {
    let mut d = Document::new();
    d.add_plot_after(0);
    d.request_delete(d.plot_id(1));
    d.cancel_delete();
    assert!(d.pending_delete().is_none());
    d.confirm_delete();
    assert_eq!(d.plot_count(), 2);
}

#[test]
fn confirmed_delete_finds_the_fragment_by_id_after_index_shifts() {
    let mut d = Document::new();
    d.add_plot_after(0);
    d.add_plot_after(1);
    d.set_plot_text(2, bytes("target"));
    let id = d.plot_id(2);
    d.request_delete(id);
    // indices shift before the confirmation arrives
    d.remove_plot(0);
    d.confirm_delete();
    assert_eq!(d.plot_count(), 1);
    assert_ne!(d.plot_id(0), id);
}

#[test]
fn delete_of_a_vanished_id_only_clears_the_request() {
    let mut d = Document::new();
    d.add_plot_after(0);
    let id = d.plot_id(1);
    d.request_delete(id);
    d.remove_plot(1);
    d.confirm_delete();
    assert_eq!(d.plot_count(), 1);
    assert!(d.pending_delete().is_none());
}

#[test]
fn dirty_flag_follows_edits_and_saves() {
    let mut d = Document::new();
    assert!(!d.is_dirty());
    d.set_plot_text(0, bytes("edit"));
    assert!(d.is_dirty());
    d.mark_saved(String::from("story.scrf"));
    assert!(!d.is_dirty());
    assert_eq!(d.file_path().as_deref(), Some("story.scrf"));
    d.compose();
    assert!(d.is_dirty());
    // undo leaves the flag untouched, even back at the saved state
    d.undo();
    assert!(d.is_dirty());
}

#[test]
fn reset_clears_path_history_and_dirty_flag() {
    let mut d = Document::new();
    d.set_plot_text(0, bytes("work"));
    d.compose();
    d.mark_saved(String::from("a.scrf"));
    d.new_document();
    assert_eq!(d.plot_count(), 1);
    assert!(d.plot_text(0).is_empty());
    assert!(d.composed_text().is_empty());
    assert_eq!(d.next_id(), 1);
    assert_eq!(d.undo_len(), 0);
    assert_eq!(d.redo_len(), 0);
    assert!(!d.is_dirty());
    assert!(d.file_path().is_none());
}
