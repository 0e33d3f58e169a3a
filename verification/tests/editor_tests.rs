use yosoku::Prediction;
use yosoku::chain::PredictorChain;
use yosoku::editor::{EditorStatus, Key, LineEditor};
use yosoku::predict::Predictor;

const LYRIC: [&str; 5] = ["never", "gonna", "give", "you", "up"];

fn trained_editor(depth: usize) -> LineEditor {
    let mut chain = PredictorChain::new();
    let empty: Vec<String> = Vec::new();
    chain.observe(&empty, "never");
    chain.observe(&empty, "never");
    for w in LYRIC {
        chain.observe(&empty, w);
    }
    for i in 0..LYRIC.len() - 1 {
        let context = vec![LYRIC[i].to_string()];
        chain.observe(&context, LYRIC[i + 1]);
    }
    LineEditor::new(Predictor::new(chain, depth))
}

fn plain_editor() -> LineEditor {
    LineEditor::new(Predictor::new(PredictorChain::new(), 2))
}

fn type_text(ed: &mut LineEditor, s: &str) {
    for ch in s.chars() {
        ed.handle_key(Key::Char(ch.to_string()));
    }
}

#[test]
fn typing_advances_cursor_and_buffer() {
    let mut ed = plain_editor();
    type_text(&mut ed, "hi");
    assert_eq!(ed.buffer_text(), "hi");
    assert_eq!(ed.cursor(), 2);
    assert_eq!(ed.buffer_len(), 2);
    assert_eq!(ed.status(), EditorStatus::Editing);
}

#[test]
fn accept_cascade_completes_the_lyric() {
    let mut ed = trained_editor(1);
    type_text(&mut ed, "never gonna ");
    assert_eq!(ed.status(), EditorStatus::Suggesting);
    match ed.shown_prediction() {
        Some(Prediction::Word(t)) => assert_eq!(t.as_str(), "give"),
        _ => panic!("expected Word(\"give\") to be shown"),
    }
    ed.handle_key(Key::Accept);
    assert_eq!(ed.buffer_text(), "never gonna give ");
    ed.handle_key(Key::Accept);
    assert_eq!(ed.buffer_text(), "never gonna give you ");
}

#[test]
fn accept_word_inserts_separating_space() {
    let mut ed = trained_editor(1);
    type_text(&mut ed, "never,");
    assert_eq!(ed.status(), EditorStatus::Suggesting);
    match ed.shown_prediction() {
        Some(Prediction::Word(t)) => assert_eq!(t.as_str(), "gonna"),
        _ => panic!("expected Word(\"gonna\") to be shown"),
    }
    ed.handle_key(Key::Accept);
    assert_eq!(ed.buffer_text(), "never, gonna ");
}

#[test]
fn accept_partial_completes_current_word() {
    let mut ed = trained_editor(1);
    type_text(&mut ed, "nev");
    assert_eq!(ed.status(), EditorStatus::Suggesting);
    match ed.shown_prediction() {
        Some(Prediction::Partial(t)) => assert_eq!(t.as_str(), "er"),
        _ => panic!("expected Partial(\"er\") to be shown"),
    }
    ed.handle_key(Key::Accept);
    assert_eq!(ed.buffer_text(), "never");
    assert_eq!(ed.cursor(), 5);
}

#[test]
fn accept_without_suggestion_leaves_buffer_untouched() {
    let mut ed = plain_editor();
    type_text(&mut ed, "ab");
    assert_eq!(ed.status(), EditorStatus::Editing);
    ed.handle_key(Key::Accept);
    assert_eq!(ed.buffer_text(), "ab");
    assert_eq!(ed.cursor(), 2);
    assert_eq!(ed.status(), EditorStatus::Editing);
}

#[test]
fn backspace_removes_one_grapheme_and_is_a_noop_at_start() {
    let mut ed = plain_editor();
    ed.handle_key(Key::Backspace);
    assert_eq!(ed.buffer_text(), "");
    assert_eq!(ed.cursor(), 0);
    type_text(&mut ed, "ok");
    ed.handle_key(Key::Backspace);
    assert_eq!(ed.buffer_text(), "o");
    assert_eq!(ed.cursor(), 1);
}

#[test]
fn cursor_stays_within_buffer_over_edit_sequences() {
    let mut ed = plain_editor();
    let script: [Key; 9] = [
        Key::Backspace,
        Key::Char("a".to_string()),
        Key::Char("b".to_string()),
        Key::Backspace,
        Key::Backspace,
        Key::Backspace,
        Key::Char("c".to_string()),
        Key::Other,
        Key::Backspace,
    ];
    for key in script {
        ed.handle_key(key);
        assert!(ed.cursor() <= ed.buffer_len());
    }
}

#[test]
fn multi_char_grapheme_counts_as_one_cluster() {
    let mut ed = plain_editor();
    ed.handle_key(Key::Char("e\u{301}".to_string()));
    assert_eq!(ed.buffer_len(), 1);
    assert_eq!(ed.cursor(), 1);
    assert_eq!(ed.buffer_text(), "e\u{301}");
    ed.handle_key(Key::Backspace);
    assert_eq!(ed.buffer_len(), 0);
    assert_eq!(ed.buffer_text(), "");
}

#[test]
fn confirm_commits_the_buffer() {
    let mut ed = plain_editor();
    type_text(&mut ed, "hi there");
    ed.handle_key(Key::Confirm);
    assert_eq!(ed.status(), EditorStatus::Done);
    assert_eq!(ed.committed().as_deref(), Some("hi there"));
}

#[test]
fn cancel_commits_nothing() {
    let mut ed = plain_editor();
    type_text(&mut ed, "discard me");
    ed.handle_key(Key::Cancel);
    assert_eq!(ed.status(), EditorStatus::Done);
    assert!(ed.committed().is_none());
}

#[test]
fn done_is_terminal() {
    let mut ed = plain_editor();
    type_text(&mut ed, "hi");
    ed.handle_key(Key::Confirm);
    ed.handle_key(Key::Char("x".to_string()));
    ed.handle_key(Key::Backspace);
    assert_eq!(ed.buffer_text(), "hi");
    assert_eq!(ed.status(), EditorStatus::Done);
    assert_eq!(ed.committed().as_deref(), Some("hi"));
}

#[test]
fn suggestion_is_never_part_of_the_committed_result() {
    let mut ed = trained_editor(1);
    type_text(&mut ed, "never gonna ");
    assert_eq!(ed.status(), EditorStatus::Suggesting);
    ed.handle_key(Key::Confirm);
    assert_eq!(ed.committed().as_deref(), Some("never gonna "));
}

#[test]
fn render_shows_the_line_and_ghost_text() {
    let mut ed = trained_editor(1);
    type_text(&mut ed, "never ");
    let frame = ed.render();
    assert_eq!(frame.line, "never ");
    assert_eq!(frame.suggestion.as_deref(), Some("gonna"));
    ed.handle_key(Key::Cancel);
    let frame = ed.render();
    assert!(frame.suggestion.is_none());
}

#[test]
fn other_keys_are_ignored() {
    let mut ed = trained_editor(1);
    type_text(&mut ed, "never ");
    let before_status = ed.status();
    ed.handle_key(Key::Other);
    assert_eq!(ed.buffer_text(), "never ");
    assert_eq!(ed.cursor(), 6);
    assert_eq!(ed.status(), before_status);
}
