use darkui::editable::{glyphs_to_string, ComposingText, Editable, Glyph, RenderedEditable, Selection};

fn glyphs(parts: &[&str]) -> Vec<Glyph> {
    parts.iter().map(|s| Glyph { substr: s.to_string() }).collect()
}

/// One glyph per character.
fn shape(text: &str) -> Vec<Glyph> {
    text.chars().map(|c| Glyph { substr: c.to_string() }).collect()
}

#[test]
fn idx_and_pos_convert_through_glyphs() {
    // "fi" is one ligature glyph; "é" is 2 bytes.
    let r = RenderedEditable::new(glyphs(&["fi", "é", "x"]), 0, 0);
    assert_eq!(r.idx_to_pos(0), 0);
    assert_eq!(r.idx_to_pos(1), 0);
    assert_eq!(r.idx_to_pos(2), 1);
    assert_eq!(r.idx_to_pos(4), 2);
    assert_eq!(r.idx_to_pos(5), 3);
    assert_eq!(r.idx_to_pos(99), 3);
    assert_eq!(r.pos_to_idx(0), 0);
    assert_eq!(r.pos_to_idx(1), 2);
    assert_eq!(r.pos_to_idx(2), 4);
    assert_eq!(r.pos_to_idx(3), 5);
    assert_eq!(r.pos_to_idx(7), 5);
    assert_eq!(glyphs_to_string(&r.glyphs), "fiéx");
}

#[test]
fn underline_marks_the_composing_region() {
    let r = RenderedEditable::new(glyphs(&["a", "b", "c"]), 1, 3);
    assert_eq!((r.under_start, r.under_end), (1, 3));
    assert!(r.has_underline());
    let r = RenderedEditable::new(glyphs(&["a", "b"]), 1, 1);
    assert!(!r.has_underline());
}

#[test]
fn compose_then_commit() {
    let mut ed = Editable::new();
    ed.set_text("hello ".to_string(), "!".to_string());
    ed.compose("wor", false);
    assert_eq!(ed.get_text(), "hello wor!");
    assert_eq!(ed.get_text_before(), "hello wor");
    let r = ed.render(shape("hello wor!"));
    assert_eq!((r.under_start, r.under_end), (6, 9));

    ed.compose("world", true);
    assert_eq!(ed.get_text(), "hello world!");
    let r = ed.render(shape("hello world!"));
    assert!(!r.has_underline());
    assert_eq!(ed.get_cursor_pos(&r), 11);
}

#[test]
fn compose_region_can_be_overridden() {
    let mut ed = Editable::new();
    ed.compose("abc", true);
    ed.compose("de", false);
    ed.set_compose_region(1, 4);
    let r = ed.render(shape("abcde"));
    assert_eq!((r.under_start, r.under_end), (1, 4));
    ed.end_compose();
    assert_eq!(ed.get_text_before(), "abcde");
    let r = ed.render(shape("abcde"));
    assert!(!r.has_underline());
}

#[test]
fn cursor_moves_by_glyphs() {
    let mut ed = Editable::new();
    ed.set_text("fié".to_string(), "x".to_string());
    let g = glyphs(&["fi", "é", "x"]);
    ed.move_cursor(-1, g.clone());
    assert_eq!(ed.get_text_before(), "fi");
    ed.move_cursor(-1, g.clone());
    assert_eq!(ed.get_text_before(), "");
    // Already at the start: stays.
    ed.move_cursor(-1, g.clone());
    assert_eq!(ed.get_text_before(), "");
    ed.move_cursor(5, g.clone());
    assert_eq!(ed.get_text_before(), "fiéx");
    assert_eq!(ed.get_text(), "fiéx");
}

#[test]
fn cursor_jumps_and_index_placement() {
    let mut ed = Editable::new();
    ed.set_text("ab".to_string(), "cd".to_string());
    ed.compose("X", false);
    ed.move_start();
    assert_eq!(ed.get_text_before(), "");
    assert_eq!(ed.get_text(), "abXcd");
    ed.move_end();
    assert_eq!(ed.get_text_before(), "abXcd");
    ed.set_cursor_idx(2);
    assert_eq!(ed.get_text_before(), "ab");
    assert_eq!(ed.get_text(), "abXcd");
}

#[test]
fn delete_ends_the_composition_and_keeps_the_text() {
    let mut ed = Editable::new();
    ed.set_text("ab".to_string(), "cd".to_string());
    ed.compose("X", false);
    ed.delete(1, 1);
    assert_eq!(ed.get_text(), "abXcd");
    assert_eq!(ed.get_text_before(), "abX");
    let r = ed.render(shape("abXcd"));
    assert!(!r.has_underline());
}

#[test]
fn composing_text_parts() {
    let mut c = ComposingText::new();
    c.compose("ab".to_string());
    assert_eq!((c.region_start, c.region_end), (0, 2));
    c.commit();
    assert_eq!(c.commit_text, "ab");
    assert_eq!((c.region_start, c.region_end), (2, 2));
    c.compose("cd".to_string());
    assert_eq!((c.region_start, c.region_end), (2, 4));
    assert_eq!(c.clear(), "abcd");
    assert_eq!(c.commit_text, "");
    assert_eq!((c.region_start, c.region_end), (0, 0));

    let s = Selection::new(3, 1);
    assert_eq!((s.start, s.end), (3, 1));
}
