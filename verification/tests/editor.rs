use atelier::{
    ByteOffset, ByteRange, Document, DocumentIds, Editor, EditorSettings, LanguageEditRules, Revision, SearchQuery,
    Selection,
};

fn editor(text: &str) -> Editor {
    let mut ids = DocumentIds::new();
    Editor::new(Document::new(&mut ids, text))
}

#[test]
fn editor_inserts_and_replaces_the_selection() {
    let mut editor = editor("hello world");

    editor.set_selection(6.into(), 11.into()).unwrap();
    editor.insert("Atelier").unwrap();

    assert_eq!(editor.document().text(), "hello Atelier");
    assert_eq!(editor.cursor(), ByteOffset::new(13));
    assert!(editor.selection().is_empty());

    let mut other = self::editor("hello world");
    other.set_selection(6.into(), 11.into()).unwrap();
    other.insert("Caduceus").unwrap();

    assert_eq!(other.document().text(), "hello Caduceus");
    assert_eq!(other.cursor(), ByteOffset::new(14));
    assert!(other.selection().is_empty());
}

#[test]
fn editor_moves_and_extends_a_selection_across_unicode() {
    let mut editor = editor("aé日");
    editor.set_selection(1.into(), 1.into()).unwrap();

    editor.move_right(false);
    assert_eq!(editor.cursor(), ByteOffset::new(3));

    editor.move_right(true);
    assert_eq!(editor.selection(), Selection::new(3.into(), 6.into()));

    editor.move_left(true);
    assert!(editor.selection().is_empty());
    assert_eq!(editor.cursor(), ByteOffset::new(3));
}

#[test]
fn editor_backspace_and_delete_respect_character_boundaries() {
    let mut editor = editor("aé日");
    editor.set_selection(3.into(), 3.into()).unwrap();

    editor.backspace().unwrap();
    assert_eq!(editor.document().text(), "a日");
    assert_eq!(editor.cursor(), ByteOffset::new(1));

    editor.delete_forward().unwrap();
    assert_eq!(editor.document().text(), "a");
    assert_eq!(editor.cursor(), ByteOffset::new(1));
}

#[test]
fn editor_collapsing_a_selection_uses_its_nearest_edge() {
    let mut editor = editor("abcd");
    editor.set_selection(3.into(), 1.into()).unwrap();

    editor.move_left(false);
    assert_eq!(editor.cursor(), ByteOffset::new(1));

    editor.set_selection(1.into(), 3.into()).unwrap();
    editor.move_right(false);
    assert_eq!(editor.cursor(), ByteOffset::new(3));
}

#[test]
fn editor_treats_crlf_as_one_cursor_step() {
    let mut editor = editor("one\r\ntwo");
    editor.set_selection(3.into(), 3.into()).unwrap();

    editor.move_right(false);
    assert_eq!(editor.cursor(), ByteOffset::new(5));

    editor.move_left(false);
    assert_eq!(editor.cursor(), ByteOffset::new(3));
}

#[test]
fn editor_moves_vertically_and_preserves_the_preferred_column() {
    let mut editor = editor("abcdef\nx\nuvwxyz");
    editor.set_selection(5.into(), 5.into()).unwrap();

    editor.move_down(false);
    assert_eq!(editor.cursor(), ByteOffset::new(8));

    editor.move_down(false);
    assert_eq!(editor.cursor(), ByteOffset::new(14));

    editor.move_up(false);
    assert_eq!(editor.cursor(), ByteOffset::new(8));
}

#[test]
fn editor_extends_a_selection_vertically_across_unicode() {
    let mut editor = editor("aé日\nxyz");
    editor.set_selection(3.into(), 3.into()).unwrap();

    editor.move_down(true);

    assert_eq!(editor.selection(), Selection::new(3.into(), 9.into()));
}

#[test]
fn undo_restores_text_and_redo_cancels_undo() {
    let mut editor = editor("hello");
    editor.set_selection(5.into(), 5.into()).unwrap();
    editor.insert("!").unwrap();

    editor.undo().unwrap();
    assert_eq!(editor.document().text(), "hello");
    assert_eq!(editor.cursor(), ByteOffset::new(5));

    editor.redo().unwrap();
    assert_eq!(editor.document().text(), "hello!");
    assert_eq!(editor.cursor(), ByteOffset::new(6));
}

#[test]
fn consecutive_inserts_undo_as_one_group() {
    let mut editor = editor("");
    editor.insert("h").unwrap();
    editor.insert("i").unwrap();
    editor.insert("!").unwrap();

    editor.undo().unwrap();
    assert_eq!(editor.document().text(), "");
    editor.redo().unwrap();
    assert_eq!(editor.document().text(), "hi!");
}

#[test]
fn typing_after_undo_discards_the_cancelled_edits() {
    let mut editor = editor("ab");
    editor.set_selection(2.into(), 2.into()).unwrap();
    editor.insert("c").unwrap();
    editor.undo().unwrap();
    editor.insert("d").unwrap();

    assert_eq!(editor.document().text(), "abd");
    editor.redo().unwrap();
    assert_eq!(editor.document().text(), "abd");
}

#[test]
fn reverting_edits_clears_the_modified_marker() {
    let mut editor = editor("hello");
    editor.set_selection(5.into(), 5.into()).unwrap();
    editor.insert(" ").unwrap();
    assert!(editor.document().is_modified());
    editor.backspace().unwrap();
    assert_eq!(editor.document().text(), "hello");
    assert!(!editor.document().is_modified());
}

#[test]
fn undo_after_marking_saved_marks_the_document_modified() {
    let mut editor = editor("base");
    editor.set_selection(4.into(), 4.into()).unwrap();
    editor.insert("!").unwrap();
    editor.mark_saved();
    assert!(!editor.document().is_modified());

    editor.undo().unwrap();
    assert_eq!(editor.document().text(), "base");
    assert!(editor.document().is_modified());

    editor.redo().unwrap();
    assert_eq!(editor.document().text(), "base!");
    assert!(!editor.document().is_modified());
}

#[test]
fn home_toggles_between_indent_and_line_start() {
    let mut editor = editor("    foo");
    editor.set_selection(6.into(), 6.into()).unwrap();
    editor.move_line_start(false);
    assert_eq!(editor.cursor(), ByteOffset::new(4));
    editor.move_line_start(false);
    assert_eq!(editor.cursor(), ByteOffset::new(0));
}

#[test]
fn word_motion_skips_identifiers() {
    let mut editor = editor("foo_bar baz");
    editor.set_selection(0.into(), 0.into()).unwrap();
    editor.move_word_right(false);
    assert_eq!(editor.cursor(), ByteOffset::new(8));
    editor.move_word_right(false);
    assert_eq!(editor.cursor(), ByteOffset::new(11));
    editor.move_word_left(false);
    assert_eq!(editor.cursor(), ByteOffset::new(8));
}

#[test]
fn newline_preserves_and_increases_indent() {
    let mut editor = editor("    if true {");
    editor.set_selection(13.into(), 13.into()).unwrap();
    editor.insert("\n").unwrap();
    assert_eq!(editor.document().text(), "    if true {\n        ");
}

#[test]
fn inserts_and_skips_matching_pairs() {
    let mut editor = editor("");
    editor.insert("(").unwrap();
    assert_eq!(editor.document().text(), "()");
    assert_eq!(editor.cursor(), ByteOffset::new(1));
    editor.insert(")").unwrap();
    assert_eq!(editor.document().text(), "()");
    assert_eq!(editor.cursor(), ByteOffset::new(2));
    editor.set_selection(1.into(), 1.into()).unwrap();
    editor.backspace().unwrap();
    assert_eq!(editor.document().text(), "");
}

#[test]
fn indent_outdent_and_comment_selected_lines() {
    let mut editor = editor("fn a() {}\nfn b() {}\n");
    editor.set_edit_rules(LanguageEditRules::new(Some("//"), &LanguageEditRules::DEFAULT_PAIRS));
    editor.set_selection(0.into(), 19.into()).unwrap();
    editor.indent().unwrap();
    assert_eq!(editor.document().text(), "    fn a() {}\n    fn b() {}\n");
    editor.outdent().unwrap();
    assert_eq!(editor.document().text(), "fn a() {}\nfn b() {}\n");
    editor.toggle_line_comment().unwrap();
    assert_eq!(editor.document().text(), "// fn a() {}\n// fn b() {}\n");
    editor.toggle_line_comment().unwrap();
    assert_eq!(editor.document().text(), "fn a() {}\nfn b() {}\n");
}

#[test]
fn find_replace_and_brackets() {
    let mut editor = editor("user.name\nuser.email\n");
    let query = SearchQuery::new("user");
    assert_eq!(editor.find_next(&query), Some(ByteRange::from(0..4)));
    assert_eq!(editor.find_next(&query), Some(ByteRange::from(10..14)));
    editor.replace_all(&query, "account").unwrap();
    assert_eq!(editor.document().text(), "account.name\naccount.email\n");

    let mut braces = self::editor("fn x() { a }");
    braces.set_selection(7.into(), 7.into()).unwrap();
    let (open, close) = braces.matching_brackets().unwrap();
    assert_eq!(open, ByteRange::from(7..8));
    assert_eq!(close, ByteRange::from(11..12));
}

#[test]
fn duplicate_and_delete_line() {
    let mut editor = editor("one\ntwo\n");
    editor.set_selection(0.into(), 0.into()).unwrap();
    editor.duplicate_line().unwrap();
    assert_eq!(editor.document().text(), "one\none\ntwo\n");
    editor.delete_line().unwrap();
    assert!(editor.document().text().starts_with("one\n") || editor.document().text().contains("two"));
}

#[test]
fn edit_then_undo_restores_text_and_selection() {
    let mut editor = editor("alpha beta");
    editor.set_selection(6.into(), 10.into()).unwrap();
    editor.insert("gamma").unwrap();
    assert_eq!(editor.document().text(), "alpha gamma");
    editor.undo().unwrap();
    assert_eq!(editor.document().text(), "alpha beta");
    assert_eq!(editor.selection(), Selection::new(6.into(), 10.into()));
}

#[test]
fn redo_then_undo_gives_back_the_text() {
    let mut editor = editor("x");
    editor.set_selection(1.into(), 1.into()).unwrap();
    editor.insert("yz").unwrap();
    editor.undo().unwrap();
    editor.redo().unwrap();
    assert_eq!(editor.document().text(), "xyz");
    editor.undo().unwrap();
    assert_eq!(editor.document().text(), "x");
}

#[test]
fn consecutive_backspaces_undo_as_one_group() {
    let mut editor = editor("abcd");
    editor.set_selection(4.into(), 4.into()).unwrap();
    editor.backspace().unwrap();
    editor.backspace().unwrap();
    assert_eq!(editor.document().text(), "ab");
    editor.undo().unwrap();
    assert_eq!(editor.document().text(), "abcd");
}

#[test]
fn undo_and_redo_with_empty_history_change_nothing() {
    let mut editor = editor("same");
    assert_eq!(editor.undo(), Ok(Revision(0)));
    assert_eq!(editor.redo(), Ok(Revision(0)));
    assert_eq!(editor.document().text(), "same");
}

#[test]
fn revisions_increase_with_each_change() {
    let mut editor = editor("");
    assert_eq!(editor.insert("a"), Ok(Revision(1)));
    assert_eq!(editor.insert("b"), Ok(Revision(2)));
    assert_eq!(editor.undo(), Ok(Revision(3)));
    assert_eq!(editor.redo(), Ok(Revision(4)));
}

#[test]
fn rejects_a_selection_off_character_boundaries() {
    let mut editor = editor("aé");
    assert!(editor.set_selection(2.into(), 1.into()).is_err());
    assert!(editor.set_selection(0.into(), 9.into()).is_err());
    assert_eq!(editor.selection(), Selection::new(0.into(), 0.into()));
}

#[test]
fn wraps_a_selection_in_a_pair() {
    let mut editor = editor("say hi");
    editor.set_selection(4.into(), 6.into()).unwrap();
    editor.insert("\"").unwrap();
    assert_eq!(editor.document().text(), "say \"hi\"");
    assert_eq!(editor.selection(), Selection::new(5.into(), 7.into()));
}

#[test]
fn moves_lines_up_and_down() {
    let mut editor = editor("a\nb\nc\n");
    editor.set_selection(2.into(), 2.into()).unwrap();
    editor.move_line_up().unwrap();
    assert_eq!(editor.document().text(), "b\na\nc\n");
    editor.set_selection(0.into(), 0.into()).unwrap();
    editor.move_line_down().unwrap();
    assert_eq!(editor.document().text(), "a\nb\nc\n");
    editor.set_selection(0.into(), 0.into()).unwrap();
    assert_eq!(editor.move_line_up(), Ok(editor.document().revision()));
}

#[test]
fn moves_by_lines_pages_and_document_ends() {
    let mut editor = editor("one\ntwo\nthree\nfour");
    editor.go_to_line(3);
    assert_eq!(editor.cursor(), ByteOffset::new(8));
    editor.go_to_line(0);
    assert_eq!(editor.cursor(), ByteOffset::new(0));
    editor.go_to_line(99);
    assert_eq!(editor.cursor(), ByteOffset::new(14));
    editor.page_up(2, false);
    assert_eq!(editor.cursor(), ByteOffset::new(4));
    editor.page_down(0, false);
    assert_eq!(editor.cursor(), ByteOffset::new(8));
    editor.move_line_end(false);
    assert_eq!(editor.cursor(), ByteOffset::new(13));
    editor.move_document_end(false);
    assert_eq!(editor.cursor(), ByteOffset::new(18));
    editor.move_document_start(true);
    assert_eq!(editor.selection(), Selection::new(18.into(), 0.into()));
    editor.select_all();
    assert_eq!(editor.selection(), Selection::new(0.into(), 18.into()));
}

#[test]
fn indents_with_tabs_and_an_empty_selection() {
    let mut editor = editor("x");
    editor.set_settings(EditorSettings::new(0, false));
    assert_eq!(editor.settings().tab_width(), 4);
    editor.indent().unwrap();
    assert_eq!(editor.document().text(), "\tx");
    editor.outdent().unwrap();
    assert_eq!(editor.document().text(), "x");
}

#[test]
fn comments_skip_blank_lines_and_need_a_syntax() {
    let mut editor = editor("a\n\n  b\n");
    editor.toggle_line_comment().unwrap();
    assert_eq!(editor.document().text(), "a\n\n  b\n");
    editor.set_edit_rules(LanguageEditRules::new(Some("#"), &LanguageEditRules::DEFAULT_PAIRS));
    editor.select_all();
    editor.toggle_line_comment().unwrap();
    assert_eq!(editor.document().text(), "# a\n\n  # b\n");
}

#[test]
fn finds_backward_and_whole_words_and_replaces_one_match() {
    let mut editor = editor("cat concat cat");
    let mut query = SearchQuery::new("cat");
    query.whole_word = true;
    assert_eq!(editor.find_previous(&query), Some(ByteRange::from(11..14)));
    assert_eq!(editor.find_previous(&query), Some(ByteRange::from(0..3)));
    assert_eq!(editor.replace_match(&query, "dog"), Ok(Some(ByteRange::from(11..14))));
    assert_eq!(editor.document().text(), "dog concat cat");
    assert_eq!(editor.replace_all(&query, "cow"), Ok(1));
    assert_eq!(editor.document().text(), "dog concat cow");
    assert_eq!(editor.find_next(&SearchQuery::new("")), None);
}

#[test]
fn searches_ignoring_case_unless_asked() {
    let mut editor = editor("Alpha alpha");
    let mut query = SearchQuery::new("ALPHA");
    assert_eq!(editor.find_next(&query), Some(ByteRange::from(0..5)));
    query.case_sensitive = true;
    assert_eq!(editor.find_next(&query), None);
}

#[test]
fn matches_brackets_before_the_caret_and_backward() {
    let mut editor = editor("(a [b])");
    editor.set_selection(7.into(), 7.into()).unwrap();
    assert_eq!(editor.matching_brackets(), Some((ByteRange::from(0..1), ByteRange::from(6..7))));
    editor.set_selection(2.into(), 2.into()).unwrap();
    assert_eq!(editor.matching_brackets(), None);
}

#[test]
fn case_folding_keeps_offsets_of_the_text_when_lowering_changes_lengths() {
    let query = SearchQuery::new("foo");
    assert_eq!(atelier::search::find_in("foo \u{212A}", &query, 0, true), Some(ByteRange::from(0..3)));
    assert_eq!(atelier::search::find_in("\u{212A} foo", &query, 0, true), Some(ByteRange::from(4..7)));
    assert_eq!(atelier::search::find_in("\u{212A} FOO \u{212A}", &query, 11, false), Some(ByteRange::from(4..7)));
    let kelvin = SearchQuery::new("k");
    assert_eq!(atelier::search::find_in("\u{212A}", &kelvin, 0, true), None);
    assert_eq!(atelier::search::find_in("\u{212A}K", &kelvin, 0, true), Some(ByteRange::from(3..4)));
}

#[test]
fn case_folding_matches_whole_characters_beyond_ascii() {
    let query = SearchQuery::new("ÉTÉ");
    assert_eq!(atelier::search::find_in("un été", &query, 0, true), Some(ByteRange::from(3..8)));
    assert_eq!(atelier::search::find_in("un été", &query, 8, false), Some(ByteRange::from(3..8)));
    let mut exact = SearchQuery::new("ÉTÉ");
    exact.case_sensitive = true;
    assert_eq!(atelier::search::find_in("un été", &exact, 0, true), None);
    assert!(atelier::search::is_search_match("Été", &query));
}
