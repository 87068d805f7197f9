use atelier::{ByteOffset, ByteRange, Document, DocumentIds, EditError, Revision};

fn document(text: &str) -> Document {
    let mut ids = DocumentIds::new();
    Document::new(&mut ids, text)
}

#[test]
fn edits_text_and_advances_revisions() {
    let mut document = document("Hello world");

    assert!(!document.is_modified());
    assert_eq!(document.insert(ByteOffset::new(5), ", brave"), Ok(Revision(1)));
    assert!(document.is_modified());
    assert_eq!(document.text(), "Hello, brave world");

    assert_eq!(document.delete((5..12).into()), Ok(Revision(2)));
    assert_eq!(document.text(), "Hello world");

    assert_eq!(document.replace((6..11).into(), "Caduceus"), Ok(Revision(3)));
    assert_eq!(document.text(), "Hello Caduceus");
}

#[test]
fn empty_edits_do_not_advance_the_revision() {
    let mut document = document("text");

    assert_eq!(document.insert(0.into(), ""), Ok(Revision(0)));
    assert_eq!(document.delete((2..2).into()), Ok(Revision(0)));
    assert_eq!(document.replace((4..4).into(), ""), Ok(Revision(0)));
    assert!(!document.is_modified());
}

#[test]
fn can_mark_a_modified_document_as_saved() {
    let mut document = document("before");
    let end = document.len_bytes();
    document.insert(end.into(), " after").unwrap();

    document.mark_saved();

    assert!(!document.is_modified());
    assert_eq!(document.revision(), Revision(1));
}

#[test]
fn rejects_invalid_utf8_boundaries_without_changing_text() {
    let mut document = document("aé日");
    let original = document.text();

    assert_eq!(document.insert(2.into(), "!"), Err(EditError::NotCharBoundary { offset: 2.into() }));
    assert_eq!(document.delete((1..2).into()), Err(EditError::NotCharBoundary { offset: 2.into() }));
    assert_eq!(document.text(), original);
    assert_eq!(document.revision(), Revision(0));
}

#[test]
fn rejects_reversed_and_out_of_bounds_ranges() {
    let mut document = document("text");

    assert_eq!(
        document.delete(ByteRange::new(3.into(), 1.into())),
        Err(EditError::ReversedRange { start: 3.into(), end: 1.into() })
    );
    assert_eq!(
        document.replace((0..5).into(), "other"),
        Err(EditError::OutOfBounds { offset: 5.into(), document_len: 4 })
    );
}

#[test]
fn tracks_lf_and_crlf_lines() {
    let document = document("one\r\ntwo\nthree");

    assert_eq!(document.len_lines(), 3);
    assert_eq!(document.line(0).as_deref(), Some("one"));
    assert_eq!(document.line(1).as_deref(), Some("two"));
    assert_eq!(document.line(2).as_deref(), Some("three"));
    assert_eq!(document.line(3), None);
}

#[test]
fn snapshots_keep_their_original_revision_and_text() {
    let mut document = document("before");
    let snapshot = document.snapshot();

    document.replace((0..6).into(), "after").unwrap();

    assert_eq!(snapshot.id(), document.id());
    assert_eq!(snapshot.revision(), Revision(0));
    assert!(!snapshot.is_modified());
    assert_eq!(snapshot.text(), "before");
    assert_eq!(document.revision(), Revision(1));
    assert!(document.is_modified());
    assert_eq!(document.text(), "after");
}

#[test]
fn assigns_distinct_identities_to_documents() {
    let mut ids = DocumentIds::new();
    let first = Document::new(&mut ids, "");
    let second = Document::new(&mut ids, "");

    assert_ne!(first.id(), second.id());
}

#[test]
fn new_documents_start_at_revision_zero_with_their_path() {
    let mut ids = DocumentIds::new();
    let document = Document::with_path(&mut ids, "/tmp/notes.txt", "hello\nfrom disk");

    assert_eq!(document.path(), Some("/tmp/notes.txt"));
    assert_eq!(document.text(), "hello\nfrom disk");
    assert_eq!(document.len_lines(), 2);
    assert_eq!(document.revision(), Revision(0));
    assert_eq!(document.id().get(), 1);
    assert_eq!(ids.next().get(), 2);
}

#[test]
fn restoring_the_saved_text_clears_the_modified_marker() {
    let mut document = document("hello");
    document.insert(5.into(), "!").unwrap();
    assert!(document.is_modified());
    document.delete((5..6).into()).unwrap();
    assert!(!document.is_modified());
    assert_eq!(document.revision(), Revision(2));
}

#[test]
fn counts_lines_with_a_final_line_break_and_when_empty() {
    assert_eq!(document("").len_lines(), 0);
    assert_eq!(document("a\n").len_lines(), 1);
    assert_eq!(document("a\nb").len_lines(), 2);
    assert!(document("").is_empty());
    assert_eq!(document("a\n").line(1), None);
}

#[test]
fn finds_line_starts_and_ends() {
    let document = document("ab\r\ncd\n\nef");
    assert_eq!(document.last_line_index(), 3);
    assert_eq!(document.line_start(1), Some(ByteOffset::new(4)));
    assert_eq!(document.line_full_end(1), Some(ByteOffset::new(7)));
    assert_eq!(document.line_content_end(0), Some(ByteOffset::new(2)));
    assert_eq!(document.line_content_end(2), Some(ByteOffset::new(7)));
    assert_eq!(document.line_content_end(3), Some(ByteOffset::new(10)));
    assert_eq!(document.line_start(4), None);
    assert_eq!(document.line_index_at(ByteOffset::new(5)), 1);
}

#[test]
fn steps_over_characters_and_crlf() {
    let document = document("aé\r\n日");
    assert_eq!(document.next_char_boundary(ByteOffset::new(1)), ByteOffset::new(3));
    assert_eq!(document.next_char_boundary(ByteOffset::new(3)), ByteOffset::new(5));
    assert_eq!(document.previous_char_boundary(ByteOffset::new(5)), ByteOffset::new(3));
    assert_eq!(document.previous_char_boundary(ByteOffset::new(8)), ByteOffset::new(5));
    assert_eq!(document.previous_char_boundary(ByteOffset::new(0)), ByteOffset::new(0));
    assert_eq!(document.next_char_boundary(ByteOffset::new(8)), ByteOffset::new(8));
}

#[test]
fn reads_characters_and_text_ranges() {
    let document = document("aé日");
    assert_eq!(document.char_at(ByteOffset::new(1)), Some('é'));
    assert_eq!(document.char_before(ByteOffset::new(3)), Some('é'));
    assert_eq!(document.char_at(ByteOffset::new(2)), None);
    assert_eq!(document.char_at(ByteOffset::new(6)), None);
    assert_eq!(document.char_before(ByteOffset::new(0)), None);
    assert_eq!(document.text_in((1..6).into()), Ok("é日".to_string()));
    assert_eq!(document.text_in((1..2).into()), Err(EditError::NotCharBoundary { offset: 2.into() }));
}

#[test]
fn converts_between_offsets_and_columns() {
    let document = document("aé日\nxyz");
    assert_eq!(document.char_column_at(ByteOffset::new(6)), 3);
    assert_eq!(document.char_column_at(ByteOffset::new(9)), 2);
    assert_eq!(document.offset_for_line_column(1, 2), Some(ByteOffset::new(9)));
    assert_eq!(document.offset_for_line_column(0, 10), Some(ByteOffset::new(6)));
    assert_eq!(document.offset_for_line_column(2, 0), None);
}

#[test]
fn finds_word_boundaries() {
    let document = document("foo_bar  baz.qux");
    assert_eq!(document.next_word_boundary(ByteOffset::new(0)), ByteOffset::new(9));
    assert_eq!(document.next_word_boundary(ByteOffset::new(9)), ByteOffset::new(12));
    assert_eq!(document.next_word_boundary(ByteOffset::new(12)), ByteOffset::new(13));
    assert_eq!(document.previous_word_boundary(ByteOffset::new(9)), ByteOffset::new(0));
    assert_eq!(document.previous_word_boundary(ByteOffset::new(16)), ByteOffset::new(13));
}
