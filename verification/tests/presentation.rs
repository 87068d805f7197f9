use atelier::files::{chevron_icon, extension_of, file_icon, file_name_of, folder_icon, path_extension, ExplorerIcon};
use atelier::highlight::{highlight_color, highlight_kind, spans_from_events, HighlightEvent, HighlightKind, HighlightSpan};
use atelier::languages::LanguageRegistry;
use atelier::layout::{
    caret_position, line_runs, offset_in_row, row_for_offset, row_selection, visual_lines, RowSelection, StyledRun,
};
use atelier::utf16::{
    byte_offset_from_utf16, byte_offset_to_utf16, marked_after, range_from_utf16, range_to_utf16, replacement_range,
};

#[test]
fn splits_lf_crlf_and_trailing_empty_lines() {
    let content = "one\r\ntwo\n";
    let lines = visual_lines(content);

    assert_eq!(lines.len(), 3);
    assert_eq!(&content[lines[0].start..lines[0].display_end], "one");
    assert_eq!((lines[0].start, lines[0].display_end, lines[0].full_end), (0, 3, 5));
    assert_eq!(&content[lines[1].start..lines[1].display_end], "two");
    assert_eq!((lines[1].start, lines[1].display_end, lines[1].full_end), (5, 8, 9));
    assert_eq!(&content[lines[2].start..lines[2].display_end], "");
    assert_eq!(lines[2].start, 9);
}

#[test]
fn empty_text_is_one_empty_row() {
    let lines = visual_lines("");
    assert_eq!(lines.len(), 1);
    assert_eq!((lines[0].start, lines[0].display_end, lines[0].full_end), (0, 0, 0));
}

#[test]
fn converts_between_utf8_and_utf16_offsets() {
    let content = "a𐐀b";

    assert_eq!(byte_offset_to_utf16(content, 5), 3);
    assert_eq!(byte_offset_from_utf16(content, 3), 5);
}

#[test]
fn utf16_offsets_stop_at_whole_characters_and_at_the_end() {
    let content = "aé𐐀";
    assert_eq!(byte_offset_to_utf16(content, 0), 0);
    assert_eq!(byte_offset_to_utf16(content, 2), 2);
    assert_eq!(byte_offset_to_utf16(content, 4), 4);
    assert_eq!(byte_offset_to_utf16(content, 100), 4);
    assert_eq!(byte_offset_from_utf16(content, 1), 1);
    assert_eq!(byte_offset_from_utf16(content, 3), 7);
    assert_eq!(byte_offset_from_utf16(content, 100), 7);
}

#[test]
fn chooses_icons_from_file_names() {
    assert_eq!(file_icon("src/main.rs").0, ExplorerIcon::Rust);
    assert_eq!(file_icon("Cargo.toml").0, ExplorerIcon::Toml);
    assert_eq!(file_icon("README.md").0, ExplorerIcon::Markdown);
    assert_eq!(file_icon("Cargo.lock").0, ExplorerIcon::Lock);
    assert_eq!(file_icon("notes.txt").0, ExplorerIcon::File);
}

#[test]
fn icons_ignore_case_and_carry_their_colors() {
    assert_eq!(file_icon("docs/GUIDE.MARKDOWN"), (ExplorerIcon::Markdown, 0x61afef));
    assert_eq!(file_icon("lock"), (ExplorerIcon::Lock, 0x8f96a3));
    assert_eq!(file_icon("lib.RS"), (ExplorerIcon::Rust, 0xdea584));
    assert_eq!(file_icon(".."), (ExplorerIcon::File, 0xaeb4bf));
    assert_eq!(folder_icon(true), (ExplorerIcon::FolderOpen, 0xc4a574));
    assert_eq!(folder_icon(false), (ExplorerIcon::Folder, 0xc4a574));
    assert_eq!(chevron_icon(true), ExplorerIcon::ChevronDown);
    assert_eq!(chevron_icon(false), ExplorerIcon::ChevronRight);
}

#[test]
fn file_names_and_extensions_follow_paths() {
    assert_eq!(file_name_of("src/main.rs"), Some("main.rs"));
    assert_eq!(file_name_of("src/"), Some("src"));
    assert_eq!(file_name_of("src/."), Some("src"));
    assert_eq!(file_name_of("src/.."), None);
    assert_eq!(file_name_of("/"), None);
    assert_eq!(file_name_of(""), None);
    assert_eq!(extension_of(".gitignore"), None);
    assert_eq!(extension_of("archive.tar.gz"), Some("gz"));
    assert_eq!(extension_of("trailing."), Some(""));
    assert_eq!(path_extension("a.b/c"), None);
    assert_eq!(path_extension("a/b.toml"), Some("toml"));
}

#[test]
fn selects_built_in_extensions_by_file_extension() {
    let registry = LanguageRegistry::built_in();
    assert_eq!(registry.extension_for_path("src/main.rs").map(|entry| entry.name), Some("Rust"));
    assert_eq!(registry.extension_for_path("Cargo.toml").map(|entry| entry.name), Some("TOML"));
    assert!(registry.extension_for_path("README.md").is_none());
}

#[test]
fn languages_match_extensions_ignoring_case_in_order() {
    let registry = LanguageRegistry::built_in();
    assert_eq!(registry.index_for_path("SRC/LIB.RS"), Some(0));
    assert_eq!(registry.index_for_path("config.Toml"), Some(1));
    assert_eq!(registry.index_for_path("Makefile"), None);
    assert_eq!(registry.len(), 2);
    assert_eq!(registry.entry(1).map(|entry| entry.name), Some("TOML"));
    assert!(registry.entry(2).is_none());
}

#[test]
fn highlight_names_map_to_kinds() {
    assert_eq!(highlight_kind(0), HighlightKind::Attribute);
    assert_eq!(highlight_kind(2), HighlightKind::Comment);
    assert_eq!(highlight_kind(11), HighlightKind::String);
    assert_eq!(highlight_kind(13), HighlightKind::Variable);
}

#[test]
fn spans_take_the_innermost_highlight_and_merge_neighbours() {
    let events = vec![
        HighlightEvent::Source { start: 0, end: 2 },
        HighlightEvent::Start(6),
        HighlightEvent::Source { start: 2, end: 4 },
        HighlightEvent::End,
        HighlightEvent::Start(5),
        HighlightEvent::Source { start: 5, end: 7 },
        HighlightEvent::Start(11),
        HighlightEvent::Source { start: 7, end: 9 },
        HighlightEvent::End,
        HighlightEvent::Source { start: 9, end: 10 },
        HighlightEvent::Source { start: 10, end: 12 },
        HighlightEvent::End,
        HighlightEvent::End,
    ];
    let spans = spans_from_events(&events);
    assert_eq!(
        spans,
        vec![
            HighlightSpan { start: 2, end: 4, kind: HighlightKind::Keyword },
            HighlightSpan { start: 5, end: 7, kind: HighlightKind::Function },
            HighlightSpan { start: 7, end: 9, kind: HighlightKind::String },
            HighlightSpan { start: 9, end: 12, kind: HighlightKind::Function },
        ]
    );
}

#[test]
fn input_ranges_convert_both_ways() {
    let content = "a𐐀b";
    assert_eq!(range_from_utf16(content, (1, 3)), (1, 5));
    assert_eq!(range_to_utf16(content, (1, 5)), (1, 3));
    assert_eq!(replacement_range(content, Some((3, 4)), Some((0, 1)), (6, 6)), (5, 6));
    assert_eq!(replacement_range(content, None, Some((0, 1)), (6, 6)), (0, 1));
    assert_eq!(replacement_range(content, None, None, (6, 6)), (6, 6));
    assert_eq!(marked_after(2, "é"), Some((2, 4)));
    assert_eq!(marked_after(2, ""), None);
}

#[test]
fn highlight_classes_have_colors() {
    assert_eq!(highlight_color(HighlightKind::Keyword), 0xc678dd);
    assert_eq!(highlight_color(HighlightKind::String), 0x98c379);
    assert_eq!(highlight_color(HighlightKind::Property), 0x56b6c2);
    assert_eq!(highlight_color(HighlightKind::Variable), 0xd7dae0);
}

#[test]
fn offsets_between_characters_survive_the_round_trip() {
    let content = "a𐐀bé";
    for bytes in [0usize, 1, 5, 6, 8] {
        assert_eq!(byte_offset_from_utf16(content, byte_offset_to_utf16(content, bytes)), bytes);
    }
    for units in [0usize, 1, 3, 4, 5] {
        assert_eq!(byte_offset_to_utf16(content, byte_offset_from_utf16(content, units)), units);
    }
}

fn run(len: usize, kind: Option<HighlightKind>) -> StyledRun {
    StyledRun { len, kind }
}

#[test]
fn rows_are_split_into_highlighted_and_plain_runs() {
    let lines = visual_lines("fn main() {}\nlet x");
    let spans = [
        HighlightSpan { start: 0, end: 2, kind: HighlightKind::Keyword },
        HighlightSpan { start: 3, end: 7, kind: HighlightKind::Function },
        HighlightSpan { start: 13, end: 16, kind: HighlightKind::Keyword },
    ];
    assert_eq!(
        line_runs(lines[0], &spans),
        vec![
            run(2, Some(HighlightKind::Keyword)),
            run(1, None),
            run(4, Some(HighlightKind::Function)),
            run(5, None)
        ]
    );
    assert_eq!(line_runs(lines[1], &spans), vec![run(3, Some(HighlightKind::Keyword)), run(2, None)]);
    let empty = visual_lines("x\n")[1];
    assert_eq!(line_runs(empty, &[]), vec![run(0, None)]);
}

#[test]
fn selections_show_per_row() {
    let line = visual_lines("fn main() {}\nlet x")[0];
    assert_eq!(row_selection(line, 2, 5), RowSelection::Text { start: 2, end: 5 });
    assert_eq!(row_selection(line, 12, 14), RowSelection::LineBreak { at: 12 });
    assert_eq!(row_selection(line, 20, 25), RowSelection::Unselected);
}

#[test]
fn the_caret_sits_on_its_row() {
    let lines = visual_lines("ab\ncd");
    assert_eq!(caret_position(&lines, 1, 5), Some((0, 1)));
    assert_eq!(caret_position(&lines, 3, 5), Some((1, 0)));
    assert_eq!(caret_position(&lines, 5, 5), Some((1, 2)));
    assert_eq!(caret_position(&lines, 9, 5), Some((1, 2)));
    assert_eq!(caret_position(&[], 0, 0), None);
}

#[test]
fn offsets_map_to_rows_and_back() {
    let lines = visual_lines("ab\r\ncd");
    assert_eq!(row_for_offset(&lines, 1), Some((0, 1)));
    assert_eq!(row_for_offset(&lines, 3), Some((0, 2)));
    assert_eq!(row_for_offset(&lines, 4), Some((1, 0)));
    assert_eq!(row_for_offset(&lines, 6), Some((1, 2)));
    assert_eq!(row_for_offset(&lines, 7), None);
    assert_eq!(offset_in_row(lines[0], 1), 1);
    assert_eq!(offset_in_row(lines[0], 9), 2);
    assert_eq!(offset_in_row(lines[1], 9), 6);
}
