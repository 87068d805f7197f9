use atelier::changes::{change_between, point_at, TextPoint};
use atelier::project::FlatEntry;
use atelier::shell::{
    add_warning, after_save_all, answer_leave_prompt, close_project, leave, open_failed_message, open_folder,
    open_recent, LeaveIntent, Screen, ShellAction,
};
use atelier::tags::{extract_symbols, symbol_kind_from_reference, symbol_kind_from_tag, Capture};
use atelier::workspace::{
    close_step, display_name, document_label, language_label, needs_refresh, prompt_outcome, save_failed_message,
    save_prompt_title, save_status, tab_label, CloseStep, OpenTabs,
    PromptOutcome,
};
use atelier::{
    ByteOffset, ByteRange, DefinitionLookup, Document, DocumentIds, Editor, Project, ProjectEntry,
    ProjectRegistry, SymbolKind,
};

fn range(start: usize, end: usize) -> ByteRange {
    ByteRange::new(ByteOffset::new(start), ByteOffset::new(end))
}

#[test]
fn closing_tabs_keeps_a_sensible_active_tab() {
    let mut tabs = OpenTabs::new();
    assert_eq!(tabs.add("first.txt".to_string()), 0);
    assert_eq!(tabs.add("second.txt".to_string()), 1);
    assert_eq!(tabs.add("third.txt".to_string()), 2);
    assert_eq!(tabs.active(), Some(2));
    assert_eq!(tabs.position_of("second.txt"), Some(1));
    assert_eq!(tabs.position_of("missing.txt"), None);

    tabs.activate(0);
    assert_eq!(tabs.active(), Some(0));
    assert!(!tabs.close(1));
    assert_eq!(tabs.active(), Some(0));
    assert_eq!(tabs.path(1), Some("third.txt"));

    tabs.activate(1);
    assert!(tabs.close(1));
    assert_eq!(tabs.active(), Some(0));
    assert!(tabs.close(0));
    assert_eq!(tabs.active(), None);
    assert_eq!(tabs.len(), 0);
    assert!(!tabs.close(0));
}

#[test]
fn closing_the_active_tab_activates_its_neighbour() {
    let mut tabs = OpenTabs::new();
    tabs.add("a".to_string());
    tabs.add("b".to_string());
    tabs.add("c".to_string());
    tabs.activate(1);
    assert!(tabs.close(1));
    assert_eq!(tabs.active(), Some(1));
    assert_eq!(tabs.path(1), Some("c"));
    tabs.activate(9);
    assert_eq!(tabs.active(), Some(1));
}

#[test]
fn unsaved_changes_ask_before_closing() {
    assert_eq!(close_step(false), CloseStep::Close);
    assert_eq!(close_step(true), CloseStep::AskToSave);
    assert_eq!(prompt_outcome(Some(0)), PromptOutcome::SaveThenClose);
    assert_eq!(prompt_outcome(Some(1)), PromptOutcome::Close);
    assert_eq!(prompt_outcome(Some(2)), PromptOutcome::Keep);
    assert_eq!(prompt_outcome(None), PromptOutcome::Keep);
}

#[test]
fn flattens_the_project_tree_depth_first() {
    let main = ProjectEntry::file("/p/src/main.rs".to_string()).unwrap();
    let src = ProjectEntry::directory("/p/src".to_string(), vec![main]).unwrap();
    let readme = ProjectEntry::file("/p/README.md".to_string()).unwrap();
    let project = Project::new("/p".to_string(), vec![readme, src]).unwrap();

    let rows: Vec<(String, usize, bool)> = project
        .flattened_entries()
        .into_iter()
        .map(|FlatEntry { name, depth, is_directory, .. }| (name, depth, is_directory))
        .collect();
    assert_eq!(
        rows,
        vec![
            ("src".to_string(), 0, true),
            ("main.rs".to_string(), 1, false),
            ("README.md".to_string(), 0, false),
        ]
    );
    assert_eq!(project.flattened_entries()[1].path, "/p/src/main.rs");
}

#[test]
fn edit_errors_say_what_went_wrong() {
    let mut ids = DocumentIds::new();
    let mut document = Document::new(&mut ids, "aé");
    let out_of_bounds = document.insert(ByteOffset::new(9), "x").unwrap_err();
    assert_eq!(out_of_bounds.message(), "byte offset 9 is outside document length 3");
    let inside = document.insert(ByteOffset::new(2), "x").unwrap_err();
    assert_eq!(inside.message(), "byte offset 2 is not a UTF-8 character boundary");
    let reversed = document.delete(range(3, 1)).unwrap_err();
    assert_eq!(reversed.message(), "range start 3 is after end 1");
}

#[test]
fn identities_are_handed_out_in_turn() {
    let mut ids = DocumentIds::new();
    assert_eq!(ids.peek(), 1);
    let first = ids.next();
    let second = ids.next();
    assert_eq!(ids.peek(), 3);
    assert_eq!(first.get(), 1);
    assert_eq!(second.get(), 2);
    assert_ne!(first, second);
}

#[test]
fn describes_an_edit_between_two_texts() {
    let change = change_between("fn main() {}\n", "fn main() { run(); }\n");
    assert_eq!(change.start_byte, 11);
    assert_eq!(change.old_end_byte, 11);
    assert_eq!(change.new_end_byte, 19);
    assert_eq!(change.start_position, TextPoint { row: 0, column: 11 });
    assert_eq!(change.new_end_position, TextPoint { row: 0, column: 19 });

    let multiline = change_between("a\nbc\nd", "a\nbXc\nd");
    assert_eq!((multiline.start_byte, multiline.old_end_byte, multiline.new_end_byte), (3, 3, 4));
    assert_eq!(multiline.start_position, TextPoint { row: 1, column: 1 });
}

#[test]
fn edits_stay_on_character_boundaries() {
    let change = change_between("é", "è");
    assert_eq!((change.start_byte, change.old_end_byte, change.new_end_byte), (0, 2, 2));
    let same = change_between("same", "same");
    assert_eq!((same.start_byte, same.old_end_byte, same.new_end_byte), (4, 4, 4));
}

#[test]
fn points_count_rows_and_byte_columns() {
    assert_eq!(point_at("ab\ncd\n", 0), TextPoint { row: 0, column: 0 });
    assert_eq!(point_at("ab\ncd\n", 4), TextPoint { row: 1, column: 1 });
    assert_eq!(point_at("ab\ncd\n", 6), TextPoint { row: 2, column: 0 });
}

fn capture(name: &str, text: &str, start: usize, end: usize, scope: ByteRange) -> Capture {
    Capture { name: name.to_string(), text: text.to_string(), start, end, scope }
}

#[test]
fn hand_built_captures_bind_two_calls_to_one_function() {
    let source = "fn greet() {}\nfn main() {\n    greet();\n    greet();\n}\n";
    let file = range(0, source.len());
    let matches = vec![
        vec![capture("definition.function", "fn greet() {}", 0, 13, file), capture("name", "greet", 3, 8, file)],
        vec![capture("definition.function", "fn main() {...}", 14, 53, file), capture("name", "main", 17, 21, file)],
        vec![capture("reference.call", "greet()", 30, 37, file), capture("name", "greet", 30, 35, file)],
        vec![capture("reference.call", "greet()", 43, 50, file), capture("name", "greet", 43, 48, file)],
    ];
    let graph = extract_symbols(&matches);

    let greet = graph.definitions_named("greet")[0];
    assert_eq!(greet.kind(), SymbolKind::Function);
    assert_eq!(graph.references_to(greet.id()).len(), 2);
    assert_eq!(graph.go_to_definition(ByteOffset::new(31)), DefinitionLookup::Found(range(3, 8)));
    assert!(graph.duplicates().is_empty());
}

#[test]
fn hand_built_captures_report_duplicate_functions() {
    let file = range(0, 24);
    let matches = vec![
        vec![capture("definition.function", "fn foo() {}", 0, 11, file), capture("name", "foo", 3, 6, file)],
        vec![capture("definition.function", "fn foo() {}", 12, 23, file), capture("name", "foo", 15, 18, file)],
    ];
    let graph = extract_symbols(&matches);
    assert_eq!(graph.definitions_named("foo").len(), 2);
    assert_eq!(graph.duplicates().len(), 1);
    assert_eq!(graph.duplicates()[0].name(), "foo");
}

#[test]
fn matches_without_a_name_or_a_known_capture_make_no_tag() {
    let file = range(0, 10);
    let matches = vec![
        vec![capture("definition.function", "fn f() {}", 0, 9, file)],
        vec![capture("reference.macro", "m!()", 0, 4, file), capture("name", "m", 0, 1, file)],
    ];
    let graph = extract_symbols(&matches);
    assert!(graph.definitions().is_empty());
    assert!(graph.references().is_empty());
}

#[test]
fn capture_names_give_symbol_kinds() {
    assert_eq!(symbol_kind_from_tag("definition.function"), Some(SymbolKind::Function));
    assert_eq!(symbol_kind_from_tag("definition.struct"), Some(SymbolKind::Type));
    assert_eq!(symbol_kind_from_tag("definition.module"), Some(SymbolKind::Module));
    assert_eq!(symbol_kind_from_tag("definition.constant"), Some(SymbolKind::Constant));
    assert_eq!(symbol_kind_from_tag("definition.unknown"), None);
    assert_eq!(symbol_kind_from_reference("reference.call"), Some(SymbolKind::Function));
    assert_eq!(symbol_kind_from_reference("reference.implementation"), Some(SymbolKind::Type));
    assert_eq!(symbol_kind_from_reference("reference.macro"), None);
}

#[test]
fn hand_built_captures_define_toml_keys_and_tables() {
    let source = "[package]\nname = \"caduceus\"\n";
    let file = range(0, source.len());
    let matches = vec![
        vec![capture("definition.module", "[package]", 0, 9, file), capture("name", "package", 1, 8, file)],
        vec![capture("definition.constant", "name = \"caduceus\"", 10, 27, file), capture("name", "name", 10, 14, file)],
    ];
    let graph = extract_symbols(&matches);
    assert_eq!(graph.definitions_named("package")[0].kind(), SymbolKind::Module);
    assert_eq!(graph.definitions_named("name")[0].kind(), SymbolKind::Constant);
}

#[test]
fn recording_keeps_the_list_unique_and_capped() {
    let mut registry = ProjectRegistry::empty();
    for round in 0..3u64 {
        for index in 0..25u64 {
            registry.record(format!("/p/{index}"), format!("p{index}"), round * 100 + index);
        }
    }
    let projects = registry.projects();
    assert_eq!(projects.len(), 20);
    assert_eq!(projects[0].path, "/p/24");
    for i in 0..projects.len() {
        for j in (i + 1)..projects.len() {
            assert_ne!(projects[i].path, projects[j].path);
        }
    }
}

#[test]
fn leaving_a_project_asks_only_when_changes_are_unsaved() {
    assert!(matches!(close_project(Screen::Welcome, true), ShellAction::Nothing));
    assert!(matches!(close_project(Screen::Project, false), ShellAction::ShowWelcome));
    assert!(matches!(close_project(Screen::Project, true), ShellAction::AskToSave(LeaveIntent::Welcome)));
    assert!(matches!(open_folder(false), ShellAction::PickFolder));
    assert!(matches!(leave(LeaveIntent::OpenFolder, true), ShellAction::AskToSave(LeaveIntent::OpenFolder)));
    assert!(matches!(
        answer_leave_prompt(LeaveIntent::Welcome, Some(0)),
        ShellAction::SaveAllThenLeave(LeaveIntent::Welcome)
    ));
    assert!(matches!(answer_leave_prompt(LeaveIntent::Welcome, Some(1)), ShellAction::ShowWelcome));
    assert!(matches!(answer_leave_prompt(LeaveIntent::Welcome, Some(2)), ShellAction::Nothing));
    assert!(matches!(answer_leave_prompt(LeaveIntent::Welcome, None), ShellAction::Nothing));
    assert!(matches!(after_save_all(LeaveIntent::OpenFolder, true), ShellAction::PickFolder));
    assert!(matches!(after_save_all(LeaveIntent::OpenFolder, false), ShellAction::Nothing));

    let mut registry = ProjectRegistry::empty();
    registry.record("/p/demo".to_string(), "demo".to_string(), 1);
    match open_recent(&registry, 0, false) {
        ShellAction::Open { path, file } => {
            assert_eq!(path, "/p/demo");
            assert!(file.is_none());
        }
        _ => panic!("expected to open the recent project"),
    }
    assert!(matches!(open_recent(&registry, 0, true), ShellAction::AskToSave(LeaveIntent::OpenPath { .. })));
    assert!(matches!(open_recent(&registry, 1, false), ShellAction::Nothing));

    assert_eq!(open_failed_message("/p/gone", "not found"), "Could not open /p/gone: not found");
    assert_eq!(add_warning(None, "later"), "later");
    assert_eq!(add_warning(Some("first".to_string()), "later"), "first; later");
}

#[test]
fn tabs_and_prompts_name_documents_by_file_name() {
    assert_eq!(display_name("/p/src/main.rs"), "main.rs");
    assert_eq!(display_name("/"), "/");
    assert_eq!(tab_label("/p/notes.txt", false), "notes.txt");
    assert_eq!(tab_label("/p/notes.txt", true), "notes.txt ●");
    assert_eq!(save_prompt_title("/p/modified.txt"), "Save changes to modified.txt?");
    assert_eq!(save_failed_message("/p/a.txt", "denied"), "Could not save /p/a.txt: denied");
}

#[test]
fn the_change_rebuilds_the_new_text_from_the_old() {
    for (old, new) in [("fn a() {}", "fn ab() {}"), ("héllo", "hèllo"), ("", "x"), ("abc", ""), ("one\ntwo", "one\n")] {
        let change = change_between(old, new);
        let rebuilt = format!(
            "{}{}{}",
            &old[..change.start_byte],
            &new[change.start_byte..change.new_end_byte],
            &old[change.old_end_byte..]
        );
        assert_eq!(rebuilt, new);
    }
}

#[test]
fn copying_and_cutting_take_the_selected_text() {
    let mut ids = DocumentIds::new();
    let mut editor = Editor::new(Document::new(&mut ids, "hello world"));
    assert_eq!(editor.selected_text(), None);
    editor.set_selection(ByteOffset::new(11), ByteOffset::new(6)).unwrap();
    assert_eq!(editor.selected_text().as_deref(), Some("world"));
    assert_eq!(editor.cut().as_deref(), Some("world"));
    assert_eq!(editor.document().text(), "hello ");
    assert_eq!(editor.cut(), None);
    editor.undo().unwrap();
    assert_eq!(editor.document().text(), "hello world");
}

#[test]
fn the_status_line_tells_saving_language_and_document() {
    assert_eq!(save_status(Some("disk full"), true), "Save failed: disk full");
    assert_eq!(save_status(None, true), "Unsaved changes · Ctrl+S to save");
    assert_eq!(save_status(None, false), "Saved · Ctrl+S");
    assert_eq!(document_label(None), "Untitled");
    assert_eq!(document_label(Some("/p/main.rs")), "/p/main.rs");
    assert_eq!(language_label(None), "Plain text");
    assert_eq!(language_label(Some("Rust")), "Rust");
    assert!(needs_refresh(None, 0));
    assert!(needs_refresh(Some(1), 2));
    assert!(!needs_refresh(Some(2), 2));
}
