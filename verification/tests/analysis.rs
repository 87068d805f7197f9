use atelier::highlight::{HighlightKind, HighlightSpan};
use atelier::languages::LanguageRegistry;
use atelier::parsing::{Grammar, Highlighting, SyntaxSession};
use atelier::{Document, DocumentIds, SymbolKind};

fn grammar_for(path: &str) -> Grammar {
    match LanguageRegistry::built_in().index_for_path(path) {
        Some(0) => Grammar::rust(),
        Some(1) => Grammar::toml(),
        _ => panic!("no built-in language for {path}"),
    }
}

fn session_for(path: &str, source: &str) -> (Document, SyntaxSession) {
    let grammar = grammar_for(path);
    let mut ids = DocumentIds::new();
    let document = Document::with_path(&mut ids, path, source);
    let (_, _, _, tags) = grammar.queries();
    let mut session = SyntaxSession::new(&grammar, tags).expect("analysis session");
    session.sync(&document.snapshot()).unwrap();
    (document, session)
}

#[test]
fn rust_tree_exists_after_open_and_updates_after_insert() {
    let (mut document, mut session) = session_for("lib.rs", "fn greet() {}\n");
    let before = session.syntax().expect("tree after open").clone();
    let greet = before.root().find_kind("function_item").unwrap().range();

    let end = document.len_bytes();
    document.insert(end.into(), "fn main() {}\n").unwrap();
    session.sync(&document.snapshot()).unwrap();
    let after = session.syntax().expect("tree after insert");

    assert_eq!(after.revision(), document.revision());
    assert!(after.root().range().end.get() > before.root().range().end.get());
    assert_eq!(after.root().find_kind("function_item").unwrap().range(), greet);
    assert_eq!(after.root().children().iter().filter(|node| node.kind() == "function_item").count(), 2);
}

#[test]
fn rust_function_and_two_calls_bind_in_file() {
    let source = "fn greet() {}\nfn main() {\n    greet();\n    greet();\n}\n";
    let (_document, session) = session_for("main.rs", source);
    let symbols = session.symbols();
    let greet = *symbols.definitions_named("greet").first().expect("greet definition");

    assert_eq!(symbols.definitions_named("greet").len(), 1);
    assert_eq!(greet.kind(), SymbolKind::Function);
    assert_eq!(symbols.references_to(greet.id()).len(), 2);
    assert!(symbols.duplicates().is_empty());
}

#[test]
fn rust_duplicate_functions_in_the_same_module_are_reported() {
    let (_document, session) = session_for("dup.rs", "fn foo() {}\nfn foo() {}\n");
    let symbols = session.symbols();

    assert_eq!(symbols.definitions_named("foo").len(), 2);
    assert_eq!(symbols.duplicates().len(), 1);
    assert_eq!(symbols.duplicates()[0].name(), "foo");
    assert_eq!(symbols.duplicates()[0].kind(), SymbolKind::Function);
    assert_eq!(symbols.duplicates()[0].definition_ids().len(), 2);
}

#[test]
fn toml_tree_and_key_definitions() {
    let source = "[package]\nname = \"caduceus\"\n";
    let (_document, session) = session_for("Cargo.toml", source);
    let syntax = session.syntax().expect("toml tree");
    let symbols = session.symbols();

    assert!(syntax.root().find_kind("table").is_some());
    assert!(syntax.root().find_kind("pair").is_some());
    assert_eq!(symbols.definitions_named("package").len(), 1);
    assert_eq!(symbols.definitions_named("name").first().map(|def| def.kind()), Some(SymbolKind::Constant));
}

#[test]
fn syncing_the_same_revision_again_changes_nothing() {
    let (document, mut session) = session_for("lib.rs", "fn a() {}\n");
    let before = session.syntax().unwrap().clone();
    session.sync(&document.snapshot()).unwrap();
    assert_eq!(session.syntax().unwrap(), &before);
}

fn contains_highlight(source: &str, spans: &[HighlightSpan], text: &str, kind: HighlightKind) -> bool {
    spans.iter().any(|span| span.kind == kind && &source[span.start..span.end] == text)
}

fn highlighting_for(path: &str) -> Highlighting {
    let grammar = grammar_for(path);
    let (highlights, injections, locals, _) = grammar.queries();
    Highlighting::new(&grammar, highlights, injections, locals).unwrap()
}

#[test]
fn highlights_rust_source() {
    let source = "fn main() { let message = \"hello\"; // greeting\n}";
    let spans = highlighting_for("main.rs").highlight(source).unwrap();

    assert!(contains_highlight(source, &spans, "fn", HighlightKind::Keyword));
    assert!(contains_highlight(source, &spans, "\"hello\"", HighlightKind::String));
    assert!(contains_highlight(source, &spans, "// greeting", HighlightKind::Comment));
}

#[test]
fn highlights_toml_source() {
    let source = "[package]\nname = \"atelier\"\nversion = 1\n";
    let spans = highlighting_for("Cargo.toml").highlight(source).unwrap();

    assert!(contains_highlight(source, &spans, "\"atelier\"", HighlightKind::String));
    assert!(contains_highlight(source, &spans, "1", HighlightKind::Number));
}
