use atelier::{
    ByteOffset, ByteRange, DefinitionLookup, ReferenceLookup, SymbolGraph, SymbolKind, SymbolRole, SymbolTag,
};

fn range(start: usize, end: usize) -> ByteRange {
    ByteRange::new(ByteOffset::new(start), ByteOffset::new(end))
}

fn greet_graph() -> SymbolGraph {
    let file = range(0, 40);
    SymbolGraph::from_tags(vec![
        SymbolTag::definition("greet", SymbolKind::Function, range(3, 8), range(0, 12), file),
        SymbolTag::reference("greet", SymbolKind::Function, range(20, 25), range(20, 27), file),
        SymbolTag::reference("greet", SymbolKind::Function, range(30, 35), range(30, 37), file),
    ])
}

#[test]
fn binds_two_references_to_one_definition() {
    let graph = greet_graph();

    let greet = graph.definitions_named("greet")[0];
    assert_eq!(graph.definitions().len(), 1);
    assert_eq!(graph.references_to(greet.id()).len(), 2);
    assert!(graph.duplicates().is_empty());
}

#[test]
fn reports_duplicate_definitions_in_the_same_scope() {
    let file = range(0, 30);
    let graph = SymbolGraph::from_tags(vec![
        SymbolTag::definition("foo", SymbolKind::Function, range(3, 6), range(0, 10), file),
        SymbolTag::definition("foo", SymbolKind::Function, range(14, 17), range(11, 21), file),
    ]);

    assert_eq!(graph.definitions_named("foo").len(), 2);
    assert_eq!(graph.duplicates().len(), 1);
    assert_eq!(graph.duplicates()[0].name(), "foo");
    assert_eq!(graph.duplicates()[0].definition_ids().len(), 2);
}

#[test]
fn prefers_method_tags_over_function_tags_for_the_same_name() {
    let impl_body = range(0, 40);
    let graph = SymbolGraph::from_tags(vec![
        SymbolTag::definition("len", SymbolKind::Function, range(10, 13), range(4, 20), impl_body),
        SymbolTag::definition("len", SymbolKind::Method, range(10, 13), range(4, 20), impl_body),
    ]);

    assert_eq!(graph.definitions().len(), 1);
    assert_eq!(graph.definitions()[0].kind(), SymbolKind::Method);
}

#[test]
fn jumps_from_a_call_site_to_the_definition() {
    let graph = greet_graph();
    assert_eq!(graph.go_to_definition(ByteOffset::new(21)), DefinitionLookup::Found(range(3, 8)));
}

#[test]
fn find_references_visits_the_definition_and_each_use() {
    let graph = greet_graph();
    let lookup = graph.find_references(ByteOffset::new(21));
    assert_eq!(lookup, ReferenceLookup::Found(vec![range(3, 8), range(20, 25), range(30, 35)]));
    assert_eq!(lookup.next_after(ByteOffset::new(21)), Some(range(30, 35)));
    assert_eq!(lookup.next_after(ByteOffset::new(32)), Some(range(3, 8)));
}

#[test]
fn unresolved_names_do_not_panic() {
    let file = range(0, 20);
    let graph = SymbolGraph::from_tags(vec![SymbolTag::reference(
        "missing",
        SymbolKind::Function,
        range(0, 7),
        range(0, 9),
        file,
    )]);

    assert_eq!(graph.go_to_definition(ByteOffset::new(1)), DefinitionLookup::Unresolved("missing".into()));
    assert_eq!(graph.find_references(ByteOffset::new(1)), ReferenceLookup::Unresolved("missing".into()));
    assert_eq!(graph.go_to_definition(ByteOffset::new(19)), DefinitionLookup::Missing);
}

#[test]
fn tags_keep_what_they_were_made_with() {
    let tag = SymbolTag::reference("x", SymbolKind::Variable, range(1, 2), range(0, 3), range(0, 9));
    assert_eq!(tag.name(), "x");
    assert_eq!(tag.role(), SymbolRole::Reference);
    assert_eq!(tag.kind(), SymbolKind::Variable);
    assert_eq!(tag.name_range(), range(1, 2));
    assert_eq!(tag.range(), range(0, 3));
    assert_eq!(tag.scope(), range(0, 9));
}

#[test]
fn references_to_an_ambiguous_name_stay_unresolved() {
    let file = range(0, 100);
    let inner = range(20, 60);
    let graph = SymbolGraph::from_tags(vec![
        SymbolTag::definition("x", SymbolKind::Variable, range(4, 5), range(0, 10), file),
        SymbolTag::definition("x", SymbolKind::Variable, range(24, 25), range(20, 30), inner),
        SymbolTag::reference("x", SymbolKind::Variable, range(40, 41), range(40, 41), inner),
    ]);
    assert_eq!(graph.definitions().len(), 2);
    assert!(graph.duplicates().is_empty());
    assert_eq!(graph.go_to_definition(ByteOffset::new(40)), DefinitionLookup::Unresolved("x".into()));
}

#[test]
fn one_name_range_keeps_the_first_tag_of_the_highest_priority() {
    let file = range(0, 50);
    let graph = SymbolGraph::from_tags(vec![
        SymbolTag::definition("first", SymbolKind::Function, range(3, 8), range(0, 10), file),
        SymbolTag::definition("second", SymbolKind::Method, range(3, 8), range(0, 11), file),
        SymbolTag::definition("third", SymbolKind::Method, range(3, 8), range(0, 12), file),
        SymbolTag::definition("fourth", SymbolKind::Type, range(3, 8), range(0, 13), file),
    ]);
    assert_eq!(graph.definitions().len(), 1);
    let kept = &graph.definitions()[0];
    assert_eq!(kept.name(), "second");
    assert_eq!(kept.kind(), SymbolKind::Method);
    assert_eq!(kept.range(), range(0, 11));
}

#[test]
fn every_held_identity_names_a_definition() {
    let file = range(0, 60);
    let graph = SymbolGraph::from_tags(vec![
        SymbolTag::definition("outer", SymbolKind::Function, range(3, 8), range(0, 40), file),
        SymbolTag::definition("inner", SymbolKind::Function, range(13, 18), range(10, 20), file),
        SymbolTag::definition("inner", SymbolKind::Function, range(23, 28), range(21, 30), file),
        SymbolTag::reference("outer", SymbolKind::Function, range(45, 50), range(45, 52), file),
    ]);
    let count = graph.definitions().len();
    assert_eq!(count, 3);
    for (index, definition) in graph.definitions().iter().enumerate() {
        assert_eq!(definition.id().get() as usize, index);
        if let Some(container) = definition.container() {
            assert!((container.get() as usize) < count);
        }
    }
    assert_eq!(graph.definitions()[1].container().map(|id| id.get()), Some(0));
    for reference in graph.references() {
        assert!(reference.definition().map_or(true, |id| (id.get() as usize) < count));
    }
    assert_eq!(graph.references()[0].definition().map(|id| id.get()), Some(0));
    for group in graph.duplicates() {
        assert!(group.definition_ids().iter().all(|id| (id.get() as usize) < count));
    }
    assert_eq!(graph.duplicates().len(), 1);
}
