use atelier::{EditorSettings, LanguageEditRules, SearchQuery};

#[test]
fn default_rules_pair_braces_but_not_apostrophes() {
    let rules = LanguageEditRules::default();
    assert_eq!(rules.closing_for('{'), Some('}'));
    assert_eq!(rules.closing_for('\''), None);
}

#[test]
fn rules_find_partners_both_ways() {
    let rules = LanguageEditRules::new(Some("--"), &LanguageEditRules::DEFAULT_PAIRS);
    assert_eq!(rules.line_comment(), Some("--"));
    assert_eq!(rules.opening_for(']'), Some('['));
    assert_eq!(rules.opening_for('"'), Some('"'));
    assert_eq!(rules.opening_for('x'), None);
    assert_eq!(rules.pairs().len(), 4);
}

#[test]
fn settings_make_indent_units() {
    assert_eq!(EditorSettings::default().indent_unit(), "    ");
    assert_eq!(EditorSettings::new(2, true).indent_unit(), "  ");
    assert_eq!(EditorSettings::new(0, true).tab_width(), 4);
    assert_eq!(EditorSettings::new(8, false).indent_unit(), "\t");
    assert!(!EditorSettings::new(8, false).indent_with_spaces());
}

#[test]
fn queries_default_to_ignoring_case_inside_words() {
    let query = SearchQuery::new("needle");
    assert_eq!(query.text, "needle");
    assert!(!query.case_sensitive);
    assert!(!query.whole_word);
}
