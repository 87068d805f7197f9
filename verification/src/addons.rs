//! Language edit rules, editor settings and search options.

use vstd::prelude::*;

use crate::strings::push_char;

verus! {

/// Language-facing editor behavior that add-ons can supply: how to comment
/// lines and which characters come in pairs.
#[derive(Clone, Copy, Debug, PartialEq, Eq)]
pub struct LanguageEditRules {
    line_comment: Option<&'static str>,
    pairs: &'static [(char, char)],
}

/// The first pair whose opening character is `open`, if any.
pub open spec fn spec_closing_for(pairs: Seq<(char, char)>, open: char) -> Option<char> {
    if exists|i: int| 0 <= i < pairs.len() && pairs[i].0 == open {
        let i = choose|i: int|
            0 <= i < pairs.len() && pairs[i].0 == open && forall|j: int| 0 <= j < i ==> pairs[j].0 != open;
        Some(pairs[i].1)
    } else {
        None
    }
}

/// The first pair whose closing character is `close`, if any.
pub open spec fn spec_opening_for(pairs: Seq<(char, char)>, close: char) -> Option<char> {
    if exists|i: int| 0 <= i < pairs.len() && pairs[i].1 == close {
        let i = choose|i: int|
            0 <= i < pairs.len() && pairs[i].1 == close && forall|j: int| 0 <= j < i ==> pairs[j].1 != close;
        Some(pairs[i].0)
    } else {
        None
    }
}

impl LanguageEditRules {
    pub const DEFAULT_PAIRS: [(char, char); 4] = [('(', ')'), ('[', ']'), ('{', '}'), ('"', '"')];

    pub closed spec fn spec_line_comment(self) -> Option<&'static str> {
        self.line_comment
    }

    pub closed spec fn spec_pairs(self) -> Seq<(char, char)> {
        self.pairs@
    }

    pub fn new(line_comment: Option<&'static str>, pairs: &'static [(char, char)]) -> (rules: Self)
        ensures
            rules.spec_line_comment() == line_comment,
            rules.spec_pairs() == pairs@,
    {
        LanguageEditRules { line_comment, pairs }
    }

    pub fn line_comment(self) -> (prefix: Option<&'static str>)
        ensures
            prefix == self.spec_line_comment(),
    {
        self.line_comment
    }

    pub fn pairs(self) -> (pairs: &'static [(char, char)])
        ensures
            pairs@ == self.spec_pairs(),
    {
        self.pairs
    }

    pub fn closing_for(self, open: char) -> (close: Option<char>)
        ensures
            close == spec_closing_for(self.spec_pairs(), open),
    {
        let mut i: usize = 0;
        while i < self.pairs.len()
            invariant
                0 <= i <= self.pairs@.len(),
                forall|j: int| 0 <= j < i ==> self.pairs@[j].0 != open,
            decreases self.pairs@.len() - i,
        {
            let (left, right) = self.pairs[i];
            if left == open {
                proof {
                    let c = choose|c: int|
                        0 <= c < self.pairs@.len() && self.pairs@[c].0 == open && forall|j: int|
                            0 <= j < c ==> self.pairs@[j].0 != open;
                    assert(0 <= i < self.pairs@.len() && self.pairs@[i as int].0 == open);
                    assert(c == i);
                }
                return Some(right);
            }
            i = i + 1;
        }
        None
    }

    pub fn opening_for(self, close: char) -> (open: Option<char>)
        ensures
            open == spec_opening_for(self.spec_pairs(), close),
    {
        let mut i: usize = 0;
        while i < self.pairs.len()
            invariant
                0 <= i <= self.pairs@.len(),
                forall|j: int| 0 <= j < i ==> self.pairs@[j].1 != close,
            decreases self.pairs@.len() - i,
        {
            let (left, right) = self.pairs[i];
            if right == close {
                proof {
                    let c = choose|c: int|
                        0 <= c < self.pairs@.len() && self.pairs@[c].1 == close && forall|j: int|
                            0 <= j < c ==> self.pairs@[j].1 != close;
                    assert(0 <= i < self.pairs@.len() && self.pairs@[i as int].1 == close);
                    assert(c == i);
                }
                return Some(left);
            }
            i = i + 1;
        }
        None
    }
}

impl Default for LanguageEditRules {
    /// No line comment; the default pairs.
    fn default() -> (rules: Self)
        ensures
            rules.spec_line_comment() is None,
            rules.spec_pairs() == Self::DEFAULT_PAIRS@,
    {
        LanguageEditRules { line_comment: None, pairs: &Self::DEFAULT_PAIRS }
    }
}


/// Tab and indent preferences for the text editor core.
#[derive(Clone, Copy, Debug, PartialEq, Eq, Structural)]
pub struct EditorSettings {
    tab_width: usize,
    indent_with_spaces: bool,
}

/// One level of indentation: `tab_width` spaces, or a tab.
pub open spec fn spec_indent_unit(tab_width: usize, indent_with_spaces: bool) -> Seq<char> {
    if indent_with_spaces {
        Seq::new(tab_width as nat, |i: int| ' ')
    } else {
        seq!['\t']
    }
}

impl EditorSettings {
    pub closed spec fn spec_tab_width(self) -> usize {
        self.tab_width
    }

    pub closed spec fn spec_indent_with_spaces(self) -> bool {
        self.indent_with_spaces
    }

    /// A tab width of zero stands for four.
    pub fn new(tab_width: usize, indent_with_spaces: bool) -> (settings: Self)
        ensures
            settings.spec_tab_width() == if tab_width == 0 {
                4
            } else {
                tab_width
            },
            settings.spec_indent_with_spaces() == indent_with_spaces,
    {
        EditorSettings {
            tab_width: if tab_width == 0 {
                4
            } else {
                tab_width
            },
            indent_with_spaces,
        }
    }

    pub fn tab_width(self) -> (width: usize)
        ensures
            width == self.spec_tab_width(),
    {
        self.tab_width
    }

    pub fn indent_with_spaces(self) -> (spaces: bool)
        ensures
            spaces == self.spec_indent_with_spaces(),
    {
        self.indent_with_spaces
    }

    pub fn indent_unit(self) -> (unit: String)
        ensures
            unit@ == spec_indent_unit(self.spec_tab_width(), self.spec_indent_with_spaces()),
    {
        let mut unit = String::new();
        if self.indent_with_spaces {
            let mut i: usize = 0;
            while i < self.tab_width
                invariant
                    0 <= i <= self.tab_width,
                    unit@ =~= Seq::new(i as nat, |k: int| ' '),
                decreases self.tab_width - i,
            {
                push_char(&mut unit, ' ');
                i = i + 1;
            }
        } else {
            push_char(&mut unit, '\t');
        }
        unit
    }
}

impl Default for EditorSettings {
    /// Four spaces.
    fn default() -> (settings: Self)
        ensures
            settings.spec_tab_width() == 4,
            settings.spec_indent_with_spaces(),
    {
        EditorSettings { tab_width: 4, indent_with_spaces: true }
    }
}

/// An add-on that customizes core editing for a language.
///
/// Intelligence (highlighting, trees, language servers) belongs to a separate
/// layer that only reuses these edit rules.
pub trait LanguageAddon: Send + Sync {
    fn id(&self) -> &'static str;

    fn matches_path(&self, path: &str) -> bool;

    /// The language's edit rules; unless an add-on says otherwise, no line
    /// comment and the default pairs.
    fn edit_rules(&self) -> (rules: LanguageEditRules)
        default_ensures
            rules.spec_line_comment() is None,
            rules.spec_pairs() == LanguageEditRules::DEFAULT_PAIRS@,
    {
        LanguageEditRules::default()
    }
}

/// Search options used by the editor feature layer.
#[derive(Clone, Debug, Default, PartialEq, Eq)]
pub struct SearchQuery {
    pub text: String,
    pub case_sensitive: bool,
    pub whole_word: bool,
}

impl SearchQuery {
    /// A query for `text`, ignoring case, matching inside words too.
    pub fn new(text: &str) -> (query: Self)
        ensures
            query.text@ == text@,
            !query.case_sensitive,
            !query.whole_word,
    {
        SearchQuery { text: text.to_owned(), case_sensitive: false, whole_word: false }
    }
}

} // verus!
