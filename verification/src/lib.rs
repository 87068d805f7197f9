//! UI-independent foundations for the Atelier editor, verified with Verus.
//!
//! The crate holds three models:
//! - **text**: `Document`, byte offsets and ranges, edits and lines;
//! - **editor**: selections, caret motion, editing commands, search and an
//!   undo history;
//! - **workspace and intelligence**: projects, recent projects, syntax trees
//!   and a symbol graph.
//!
//! Reading and writing files, resolving directories, parsing and the user
//! interface are the caller's part; language add-ons share only
//! [`LanguageEditRules`] with the text core.

pub mod addons;
pub mod changes;
pub mod chars;
pub mod document;
pub mod editor;
pub mod files;
pub mod highlight;
pub mod languages;
pub mod layout;
pub mod lines;
pub mod menu;
pub mod parsing;
pub mod paths;
pub mod project;
pub mod registry;
pub mod rope;
pub mod search;
pub mod shell;
pub mod strings;
pub mod symbols;
pub mod syntax;
pub mod tags;
pub mod text;
pub mod utf16;
pub mod workspace;

pub use addons::{EditorSettings, LanguageAddon, LanguageEditRules, SearchQuery};
pub use document::{Document, DocumentSnapshot};
pub use editor::{Editor, Selection};
pub use paths::AppPaths;
pub use project::{is_ignored, sort_entries, Project, ProjectEntry, ProjectEntryKind, PROJECT_METADATA_DIR};
pub use registry::{ProjectRegistry, RecentProject};
pub use symbols::{
    Definition, DefinitionId, DefinitionLookup, DuplicateDefinitions, Reference, ReferenceLookup,
    SymbolGraph, SymbolKind, SymbolRole, SymbolTag,
};
pub use syntax::{SyntaxNode, SyntaxTree};
pub use text::{ByteOffset, ByteRange, DocumentId, DocumentIds, EditError, Revision};
