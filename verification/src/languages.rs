//! The languages the editor knows, and which of them claims a file: the
//! first whose extensions hold the file's extension, ignoring ASCII case.
//! Highlighting and parsing for each language are the caller's part.

use vstd::prelude::*;

use crate::files::{eq_ignore_ascii_case, matches_extension, path_extension, spec_path_extension};

verus! {

/// A language, by name, and the file extensions it claims.
#[derive(Clone, Copy)]
pub struct LanguageEntry {
    pub name: &'static str,
    pub file_extensions: &'static [&'static str],
}

/// Whether `entry` claims the file `path` names: the file has an extension
/// and it is one of the entry's, ignoring ASCII case.
pub open spec fn claims(entry: LanguageEntry, path: Seq<char>) -> bool {
    match spec_path_extension(path) {
        Some(e) => exists|i: int|
            0 <= i < entry.file_extensions@.len() && eq_ignore_ascii_case(e, #[trigger] entry.file_extensions@[i]@),
        None => false,
    }
}

/// The extensions of Rust sources.
pub const RUST_EXTENSIONS: [&'static str; 1] = ["rs"];

/// The extensions of TOML files.
pub const TOML_EXTENSIONS: [&'static str; 1] = ["toml"];

/// The languages known, in the order they are asked.
pub struct LanguageRegistry {
    entries: Vec<LanguageEntry>,
}

impl View for LanguageRegistry {
    type V = Seq<LanguageEntry>;

    closed spec fn view(&self) -> Seq<LanguageEntry> {
        self.entries@
    }
}

impl LanguageRegistry {
    /// The given languages, asked in the given order.
    pub fn new(entries: Vec<LanguageEntry>) -> (registry: Self)
        ensures
            registry@ == entries@,
    {
        LanguageRegistry { entries }
    }

    /// The built-in languages: Rust (`rs`), then TOML (`toml`).
    pub fn built_in() -> (registry: Self)
        ensures
            registry@.len() == 2,
            registry@[0].name@ == "Rust"@,
            registry@[0].file_extensions@ == RUST_EXTENSIONS@,
            registry@[1].name@ == "TOML"@,
            registry@[1].file_extensions@ == TOML_EXTENSIONS@,
    {
        let mut entries: Vec<LanguageEntry> = Vec::new();
        entries.push(LanguageEntry { name: "Rust", file_extensions: &RUST_EXTENSIONS });
        entries.push(LanguageEntry { name: "TOML", file_extensions: &TOML_EXTENSIONS });
        LanguageRegistry { entries }
    }

    pub fn len(&self) -> (len: usize)
        ensures
            len == self@.len(),
    {
        self.entries.len()
    }

    /// The language at `index`, if there is one.
    pub fn entry(&self, index: usize) -> (entry: Option<LanguageEntry>)
        ensures
            entry == if index < self@.len() { Some(self@[index as int]) } else { None },
    {
        if index < self.entries.len() {
            Some(self.entries[index])
        } else {
            None
        }
    }

    /// The index of the first language that claims the file `path` names.
    pub fn index_for_path(&self, path: &str) -> (index: Option<usize>)
        ensures
            match index {
                Some(i) => i < self@.len() && claims(self@[i as int], path@) && forall|j: int|
                    0 <= j < i ==> !claims(#[trigger] self@[j], path@),
                None => forall|j: int| 0 <= j < self@.len() ==> !claims(#[trigger] self@[j], path@),
            },
    {
        let extension = path_extension(path);
        let mut i: usize = 0;
        while i < self.entries.len()
            invariant
                0 <= i <= self.entries@.len(),
                match extension {
                    Some(e) => spec_path_extension(path@) == Some(e@),
                    None => spec_path_extension(path@) is None,
                },
                forall|j: int| 0 <= j < i ==> !claims(#[trigger] self.entries@[j], path@),
            decreases self.entries@.len() - i,
        {
            if matches_extension(extension, self.entries[i].file_extensions) {
                return Some(i);
            }
            i = i + 1;
        }
        None
    }

    /// The first language that claims the file `path` names.
    pub fn extension_for_path(&self, path: &str) -> (entry: Option<LanguageEntry>)
        ensures
            match entry {
                Some(found) => exists|i: int|
                    0 <= i < self@.len() && found == self@[i] && claims(self@[i], path@) && forall|j: int|
                        0 <= j < i ==> !claims(#[trigger] self@[j], path@),
                None => forall|j: int| 0 <= j < self@.len() ==> !claims(#[trigger] self@[j], path@),
            },
    {
        match self.index_for_path(path) {
            Some(i) => Some(self.entries[i]),
            None => None,
        }
    }
}

} // verus!
