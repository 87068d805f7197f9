//! The documents open in a workspace, which one is active, and what leaving
//! a document or a project with unsaved changes comes to.

use vstd::prelude::*;

use crate::files::{file_name_of, spec_file_name};
use crate::strings::text_eq;

verus! {

/// The documents open in a workspace, by path, and the active one.
pub struct OpenTabs {
    paths: Vec<String>,
    active: Option<usize>,
}

/// What the open tabs hold: their paths and the active index.
pub struct TabsView {
    pub paths: Seq<Seq<char>>,
    pub active: Option<usize>,
}

impl View for OpenTabs {
    type V = TabsView;

    closed spec fn view(&self) -> TabsView {
        TabsView { paths: self.paths@.map_values(|p: String| p@), active: self.active }
    }
}

/// The active index after the tab at `index` closes out of `len` tabs: none
/// when none is left; the same tab when it comes before; one less when it
/// comes after; the tab that takes the closed one's place (or the new last
/// one) when the active tab closes.
pub open spec fn active_after_close(active: Option<usize>, index: int, len: int) -> Option<usize> {
    match active {
        None => None,
        Some(a) => if len - 1 == 0 {
            None
        } else if a > index {
            Some((a - 1) as usize)
        } else if a == index {
            Some((if index < len - 1 { index } else { len - 2 }) as usize)
        } else {
            Some(a)
        },
    }
}

impl OpenTabs {
    /// Every tab has a path and the active index names a tab.
    pub open spec fn wf(&self) -> bool {
        self@.active matches Some(a) ==> a < self@.paths.len()
    }

    /// No documents open.
    pub fn new() -> (tabs: Self)
        ensures
            tabs.wf(),
            tabs@.paths.len() == 0,
            tabs@.active is None,
    {
        let tabs = OpenTabs { paths: Vec::new(), active: None };
        assert(tabs@.paths =~= Seq::<Seq<char>>::empty());
        tabs
    }

    pub fn len(&self) -> (len: usize)
        ensures
            len == self@.paths.len(),
    {
        self.paths.len()
    }

    pub fn active(&self) -> (active: Option<usize>)
        ensures
            active == self@.active,
    {
        self.active
    }

    pub fn path(&self, index: usize) -> (path: Option<&str>)
        ensures
            match path {
                Some(p) => index < self@.paths.len() && p@ == self@.paths[index as int],
                None => index >= self@.paths.len(),
            },
    {
        if index < self.paths.len() {
            Some(self.paths[index].as_str())
        } else {
            None
        }
    }

    /// The first tab showing `path`.
    pub fn position_of(&self, path: &str) -> (index: Option<usize>)
        ensures
            match index {
                Some(i) => i < self@.paths.len() && self@.paths[i as int] == path@ && forall|j: int|
                    0 <= j < i ==> self@.paths[j] != path@,
                None => forall|j: int| 0 <= j < self@.paths.len() ==> self@.paths[j] != path@,
            },
    {
        let mut i: usize = 0;
        while i < self.paths.len()
            invariant
                0 <= i <= self.paths@.len(),
                forall|j: int| 0 <= j < i ==> self@.paths[j] != path@,
            decreases self.paths@.len() - i,
        {
            if text_eq(self.paths[i].as_str(), path) {
                return Some(i);
            }
            i = i + 1;
        }
        None
    }

    /// Opens a tab for `path` after the others and makes it active.
    pub fn add(&mut self, path: String) -> (index: usize)
        requires
            old(self).wf(),
        ensures
            final(self).wf(),
            index == old(self)@.paths.len(),
            final(self)@.paths == old(self)@.paths.push(path@),
            final(self)@.active == Some(index),
    {
        let ghost before = self.paths@;
        self.paths.push(path);
        assert(self@.paths =~= before.map_values(|p: String| p@).push(self.paths@.last()@));
        let index = self.paths.len() - 1;
        self.active = Some(index);
        index
    }

    /// Makes the tab at `index` active, if there is one.
    pub fn activate(&mut self, index: usize)
        requires
            old(self).wf(),
        ensures
            final(self).wf(),
            final(self)@.paths == old(self)@.paths,
            final(self)@.active == if index < old(self)@.paths.len() {
                Some(index)
            } else {
                old(self)@.active
            },
    {
        if index < self.paths.len() {
            self.active = Some(index);
        }
    }

    /// Closes the tab at `index`, if there is one; whether it was the active one.
    pub fn close(&mut self, index: usize) -> (closed_active: bool)
        requires
            old(self).wf(),
        ensures
            final(self).wf(),
            index >= old(self)@.paths.len() ==> final(self)@ == old(self)@ && !closed_active,
            index < old(self)@.paths.len() ==> {
                &&& final(self)@.paths == old(self)@.paths.remove(index as int)
                &&& final(self)@.active == active_after_close(old(self)@.active, index as int, old(self)@.paths.len() as int)
                &&& closed_active == (old(self)@.active == Some(index))
            },
    {
        let len = self.paths.len();
        if index >= len {
            return false;
        }
        let closed_active = match self.active {
            Some(a) => a == index,
            None => false,
        };
        let ghost before = self.paths@;
        self.paths.remove(index);
        assert(self@.paths =~= before.map_values(|p: String| p@).remove(index as int));
        self.active = match self.active {
            None => None,
            Some(a) => if len - 1 == 0 {
                None
            } else if a > index {
                Some(a - 1)
            } else if a == index {
                Some(if index < len - 1 { index } else { len - 2 })
            } else {
                Some(a)
            },
        };
        closed_active
    }
}

/// What to do when asked to close a document or leave a project.
#[derive(Clone, Copy, Debug, PartialEq, Eq, Structural)]
pub enum CloseStep {
    /// Nothing would be lost: close now.
    Close,
    /// Unsaved changes: ask whether to save, discard or cancel first.
    AskToSave,
}

pub fn close_step(unsaved_changes: bool) -> (step: CloseStep)
    ensures
        step == if unsaved_changes { CloseStep::AskToSave } else { CloseStep::Close },
{
    if unsaved_changes {
        CloseStep::AskToSave
    } else {
        CloseStep::Close
    }
}

/// What the answer to the save prompt comes to.
#[derive(Clone, Copy, Debug, PartialEq, Eq, Structural)]
pub enum PromptOutcome {
    /// Save, and close once saving succeeded.
    SaveThenClose,
    /// Close without saving.
    Close,
    /// Keep everything open.
    Keep,
}

/// The outcome of the choice made among Save (0), Discard (1) and Cancel
/// (2); a dismissed prompt keeps everything open.
pub fn prompt_outcome(choice: Option<usize>) -> (outcome: PromptOutcome)
    ensures
        outcome == match choice {
            Some(0) => PromptOutcome::SaveThenClose,
            Some(1) => PromptOutcome::Close,
            _ => PromptOutcome::Keep,
        },
{
    match choice {
        Some(0) => PromptOutcome::SaveThenClose,
        Some(1) => PromptOutcome::Close,
        _ => PromptOutcome::Keep,
    }
}

/// The name a document goes by: its file name, or its whole path when the
/// path names no file.
pub open spec fn spec_display_name(path: Seq<char>) -> Seq<char> {
    match spec_file_name(path) {
        Some(name) => name,
        None => path,
    }
}

/// The name the document at `path` goes by.
pub fn display_name(path: &str) -> (name: &str)
    ensures
        name@ == spec_display_name(path@),
{
    match file_name_of(path) {
        Some(name) => name,
        None => path,
    }
}

/// A tab's label: the document's name, marked when it has unsaved changes.
pub fn tab_label(path: &str, modified: bool) -> (label: String)
    ensures
        label@ == if modified { spec_display_name(path@) + " ●"@ } else { spec_display_name(path@) },
{
    let mut label = display_name(path).to_owned();
    if modified {
        label.append(" ●");
    }
    label
}

/// The question asked before closing a modified document.
pub fn save_prompt_title(path: &str) -> (title: String)
    ensures
        title@ == "Save changes to "@ + spec_display_name(path@) + "?"@,
{
    let mut title = String::new();
    title.append("Save changes to ");
    title.append(display_name(path));
    title.append("?");
    title
}

/// What saving `path` failing with `error` tells the user.
pub fn save_failed_message(path: &str, error: &str) -> (message: String)
    ensures
        message@ == "Could not save "@ + path@ + ": "@ + error@,
{
    let mut message = String::new();
    message.append("Could not save ");
    message.append(path);
    message.append(": ");
    message.append(error);
    message
}

/// The editor's status line about saving: the last save's failure if there
/// was one, else whether there are unsaved changes.
pub fn save_status(save_error: Option<&str>, modified: bool) -> (status: String)
    ensures
        status@ == match save_error {
            Some(error) => "Save failed: "@ + error@,
            None => if modified {
                "Unsaved changes · Ctrl+S to save"@
            } else {
                "Saved · Ctrl+S"@
            },
        },
{
    match save_error {
        Some(error) => {
            let mut status = String::new();
            status.append("Save failed: ");
            status.append(error);
            status
        },
        None => if modified {
            "Unsaved changes · Ctrl+S to save".to_owned()
        } else {
            "Saved · Ctrl+S".to_owned()
        },
    }
}

/// The editor's label for its document: the path, or "Untitled" for a
/// document that has none.
pub fn document_label(path: Option<&str>) -> (label: &str)
    ensures
        label@ == match path {
            Some(p) => p@,
            None => "Untitled"@,
        },
{
    match path {
        Some(p) => p,
        None => "Untitled",
    }
}

/// The editor's label for its language: the language's name, or "Plain
/// text" without one.
pub fn language_label(language: Option<&str>) -> (label: &str)
    ensures
        label@ == match language {
            Some(name) => name@,
            None => "Plain text"@,
        },
{
    match language {
        Some(name) => name,
        None => "Plain text",
    }
}

/// Highlighting and analysis are redone only for a revision that was not
/// the last one done.
pub fn needs_refresh(done: Option<u64>, current: u64) -> (refresh: bool)
    ensures
        refresh == (done != Some(current)),
{
    match done {
        Some(revision) => revision != current,
        None => true,
    }
}

} // verus!
