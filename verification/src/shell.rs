//! The application shell's decisions: what leaving a project for the
//! welcome screen, for another folder or for a given path comes to, given
//! whether unsaved changes are open and what the user answers. Prompting,
//! saving and opening are the caller's part; it reports back what happened.

use vstd::prelude::*;

use crate::registry::ProjectRegistry;

verus! {

/// What the shell shows.
#[derive(Clone, Copy, Debug, PartialEq, Eq, Structural)]
pub enum Screen {
    Welcome,
    Project,
}

/// Where the user is going when leaving the open project.
pub enum LeaveIntent {
    /// Back to the welcome screen.
    Welcome,
    /// To a folder still to be picked.
    OpenFolder,
    /// To the project at `path`, with `file` open in it.
    OpenPath { path: String, file: Option<String> },
}

/// What the shell does next.
pub enum ShellAction {
    /// Nothing: the request does not apply, or was cancelled.
    Nothing,
    /// Ask whether to save, discard or cancel, then go on with the intent.
    AskToSave(LeaveIntent),
    /// Save every open document; go on with the intent if that succeeds.
    SaveAllThenLeave(LeaveIntent),
    /// Show the welcome screen.
    ShowWelcome,
    /// Let the user pick a folder, and open it.
    PickFolder,
    /// Open the project at `path`, with `file` open in it.
    Open { path: String, file: Option<String> },
}

/// Going on with an intent once nothing stands in the way.
pub open spec fn spec_commit(intent: LeaveIntent) -> ShellAction {
    match intent {
        LeaveIntent::Welcome => ShellAction::ShowWelcome,
        LeaveIntent::OpenFolder => ShellAction::PickFolder,
        LeaveIntent::OpenPath { path, file } => ShellAction::Open { path, file },
    }
}

/// Leaving with unsaved changes asks first; otherwise the intent goes on.
pub open spec fn spec_leave(intent: LeaveIntent, unsaved_changes: bool) -> ShellAction {
    if unsaved_changes {
        ShellAction::AskToSave(intent)
    } else {
        spec_commit(intent)
    }
}

/// Goes on with `intent`.
pub fn commit_leave(intent: LeaveIntent) -> (action: ShellAction)
    ensures
        action == spec_commit(intent),
{
    match intent {
        LeaveIntent::Welcome => ShellAction::ShowWelcome,
        LeaveIntent::OpenFolder => ShellAction::PickFolder,
        LeaveIntent::OpenPath { path, file } => ShellAction::Open { path, file },
    }
}

/// Leaves the open project for `intent`.
pub fn leave(intent: LeaveIntent, unsaved_changes: bool) -> (action: ShellAction)
    ensures
        action == spec_leave(intent, unsaved_changes),
{
    if unsaved_changes {
        ShellAction::AskToSave(intent)
    } else {
        commit_leave(intent)
    }
}

/// The answer to "save before leaving?" among Save (0), Discard (1) and
/// Cancel (2): save first, leave without saving, or stay; a dismissed
/// prompt stays.
pub fn answer_leave_prompt(intent: LeaveIntent, choice: Option<usize>) -> (action: ShellAction)
    ensures
        action == match choice {
            Some(0) => ShellAction::SaveAllThenLeave(intent),
            Some(1) => spec_commit(intent),
            _ => ShellAction::Nothing,
        },
{
    match choice {
        Some(0) => ShellAction::SaveAllThenLeave(intent),
        Some(1) => commit_leave(intent),
        _ => ShellAction::Nothing,
    }
}

/// After saving everything before leaving: go on only if it all saved.
pub fn after_save_all(intent: LeaveIntent, saved: bool) -> (action: ShellAction)
    ensures
        action == if saved { spec_commit(intent) } else { ShellAction::Nothing },
{
    if saved {
        commit_leave(intent)
    } else {
        ShellAction::Nothing
    }
}

/// Closing the project returns to the welcome screen; on the welcome screen
/// there is nothing to close.
pub fn close_project(screen: Screen, unsaved_changes: bool) -> (action: ShellAction)
    ensures
        action == match screen {
            Screen::Welcome => ShellAction::Nothing,
            Screen::Project => spec_leave(LeaveIntent::Welcome, unsaved_changes),
        },
{
    match screen {
        Screen::Welcome => ShellAction::Nothing,
        Screen::Project => leave(LeaveIntent::Welcome, unsaved_changes),
    }
}

/// Opening a folder leaves the open project for one the user picks.
pub fn open_folder(unsaved_changes: bool) -> (action: ShellAction)
    ensures
        action == spec_leave(LeaveIntent::OpenFolder, unsaved_changes),
{
    leave(LeaveIntent::OpenFolder, unsaved_changes)
}

/// Opening the recent project at `index` leaves the open project for it;
/// an index past the list does nothing.
pub fn open_recent(registry: &ProjectRegistry, index: usize, unsaved_changes: bool) -> (action: ShellAction)
    ensures
        index >= registry@.len() ==> action == ShellAction::Nothing,
        index < registry@.len() ==> exists|path: String|
            path@ == registry@[index as int].path@ && action == spec_leave(
                LeaveIntent::OpenPath { path, file: None },
                unsaved_changes,
            ),
{
    let projects = registry.projects();
    if index >= projects.len() {
        return ShellAction::Nothing;
    }
    let path = projects[index].path.clone();
    leave(LeaveIntent::OpenPath { path, file: None }, unsaved_changes)
}

/// What opening `path` failing with `error` tells the user.
pub open spec fn spec_open_failed(path: Seq<char>, error: Seq<char>) -> Seq<char> {
    "Could not open "@ + path + ": "@ + error
}

/// The message for a path that could not be opened.
pub fn open_failed_message(path: &str, error: &str) -> (message: String)
    ensures
        message@ == spec_open_failed(path@, error@),
{
    let mut message = String::new();
    message.append("Could not open ");
    message.append(path);
    message.append(": ");
    message.append(error);
    message
}

/// A warning joined to the message already shown, if any, after `; `.
pub fn add_warning(existing: Option<String>, warning: &str) -> (message: String)
    ensures
        message@ == match existing {
            Some(e) => e@ + "; "@ + warning@,
            None => warning@,
        },
{
    match existing {
        Some(e) => {
            let mut message = e;
            message.append("; ");
            message.append(warning);
            message
        },
        None => warning.to_owned(),
    }
}

} // verus!
