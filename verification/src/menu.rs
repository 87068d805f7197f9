//! The window's menus: the title of each menu, its entries (`-` standing for
//! a separator), which action each row of a menu list stands for, and which
//! window edge a pointer near the border resizes.

use vstd::prelude::*;

verus! {

/// The menus of the title bar.
#[derive(Clone, Copy, Debug, PartialEq, Eq, Structural)]
pub enum MenuBarMenu {
    File,
    Edit,
    View,
    Help,
}

/// The entries of a menu, in order; `-` is a separator.
pub open spec fn spec_menu_items(menu: MenuBarMenu) -> Seq<Seq<char>> {
    match menu {
        MenuBarMenu::File => seq![
            "Open Folder"@,
            "-"@,
            "Close"@,
            "Close Project"@,
            "-"@,
            "Save"@,
            "-"@,
            "Quit"@,
        ],
        MenuBarMenu::Edit => seq![
            "Undo"@,
            "Redo"@,
            "-"@,
            "Cut"@,
            "Copy"@,
            "Paste"@,
            "Select All"@,
            "-"@,
            "Find"@,
            "Find Next"@,
            "Replace"@,
            "-"@,
            "Toggle Comment"@,
            "Indent"@,
            "Outdent"@,
            "-"@,
            "Go to Line"@,
            "-"@,
            "Go to Definition"@,
            "Find References"@,
            "Go Back"@,
        ],
        MenuBarMenu::View => seq!["Welcome"@],
        MenuBarMenu::Help => seq!["About Atelier"@],
    }
}

/// The texts of a list of entries.
pub open spec fn texts(items: Seq<&'static str>) -> Seq<Seq<char>> {
    items.map_values(|item: &'static str| item@)
}

impl MenuBarMenu {
    /// The menu's title.
    pub fn label(self) -> (label: &'static str)
        ensures
            label@ == match self {
                MenuBarMenu::File => "File"@,
                MenuBarMenu::Edit => "Edit"@,
                MenuBarMenu::View => "View"@,
                MenuBarMenu::Help => "Help"@,
            },
    {
        match self {
            MenuBarMenu::File => "File",
            MenuBarMenu::Edit => "Edit",
            MenuBarMenu::View => "View",
            MenuBarMenu::Help => "Help",
        }
    }

    /// The menu's entries.
    pub fn items(self) -> (items: Vec<&'static str>)
        ensures
            texts(items@) == spec_menu_items(self),
    {
        let items = match self {
            MenuBarMenu::File => vec!["Open Folder", "-", "Close", "Close Project", "-", "Save", "-", "Quit"],
            MenuBarMenu::Edit => vec![
                "Undo",
                "Redo",
                "-",
                "Cut",
                "Copy",
                "Paste",
                "Select All",
                "-",
                "Find",
                "Find Next",
                "Replace",
                "-",
                "Toggle Comment",
                "Indent",
                "Outdent",
                "-",
                "Go to Line",
                "-",
                "Go to Definition",
                "Find References",
                "Go Back",
            ],
            MenuBarMenu::View => vec!["Welcome"],
            MenuBarMenu::Help => vec!["About Atelier"],
        };
        assert(texts(items@) =~= spec_menu_items(self));
        items
    }
}

/// Whether an entry separates groups.
pub open spec fn is_separator(item: Seq<char>) -> bool {
    item == "-"@
}

/// How many of the first `k` entries are actions: every entry, or in a list
/// every entry but the separators.
pub open spec fn actions_before(items: Seq<Seq<char>>, k: int, separators: bool) -> nat
    decreases k,
{
    if k <= 0 {
        0
    } else {
        actions_before(items, k - 1, separators) + if separators && is_separator(items[k - 1]) {
            0nat
        } else {
            1nat
        }
    }
}

/// What each row of a menu panel stands for: a separator line (none), or
/// the index of the action it selects. Only a list draws separators; a
/// popup shows every entry as an action.
pub open spec fn spec_menu_rows(items: Seq<Seq<char>>, separators: bool) -> Seq<Option<usize>> {
    Seq::new(
        items.len(),
        |k: int|
            if separators && is_separator(items[k]) {
                None
            } else {
                Some(actions_before(items, k, separators) as usize)
            },
    )
}

/// What each row of a menu panel over `items` stands for.
pub fn menu_rows(items: &[&'static str], separators: bool) -> (rows: Vec<Option<usize>>)
    ensures
        rows@ == spec_menu_rows(texts(items@), separators),
{
    let ghost t = texts(items@);
    let mut rows: Vec<Option<usize>> = Vec::new();
    let mut action: usize = 0;
    let mut k: usize = 0;
    while k < items.len()
        invariant
            t == texts(items@),
            0 <= k <= items@.len(),
            action == actions_before(t, k as int, separators),
            action <= k,
            rows@ == spec_menu_rows(t, separators).take(k as int),
        decreases items@.len() - k,
    {
        proof {
            reveal_strlit("-");
        }
        let item = items[k];
        let separator = separators && item.unicode_len() == 1 && item.get_char(0) == '-';
        assert(separator == (separators && is_separator(t[k as int]))) by {
            assert(t[k as int] == item@);
            if separators && is_separator(t[k as int]) {
                assert(item@ == "-"@);
            }
            if item@.len() == 1 && item@[0] == '-' {
                assert(item@ =~= "-"@);
            }
        }
        if separator {
            rows.push(None);
        } else {
            rows.push(Some(action));
            action = action + 1;
        }
        assert(rows@ =~= spec_menu_rows(t, separators).take(k + 1));
        k = k + 1;
    }
    assert(rows@ =~= spec_menu_rows(t, separators));
    rows
}

/// A window edge or corner.
#[derive(Clone, Copy, Debug, PartialEq, Eq, Structural)]
pub enum ResizeEdge {
    Top,
    TopRight,
    Right,
    BottomRight,
    Bottom,
    BottomLeft,
    Left,
    TopLeft,
}

/// The edge a pointer resizes, given which borders it is near: a corner
/// when near two, the top and bottom before the sides.
pub fn resize_edge(at_top: bool, at_bottom: bool, at_left: bool, at_right: bool) -> (edge: Option<ResizeEdge>)
    ensures
        edge == if at_top && at_left {
            Some(ResizeEdge::TopLeft)
        } else if at_top && at_right {
            Some(ResizeEdge::TopRight)
        } else if at_bottom && at_left {
            Some(ResizeEdge::BottomLeft)
        } else if at_bottom && at_right {
            Some(ResizeEdge::BottomRight)
        } else if at_top {
            Some(ResizeEdge::Top)
        } else if at_bottom {
            Some(ResizeEdge::Bottom)
        } else if at_left {
            Some(ResizeEdge::Left)
        } else if at_right {
            Some(ResizeEdge::Right)
        } else {
            None
        },
{
    match (at_top, at_bottom, at_left, at_right) {
        (true, _, true, _) => Some(ResizeEdge::TopLeft),
        (true, _, _, true) => Some(ResizeEdge::TopRight),
        (_, true, true, _) => Some(ResizeEdge::BottomLeft),
        (_, true, _, true) => Some(ResizeEdge::BottomRight),
        (true, _, _, _) => Some(ResizeEdge::Top),
        (_, true, _, _) => Some(ResizeEdge::Bottom),
        (_, _, true, _) => Some(ResizeEdge::Left),
        (_, _, _, true) => Some(ResizeEdge::Right),
        _ => None,
    }
}

} // verus!
