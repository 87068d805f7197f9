use atelier::menu::{menu_rows, resize_edge, MenuBarMenu, ResizeEdge};

#[test]
fn menus_have_titles_and_entries() {
    assert_eq!(MenuBarMenu::File.label(), "File");
    assert_eq!(MenuBarMenu::Help.label(), "Help");
    assert_eq!(
        MenuBarMenu::File.items(),
        vec!["Open Folder", "-", "Close", "Close Project", "-", "Save", "-", "Quit"]
    );
    assert_eq!(MenuBarMenu::Edit.items().len(), 21);
    assert_eq!(MenuBarMenu::View.items(), vec!["Welcome"]);
    assert_eq!(MenuBarMenu::Help.items(), vec!["About Atelier"]);
}

#[test]
fn list_rows_skip_separators_when_counting_actions() {
    let items = MenuBarMenu::File.items();
    assert_eq!(
        menu_rows(&items, true),
        vec![Some(0), None, Some(1), Some(2), None, Some(3), None, Some(4)]
    );
    assert_eq!(menu_rows(&["Cut", "-", "Copy"], false), vec![Some(0), Some(1), Some(2)]);
}

#[test]
fn corners_win_over_edges() {
    assert_eq!(resize_edge(true, false, true, false), Some(ResizeEdge::TopLeft));
    assert_eq!(resize_edge(true, false, false, true), Some(ResizeEdge::TopRight));
    assert_eq!(resize_edge(false, true, true, false), Some(ResizeEdge::BottomLeft));
    assert_eq!(resize_edge(false, true, false, true), Some(ResizeEdge::BottomRight));
    assert_eq!(resize_edge(true, false, false, false), Some(ResizeEdge::Top));
    assert_eq!(resize_edge(false, false, false, true), Some(ResizeEdge::Right));
    assert_eq!(resize_edge(false, false, false, false), None);
}
