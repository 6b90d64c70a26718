use elscione_sync::crawler::parser::DirEntry;
use elscione_sync::db::models::{load_selected_folders, save_selected_folders};
use elscione_sync::db::tables::{Database, SelectedFolder};
use elscione_sync::tui::folder_selector::{
    build_nodes, checkbox, enabled_paths, folders_from, indent, node_size_text, restore_selection,
    saved_text, status_text, App, Flow, FolderNode, Key,
};

fn node(path: &str, selected: bool, size_bytes: Option<i64>) -> FolderNode {
    FolderNode { path: path.to_owned(), depth: 0, selected, size_bytes }
}

fn app() -> App {
    App::new(vec![
        node("a", false, Some(10)),
        node("b", true, Some(20)),
        node("c", true, None),
    ])
}

fn selected(app: &App) -> Vec<bool> {
    app.nodes.iter().map(|n| n.selected).collect()
}

fn press(app: &mut App, c: char) -> Flow {
    app.handle_key(Key::Char { c })
}

#[test]
fn the_cursor_wraps_around() {
    let mut app = app();
    assert_eq!(app.selected_index(), Some(0));
    app.move_up();
    assert_eq!(app.selected_index(), Some(2));
    app.move_down();
    assert_eq!(app.selected_index(), Some(0));
    for _ in 0..4 {
        app.move_down();
    }
    assert_eq!(app.selected_index(), Some(1));

    let mut empty = App::new(vec![]);
    assert_eq!(empty.selected_index(), None);
    empty.move_up();
    empty.move_down();
    empty.toggle_selected();
    assert_eq!(empty.selected_index(), None);
}

#[test]
fn boxes_are_ticked_and_cleared() {
    let mut app = app();
    app.toggle_selected();
    assert_eq!(selected(&app), vec![true, true, true]);
    app.toggle_selected();
    assert_eq!(selected(&app), vec![false, true, true]);
    assert_eq!(app.selected_count(), 2);
    assert_eq!(app.total_selected_bytes(), 20);
    app.select_all(true);
    assert_eq!(app.selected_count(), 3);
    assert_eq!(app.checked_selected_bytes(), Some(30));
    app.select_all(false);
    assert_eq!(app.selected_count(), 0);
    assert_eq!(app.total_selected_bytes(), 0);

    let huge = App::new(vec![node("x", true, Some(i64::MAX)), node("y", true, Some(1))]);
    assert_eq!(huge.checked_selected_bytes(), None);
}

#[test]
fn keys() {
    let mut app = app();
    assert_eq!(press(&mut app, 'j'), Flow::Continue);
    assert_eq!(app.selected_index(), Some(1));
    assert_eq!(press(&mut app, ' '), Flow::Continue);
    assert_eq!(selected(&app), vec![false, false, true]);
    assert_eq!(app.handle_key(Key::Up), Flow::Continue);
    assert_eq!(press(&mut app, 'k'), Flow::Continue);
    assert_eq!(app.selected_index(), Some(2));
    assert_eq!(app.handle_key(Key::Down), Flow::Continue);
    assert_eq!(app.selected_index(), Some(0));
    press(&mut app, 'a');
    assert_eq!(selected(&app), vec![true, true, true]);
    press(&mut app, 'n');
    assert_eq!(selected(&app), vec![false, false, false]);
    assert_eq!(press(&mut app, 'x'), Flow::Continue);
    assert_eq!(app.handle_key(Key::Other), Flow::Continue);
    assert_eq!(press(&mut app, 'q'), Flow::Cancel);
    assert_eq!(app.handle_key(Key::Esc), Flow::Cancel);
    assert_eq!(app.handle_key(Key::Enter), Flow::Confirm);
}

#[test]
fn nodes_come_from_directories() {
    let entry = |name: &str, is_dir: bool| DirEntry {
        url: format!("https://example.test/{name}"),
        name: name.to_owned(),
        is_dir,
        last_modified: None,
        size_bytes: Some(3),
    };
    let nodes = build_nodes(&vec![entry("Books", true), entry("x.txt", false), entry("Manga", true)]);
    let paths: Vec<&str> = nodes.iter().map(|n| n.path.as_str()).collect();
    assert_eq!(paths, vec!["Books", "Manga"]);
    assert!(nodes.iter().all(|n| n.depth == 0 && !n.selected && n.size_bytes == Some(3)));
}

#[test]
fn a_selection_is_saved_and_restored() {
    let nodes = app().nodes;
    let folders = folders_from(&nodes);
    assert_eq!(enabled_paths(&folders), vec!["b", "c"]);
    let mut db = Database::new();
    save_selected_folders(&mut db, &folders).unwrap();
    let mut fresh = vec![
        node("c", false, None),
        node("new", true, None),
        node("a", true, None),
        node("b", false, None),
    ];
    restore_selection(&mut fresh, &load_selected_folders(&db));
    let ticks: Vec<bool> = fresh.iter().map(|n| n.selected).collect();
    assert_eq!(ticks, vec![true, false, false, true]);
    let other = vec![SelectedFolder { path: "a".to_owned(), enabled: true, size_bytes: None }];
    restore_selection(&mut fresh, &other);
    assert!(fresh[2].selected && !fresh[0].selected);
}

#[test]
fn texts_of_the_selector() {
    assert_eq!(checkbox(true), "[ ✓ ]");
    assert_eq!(checkbox(false), "[   ]");
    assert_eq!(indent(0), "");
    assert_eq!(indent(2), "    ");
    assert_eq!(node_size_text(Some(1_000)), " (1.0 KB)");
    assert_eq!(node_size_text(None), "");
    assert_eq!(status_text(1, 419_000_000), " Selected: 1 folder  |  Total: 419.0 MB  ");
    assert_eq!(status_text(0, 0), " Selected: 0 folders  |  Total: —  ");
    assert_eq!(saved_text(1), "Saved 1 folder selection.");
    assert_eq!(saved_text(2), "Saved 2 folder selections.");
}
