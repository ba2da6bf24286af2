use diff_folders::app::{App, Key, WindowType};
use diff_folders::status::{FolderStatefulList, StatefulList, StatusItemType};

fn entry(path: &str, is_dir: bool, state: StatusItemType) -> FolderStatefulList {
    FolderStatefulList { path: path.to_string(), is_dir, state }
}

fn loaded(paths: &[&str]) -> App {
    let mut app = App::new("/o".to_string(), "/n".to_string());
    app.load(paths.iter().map(|p| entry(p, false, StatusItemType::New)).collect());
    app
}

#[test]
fn selection_cycles_through_all_items() {
    let mut l = StatefulList::with_items(vec!['a', 'b', 'c', 'd']);
    l.next(1);
    l.next(1);
    assert_eq!(l.selected, Some(1));
    for _ in 0..4 {
        l.next(1);
    }
    assert_eq!(l.selected, Some(1));
}

#[test]
fn selection_wraps_at_both_ends() {
    let mut l = StatefulList::with_items(vec![10, 20, 30]);
    l.next(1);
    assert_eq!(l.selected, Some(0));
    l.previous(1);
    assert_eq!(l.selected, Some(2));
    l.next(1);
    assert_eq!(l.selected, Some(0));
    l.previous(1);
    l.previous(1);
    assert_eq!(l.selected, Some(1));
}

#[test]
fn paged_moves_wrap_modulo_length() {
    let mut l = StatefulList::with_items(vec![1, 2, 3, 4, 5]);
    l.next(1);
    l.next(7);
    assert_eq!(l.selected, Some(2));
    l.previous(4);
    assert_eq!(l.selected, Some(3));
    l.next(5);
    assert_eq!(l.selected, Some(3));
}

#[test]
fn empty_list_has_no_selection() {
    let mut l: StatefulList<u8> = StatefulList::with_items(Vec::new());
    l.next(1);
    assert_eq!(l.selected, None);
    l.previous(3);
    assert_eq!(l.selected, None);
    assert!(l.cur().is_none());
}

#[test]
fn cur_defaults_to_first_item() {
    let mut l = StatefulList::with_items(vec!["x", "y"]);
    assert_eq!(l.cur(), Some(&"x"));
    l.previous(1);
    assert_eq!(l.cur(), Some(&"x"));
    l.previous(1);
    assert_eq!(l.cur(), Some(&"y"));
    l.unselect();
    assert_eq!(l.selected, None);
}

#[test]
fn focus_is_clamped_at_the_edges() {
    let mut app = loaded(&["/n/a"]);
    assert_eq!(app.tab, WindowType::Left);
    app.event(Key::Left);
    assert_eq!(app.tab, WindowType::Left);
    app.event(Key::Right);
    assert_eq!(app.tab, WindowType::Right);
    app.event(Key::Right);
    assert_eq!(app.tab, WindowType::Right);
    app.event(Key::Left);
    assert_eq!(app.tab, WindowType::Left);
}

#[test]
fn moving_selection_shows_entry_and_resets_scroll() {
    let mut app = loaded(&["/n/a", "/n/b", "/n/c"]);
    app.event(Key::Down);
    assert_eq!(app.items.selected, Some(0));
    assert_eq!(app.cur_file_path.as_ref().map(|f| f.path.clone()), Some("/n/a".to_string()));
    app.set_content_length(40);
    app.event(Key::Right);
    app.event(Key::Down);
    app.event(Key::Down);
    assert_eq!(app.scroll, 2);
    app.event(Key::Left);
    app.event(Key::Down);
    assert_eq!(app.items.selected, Some(1));
    assert_eq!(app.cur_file_path.as_ref().map(|f| f.path.clone()), Some("/n/b".to_string()));
    assert_eq!(app.scroll, 0);
    app.event(Key::Up);
    app.event(Key::Up);
    assert_eq!(app.items.selected, Some(2));
    assert_eq!(app.cur_file_path.as_ref().map(|f| f.path.clone()), Some("/n/c".to_string()));
}

#[test]
fn same_entry_keeps_scroll() {
    let mut app = loaded(&["/n/only"]);
    app.event(Key::Enter);
    app.set_content_length(10);
    app.event(Key::Right);
    app.event(Key::Down);
    app.event(Key::Left);
    app.event(Key::Down);
    assert_eq!(app.items.selected, Some(0));
    assert_eq!(app.scroll, 1);
}

#[test]
fn scroll_stays_within_content() {
    let mut app = loaded(&["/n/a"]);
    app.event(Key::Enter);
    app.resize(20);
    assert_eq!(app.page_size, 10);
    app.set_content_length(25);
    app.event(Key::Right);
    app.event(Key::PageUp);
    assert_eq!(app.scroll, 0);
    app.event(Key::Up);
    assert_eq!(app.scroll, 0);
    app.event(Key::PageDown);
    assert_eq!(app.scroll, 10);
    app.event(Key::PageDown);
    assert_eq!(app.scroll, 20);
    app.event(Key::PageDown);
    assert_eq!(app.scroll, 25);
    app.event(Key::Down);
    assert_eq!(app.scroll, 25);
    app.event(Key::PageUp);
    assert_eq!(app.scroll, 15);
    app.set_content_length(5);
    assert_eq!(app.scroll, 5);
    app.event(Key::Up);
    assert_eq!(app.scroll, 4);
}

#[test]
fn home_keeps_selection_and_focus() {
    let mut app = loaded(&["/n/a", "/n/b"]);
    app.event(Key::Down);
    app.event(Key::Home);
    assert!(app.is_home);
    assert_eq!(app.items.selected, Some(0));
    assert_eq!(app.tab, WindowType::Left);
    app.event(Key::Enter);
    assert!(!app.is_home);
}

#[test]
fn events_on_empty_list_do_nothing_harmful() {
    let mut app = App::new("/o".to_string(), "/n".to_string());
    app.event(Key::Down);
    app.event(Key::PageUp);
    app.event(Key::Enter);
    app.event(Key::Other);
    assert_eq!(app.items.selected, None);
    assert!(app.cur_file_path.is_none());
}

#[test]
fn labels_show_kind_and_relative_path() {
    let app = App::new("/o".to_string(), "/n".to_string());
    assert_eq!(app.label(&entry("/n/sub", true, StatusItemType::New)), "d ./sub");
    assert_eq!(app.label(&entry("/n/sub/f.rs", false, StatusItemType::Modified)), "f ./sub/f.rs");
    assert_eq!(app.label(&entry("/o/gone", false, StatusItemType::Deleted)), "f /o/gone");
}
