use diff_folders::app::{App, Key};
use diff_folders::render::{
    change_lines, diff_text_lines, files_to_read, get_diff_spans, whole_text_lines, DiffLine,
    FileText, LineColor, LineTag, DIRECTORY_NOTICE, HOME_MESSAGE, SELECT_PROMPT,
};
use diff_folders::status::{FolderStatefulList, StatusItemType};

fn entry(path: &str, is_dir: bool, state: StatusItemType) -> FolderStatefulList {
    FolderStatefulList { path: path.to_string(), is_dir, state }
}

fn shown(lines: &[DiffLine]) -> Vec<String> {
    lines
        .iter()
        .map(|l| match l.sign {
            Some(c) => format!("{}{}", c, l.text),
            None => l.text.clone(),
        })
        .collect()
}

fn text(s: &str) -> FileText {
    FileText::Text(s.to_string())
}

fn nothing() -> FileText {
    FileText::Unreadable(String::new())
}

#[test]
fn modified_file_renders_line_diff() {
    let f = entry("/n/f.txt", false, StatusItemType::Modified);
    let (lines, title) =
        get_diff_spans(Some(&f), "/n", "/o", false, &text("1\nX\n3"), &text("1\n2\n3"));
    assert_eq!(shown(&lines), vec![" 1", "-2", "+X", " 3"]);
    let colors: Vec<LineColor> = lines.iter().map(|l| l.color).collect();
    assert_eq!(colors, vec![LineColor::Equal, LineColor::Delete, LineColor::Insert, LineColor::Equal]);
    assert_eq!(title, "Diff: /n/f.txt and /o/f.txt");
}

#[test]
fn diff_lines_drop_line_endings() {
    let lines = diff_text_lines("a\r\nb\n", "a\r\nc\n");
    assert_eq!(shown(&lines), vec![" a", "-b", "+c"]);
}

#[test]
fn change_lines_sign_and_color_each_change() {
    let changes = vec![
        (LineTag::Equal, "k\n".to_string()),
        (LineTag::Delete, "gone\r\n".to_string()),
        (LineTag::Insert, "last".to_string()),
    ];
    let lines = change_lines(&changes);
    assert_eq!(shown(&lines), vec![" k", "-gone", "+last"]);
    assert_eq!(lines[1].color, LineColor::Delete);
    assert_eq!(lines[2].color, LineColor::Insert);
}

#[test]
fn new_file_renders_every_line() {
    let f = entry("/n/new.txt", false, StatusItemType::New);
    let (lines, title) = get_diff_spans(Some(&f), "/n", "/o", false, &text("one\r\ntwo\n\nfour"), &nothing());
    assert_eq!(shown(&lines), vec!["one", "two", "", "four"]);
    assert!(lines.iter().all(|l| l.color == LineColor::Insert && l.sign.is_none()));
    assert_eq!(title, "New File: /n/new.txt");
}

#[test]
fn deleted_file_renders_every_line() {
    let f = entry("/o/old.txt", false, StatusItemType::Deleted);
    let (lines, title) = get_diff_spans(Some(&f), "/n", "/o", false, &text("x\ny\n"), &nothing());
    assert_eq!(shown(&lines), vec!["x", "y"]);
    assert!(lines.iter().all(|l| l.color == LineColor::Delete));
    assert_eq!(title, "Deleted: /o/old.txt");
}

#[test]
fn whole_text_keeps_lone_carriage_return() {
    let lines = whole_text_lines("a\rb\r", LineColor::Insert);
    assert_eq!(shown(&lines), vec!["a\rb\r"]);
    assert!(whole_text_lines("", LineColor::Insert).is_empty());
}

#[test]
fn unreadable_new_side_reports_error() {
    let f = entry("/n/f.txt", false, StatusItemType::Modified);
    let cause = FileText::Unreadable("permission denied".to_string());
    let (lines, title) = get_diff_spans(Some(&f), "/n", "/o", false, &cause, &text(""));
    assert_eq!(shown(&lines), vec!["open file:/n/f.txt, error: permission denied"]);
    assert_eq!(lines[0].color, LineColor::Error);
    assert_eq!(title, "error");
}

#[test]
fn unreadable_old_side_reports_error() {
    let f = entry("/n/f.txt", false, StatusItemType::Modified);
    let cause = FileText::Unreadable("gone".to_string());
    let (lines, title) = get_diff_spans(Some(&f), "/n", "/o", false, &text("a"), &cause);
    assert_eq!(shown(&lines), vec!["open file:/o/f.txt, error: gone"]);
    assert_eq!(title, "error");
}

#[test]
fn nothing_selected_prompts() {
    let (lines, title) = get_diff_spans(None, "/n", "/o", false, &nothing(), &nothing());
    assert_eq!(shown(&lines), vec![SELECT_PROMPT]);
    assert_eq!(lines[0].color, LineColor::Informational);
    assert_eq!(title, "error");
    let f = entry("", false, StatusItemType::New);
    let (lines, _) = get_diff_spans(Some(&f), "/n", "/o", false, &nothing(), &nothing());
    assert_eq!(shown(&lines), vec![SELECT_PROMPT]);
}

#[test]
fn home_overrides_selection() {
    let f = entry("/n/f.txt", false, StatusItemType::Modified);
    let (lines, title) = get_diff_spans(Some(&f), "/n", "/o", true, &text("a"), &text("b"));
    assert_eq!(shown(&lines), vec![HOME_MESSAGE]);
    assert_eq!(title, "letter");
}

#[test]
fn confirming_directory_shows_notice() {
    let mut app = App::new("/o".to_string(), "/n".to_string());
    app.load(vec![entry("/o/dir", true, StatusItemType::Deleted)]);
    app.event(Key::Enter);
    let (lines, title) =
        get_diff_spans(app.cur_file_path.as_ref(), "/n", "/o", app.is_home, &nothing(), &nothing());
    assert_eq!(shown(&lines), vec![DIRECTORY_NOTICE]);
    assert_eq!(title, "error");
    app.set_content_length(lines.len());
    assert_eq!(app.len_contents, 1);
    app.event(Key::Right);
    app.event(Key::Up);
    assert_eq!(app.scroll, 0);
    app.event(Key::PageUp);
    assert_eq!(app.scroll, 0);
    app.event(Key::Down);
    app.event(Key::PageDown);
    assert!(app.scroll <= 1);
}

#[test]
fn files_to_read_follow_status() {
    let m = entry("/n/f", false, StatusItemType::Modified);
    assert_eq!(
        files_to_read(Some(&m), "/n", "/o", false),
        (Some("/n/f".to_string()), Some("/o/f".to_string()))
    );
    let n = entry("/n/g", false, StatusItemType::New);
    assert_eq!(files_to_read(Some(&n), "/n", "/o", false), (Some("/n/g".to_string()), None));
    let d = entry("/n/d", true, StatusItemType::New);
    assert_eq!(files_to_read(Some(&d), "/n", "/o", false), (None, None));
    assert_eq!(files_to_read(Some(&m), "/n", "/o", true), (None, None));
    assert_eq!(files_to_read(None, "/n", "/o", false), (None, None));
}
