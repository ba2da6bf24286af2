use vstd::prelude::*;
use vstd::string::StringExecFns;

use crate::paths::{counterpart_path, substitute_root};
use crate::status::{FolderStatefulList, StatusItemType};

verus! {

/// Text of the informational pane shown on request, whatever is selected.
pub const HOME_MESSAGE: &'static str = "This project was inspired by my girlfriend, who requested a tool for comparing directories; although though VS Code already offers such a plug-in, I still want to create one for her (mostly since I don't have any money to purchase other things);\nI wish for everyone's happiness, health, and increasing wealth;\n20230214";

/// Shown when no file is on display.
pub const SELECT_PROMPT: &'static str = "please press 'enter', select file";

/// Shown when the entry on display is a directory.
pub const DIRECTORY_NOTICE: &'static str = "\n\nthis is directory";

/// Title of the informational pane.
pub const HOME_TITLE: &'static str = "letter";

/// Title of every pane that reports a problem.
pub const ERROR_TITLE: &'static str = "error";

/// Semantic color of a rendered line.
#[derive(Copy, Clone, Debug, PartialEq, Eq, Structural)]
pub enum LineColor {
    Delete,
    Insert,
    Equal,
    Informational,
    Error,
}

/// Kind of one step of a line-level diff.
#[derive(Copy, Clone, Debug, PartialEq, Eq, Structural)]
pub enum LineTag {
    Delete,
    Insert,
    Equal,
}

/// One line of the detail pane: an optional sign, the text and its color.
#[derive(Clone, Debug)]
pub struct DiffLine {
    pub sign: Option<char>,
    pub text: String,
    pub color: LineColor,
}

pub struct LineView {
    pub sign: Option<char>,
    pub text: Seq<char>,
    pub color: LineColor,
}

impl View for DiffLine {
    type V = LineView;

    open spec fn view(&self) -> LineView {
        LineView { sign: self.sign, text: self.text@, color: self.color }
    }
}

/// The views of a sequence of lines.
pub open spec fn line_views(s: Seq<DiffLine>) -> Seq<LineView> {
    s.map_values(|l: DiffLine| l@)
}

/// What reading a file gave: its text, or the cause of the failure.
#[derive(Clone, Debug)]
pub enum FileText {
    Text(String),
    Unreadable(String),
}

/// Index of the first line feed of `s`, or its length when it has none.
pub open spec fn first_newline(s: Seq<char>) -> nat
    decreases s.len(),
{
    if s.len() == 0 || s[0] == '\n' {
        0
    } else {
        1 + first_newline(s.drop_first())
    }
}

/// `l` without one trailing carriage return.
pub open spec fn trim_cr(l: Seq<char>) -> Seq<char> {
    if l.len() > 0 && l.last() == '\r' {
        l.drop_last()
    } else {
        l
    }
}

/// The lines of `cur + s`: split at each line feed, a carriage return right
/// before it dropped, no empty line after a final line feed.
pub open spec fn split_lines(s: Seq<char>, cur: Seq<char>) -> Seq<Seq<char>>
    decreases s.len(),
{
    if s.len() == 0 {
        if cur.len() == 0 {
            Seq::empty()
        } else {
            seq![cur]
        }
    } else if s[0] == '\n' {
        seq![trim_cr(cur)] + split_lines(s.drop_first(), Seq::empty())
    } else {
        split_lines(s.drop_first(), cur.push(s[0]))
    }
}

/// The lines of a text.
pub open spec fn lines_of(s: Seq<char>) -> Seq<Seq<char>> {
    split_lines(s, Seq::empty())
}

/// The first line of a text without its line ending, or nothing for an empty text.
pub open spec fn first_line(s: Seq<char>) -> Seq<char> {
    if lines_of(s).len() > 0 {
        lines_of(s)[0]
    } else {
        Seq::empty()
    }
}

/// The line-level diff of two texts: in alignment order, each old line that
/// goes, each new line that comes and each line that both share, with its
/// line ending.
pub uninterp spec fn line_diff(old: Seq<char>, new: Seq<char>) -> Seq<(LineTag, Seq<char>)>;

/// Relies on str::lines: splits at "\n" and "\r\n", with no empty line after a final line ending.
#[verifier::external_body]
fn text_lines(s: &str) -> (r: Vec<String>)
    ensures
        r@.map_values(|l: String| l@) == lines_of(s@),
{
    let mut r = Vec::new();
    for l in s.lines() {
        r.push(l.to_string());
    }
    r
}

/// Relies on similar::TextDiff::from_lines and iter_all_changes: the changes
/// between two texts line by line, each with its tag and its line.
#[verifier::external_body]
fn line_changes(old: &str, new: &str) -> (r: Vec<(LineTag, String)>)
    ensures
        changes_view(r@) == line_diff(old@, new@),
{
    let mut r = Vec::new();
    for c in similar::TextDiff::from_lines(old, new).iter_all_changes() {
        let tag = match c.tag() {
            similar::ChangeTag::Delete => LineTag::Delete,
            similar::ChangeTag::Insert => LineTag::Insert,
            similar::ChangeTag::Equal => LineTag::Equal,
        };
        r.push((tag, c.value().to_string()));
    }
    r
}

/// Sign shown before a diff line of the given kind.
pub open spec fn sign_of(t: LineTag) -> char {
    match t {
        LineTag::Delete => '-',
        LineTag::Insert => '+',
        LineTag::Equal => ' ',
    }
}

/// Color of a diff line of the given kind.
pub open spec fn color_of(t: LineTag) -> LineColor {
    match t {
        LineTag::Delete => LineColor::Delete,
        LineTag::Insert => LineColor::Insert,
        LineTag::Equal => LineColor::Equal,
    }
}

/// A line without sign.
pub open spec fn plain_line(text: Seq<char>, color: LineColor) -> LineView {
    LineView { sign: None, text, color }
}

/// The line that reports a failed read of `path`.
pub open spec fn read_error_line(path: Seq<char>, cause: Seq<char>) -> LineView {
    plain_line("open file:"@ + path + ", error: "@ + cause, LineColor::Error)
}

/// Every line of a text, verbatim, in one color.
pub open spec fn whole_text(t: Seq<char>, color: LineColor) -> Seq<LineView> {
    lines_of(t).map_values(|l: Seq<char>| plain_line(l, color))
}

/// One signed, colored line for each step of a diff.
pub open spec fn diff_text(d: Seq<(LineTag, Seq<char>)>) -> Seq<LineView> {
    d.map_values(
        |c: (LineTag, Seq<char>)|
            LineView { sign: Some(sign_of(c.0)), text: first_line(c.1), color: color_of(c.0) },
    )
}

/// The file on display can be read: there is one, with a path, and it is no directory.
pub open spec fn shows_file(file: Option<FolderStatefulList>, is_home: bool) -> bool {
    !is_home && file is Some && file->0.path@.len() > 0 && !file->0.is_dir
}

/// The entry on display is compared with its counterpart in the old tree.
pub open spec fn shows_comparison(file: Option<FolderStatefulList>, is_home: bool) -> bool {
    shows_file(file, is_home) && file->0.state != StatusItemType::New && file->0.state
        != StatusItemType::Deleted
}

/// The lines and the title of the detail pane.
pub open spec fn diff_spans(
    file: Option<FolderStatefulList>,
    new_dir: Seq<char>,
    old_dir: Seq<char>,
    is_home: bool,
    new_text: FileText,
    old_text: FileText,
) -> (Seq<LineView>, Seq<char>) {
    if is_home {
        (seq![plain_line(HOME_MESSAGE@, LineColor::Informational)], HOME_TITLE@)
    } else if file is None || file->0.path@.len() == 0 {
        (seq![plain_line(SELECT_PROMPT@, LineColor::Informational)], ERROR_TITLE@)
    } else if file->0.is_dir {
        (seq![plain_line(DIRECTORY_NOTICE@, LineColor::Informational)], ERROR_TITLE@)
    } else {
        let p = file->0.path@;
        match new_text {
            FileText::Unreadable(cause) => (seq![read_error_line(p, cause@)], ERROR_TITLE@),
            FileText::Text(t) => {
                if file->0.state == StatusItemType::New {
                    (whole_text(t@, LineColor::Insert), "New File: "@ + p)
                } else if file->0.state == StatusItemType::Deleted {
                    (whole_text(t@, LineColor::Delete), "Deleted: "@ + p)
                } else {
                    let op = substitute_root(p, new_dir, old_dir);
                    match old_text {
                        FileText::Unreadable(cause) => (
                            seq![read_error_line(op, cause@)],
                            ERROR_TITLE@,
                        ),
                        FileText::Text(o) => (
                            diff_text(line_diff(o@, t@)),
                            "Diff: "@ + p + " and "@ + op,
                        ),
                    }
                }
            },
        }
    }
}

fn info_line(text: &str, color: LineColor) -> (r: DiffLine)
    ensures
        r@ == plain_line(text@, color),
{
    DiffLine { sign: None, text: text.to_owned(), color }
}

fn read_error(path: &str, cause: &str) -> (r: DiffLine)
    ensures
        r@ == read_error_line(path@, cause@),
{
    let mut t = "open file:".to_owned();
    t.append(path);
    t.append(", error: ");
    t.append(cause);
    DiffLine { sign: None, text: t, color: LineColor::Error }
}

fn single(l: DiffLine) -> (r: Vec<DiffLine>)
    ensures
        line_views(r@) == seq![l@],
{
    let mut r = Vec::new();
    r.push(l);
    assert(line_views(r@) =~= seq![l@]);
    r
}

/// Every line of `t`, verbatim, in one color.
pub fn whole_text_lines(t: &str, color: LineColor) -> (r: Vec<DiffLine>)
    ensures
        line_views(r@) == whole_text(t@, color),
{
    let lines = text_lines(t);
    let mut r: Vec<DiffLine> = Vec::new();
    let mut i: usize = 0;
    while i < lines.len()
        invariant
            i <= lines.len(),
            lines@.map_values(|l: String| l@) == lines_of(t@),
            line_views(r@) =~= whole_text(t@, color).take(i as int),
        decreases lines.len() - i,
    {
        let ghost before = r@;
        r.push(DiffLine { sign: None, text: lines[i].clone(), color });
        proof {
            assert(lines@.map_values(|l: String| l@)[i as int] == lines@[i as int]@);
            assert(line_views(r@) =~= line_views(before).push(r@[i as int]@));
        }
        i += 1;
    }
    r
}

/// The view of a list of line changes.
pub open spec fn changes_view(c: Seq<(LineTag, String)>) -> Seq<(LineTag, Seq<char>)> {
    c.map_values(|c: (LineTag, String)| (c.0, c.1@))
}

/// One signed, colored line for each line change, its text without line ending.
pub fn change_lines(changes: &Vec<(LineTag, String)>) -> (r: Vec<DiffLine>)
    ensures
        line_views(r@) == diff_text(changes_view(changes@)),
{
    let ghost d = changes_view(changes@);
    let mut r: Vec<DiffLine> = Vec::new();
    let mut i: usize = 0;
    while i < changes.len()
        invariant
            i <= changes.len(),
            d == changes_view(changes@),
            line_views(r@) =~= diff_text(d).take(i as int),
        decreases changes.len() - i,
    {
        let tag = changes[i].0;
        let parts = text_lines(changes[i].1.as_str());
        let text = if parts.len() > 0 {
            parts[0].clone()
        } else {
            String::new()
        };
        let (sign, color) = match tag {
            LineTag::Delete => ('-', LineColor::Delete),
            LineTag::Insert => ('+', LineColor::Insert),
            LineTag::Equal => (' ', LineColor::Equal),
        };
        let ghost before = r@;
        r.push(DiffLine { sign: Some(sign), text, color });
        proof {
            assert(d[i as int] == (changes@[i as int].0, changes@[i as int].1@));
            assert(parts@.map_values(|l: String| l@).len() == parts@.len());
            if parts.len() > 0 {
                assert(parts@.map_values(|l: String| l@)[0] == parts@[0]@);
            }
            assert(line_views(r@) =~= line_views(before).push(r@[i as int]@));
        }
        i += 1;
    }
    r
}

/// One signed, colored line for each change between `old` and `new`.
pub fn diff_text_lines(old: &str, new: &str) -> (r: Vec<DiffLine>)
    ensures
        line_views(r@) == diff_text(line_diff(old@, new@)),
{
    let changes = line_changes(old, new);
    change_lines(&changes)
}

/// The paths that the detail pane needs read: the file on display, and its
/// counterpart in the old tree where the two are compared.
pub fn files_to_read(
    file: Option<&FolderStatefulList>,
    new_dir: &str,
    old_dir: &str,
    is_home: bool,
) -> (r: (Option<String>, Option<String>))
    ensures
        ({
            let f = match file {
                Some(x) => Some(*x),
                None => None,
            };
            &&& shows_file(f, is_home) <==> r.0 is Some
            &&& r.0 matches Some(p) ==> p@ == f->0.path@
            &&& shows_comparison(f, is_home) <==> r.1 is Some
            &&& r.1 matches Some(p) ==> p@ == substitute_root(f->0.path@, new_dir@, old_dir@)
        }),
{
    match file {
        Some(f) => {
            if is_home || f.path.as_str().is_empty() || f.is_dir {
                return (None, None);
            }
            let other = if f.state == StatusItemType::New || f.state == StatusItemType::Deleted {
                None
            } else {
                Some(counterpart_path(f.path.as_str(), new_dir, old_dir))
            };
            (Some(f.path.clone()), other)
        },
        None => (None, None),
    }
}

/// The lines and the title of the detail pane, for the entry on display and
/// the texts read for it.
pub fn get_diff_spans(
    file: Option<&FolderStatefulList>,
    new_dir: &str,
    old_dir: &str,
    is_home: bool,
    new_text: &FileText,
    old_text: &FileText,
) -> (r: (Vec<DiffLine>, String))
    ensures
        ({
            let f = match file {
                Some(x) => Some(*x),
                None => None,
            };
            let want = diff_spans(f, new_dir@, old_dir@, is_home, *new_text, *old_text);
            &&& line_views(r.0@) == want.0
            &&& r.1@ == want.1
        }),
{
    if is_home {
        return (single(info_line(HOME_MESSAGE, LineColor::Informational)), HOME_TITLE.to_owned());
    }
    let f = match file {
        Some(f) => f,
        None => {
            return (
                single(info_line(SELECT_PROMPT, LineColor::Informational)),
                ERROR_TITLE.to_owned(),
            );
        },
    };
    if f.path.as_str().is_empty() {
        return (
            single(info_line(SELECT_PROMPT, LineColor::Informational)),
            ERROR_TITLE.to_owned(),
        );
    }
    if f.is_dir {
        return (
            single(info_line(DIRECTORY_NOTICE, LineColor::Informational)),
            ERROR_TITLE.to_owned(),
        );
    }
    let p = f.path.as_str();
    let t = match new_text {
        FileText::Unreadable(cause) => {
            return (single(read_error(p, cause.as_str())), ERROR_TITLE.to_owned());
        },
        FileText::Text(t) => t.as_str(),
    };
    if f.state == StatusItemType::New {
        let mut title = "New File: ".to_owned();
        title.append(p);
        return (whole_text_lines(t, LineColor::Insert), title);
    }
    if f.state == StatusItemType::Deleted {
        let mut title = "Deleted: ".to_owned();
        title.append(p);
        return (whole_text_lines(t, LineColor::Delete), title);
    }
    let op = counterpart_path(p, new_dir, old_dir);
    let o = match old_text {
        FileText::Unreadable(cause) => {
            return (single(read_error(op.as_str(), cause.as_str())), ERROR_TITLE.to_owned());
        },
        FileText::Text(o) => o.as_str(),
    };
    let mut title = "Diff: ".to_owned();
    title.append(p);
    title.append(" and ");
    title.append(op.as_str());
    (diff_text_lines(o, t), title)
}

} // verus!
