use vstd::prelude::*;
use vstd::string::StringExecFns;

use crate::paths::{counterpart_path, substitute_root};
use crate::status::{
    entry_views, lemma_moves_stay_in_range, next_index, previous_index, EntryView,
    FolderStatefulList, StatefulList,
};

verus! {

/// The pane that receives navigation input.
#[derive(Copy, Clone, Debug, PartialEq, Eq, Structural)]
pub enum WindowType {
    /// The list of classified entries.
    Left,
    /// The lines of the entry on display.
    Right,
}

/// An input event of the browser.
#[derive(Copy, Clone, Debug, PartialEq, Eq, Structural)]
pub enum Key {
    Left,
    Right,
    Up,
    Down,
    PageUp,
    PageDown,
    Enter,
    Home,
    /// Any other key: ignored.
    Other,
}

/// State of the two-pane browser.
pub struct App {
    pub new_dir: String,
    pub old_dir: String,
    pub tab: WindowType,
    pub items: StatefulList<FolderStatefulList>,
    /// First line of the detail pane that is shown.
    pub scroll: usize,
    /// Number of lines of the detail pane.
    pub len_contents: usize,
    /// The entry on display in the detail pane.
    pub cur_file_path: Option<FolderStatefulList>,
    /// Step of a paged move.
    pub page_size: u16,
    /// The detail pane shows the informational text.
    pub is_home: bool,
    pub is_loaded: bool,
}

/// The browser's state as plain values.
pub struct AppView {
    pub new_dir: Seq<char>,
    pub old_dir: Seq<char>,
    pub tab: WindowType,
    pub selected: Option<usize>,
    pub items: Seq<EntryView>,
    pub scroll: nat,
    pub len_contents: nat,
    pub shown: Option<EntryView>,
    pub page_size: nat,
    pub is_home: bool,
    pub is_loaded: bool,
}

impl View for App {
    type V = AppView;

    open spec fn view(&self) -> AppView {
        AppView {
            new_dir: self.new_dir@,
            old_dir: self.old_dir@,
            tab: self.tab,
            selected: self.items.selected,
            items: entry_views(self.items.items@),
            scroll: self.scroll as nat,
            len_contents: self.len_contents as nat,
            shown: match self.cur_file_path {
                Some(f) => Some(f@),
                None => None,
            },
            page_size: self.page_size as nat,
            is_home: self.is_home,
            is_loaded: self.is_loaded,
        }
    }
}

/// The selection designates an item and the detail pane is scrolled within its lines.
pub open spec fn view_wf(v: AppView) -> bool {
    &&& match v.selected {
        Some(i) => i < v.items.len(),
        None => true,
    }
    &&& v.scroll <= v.len_contents
}

/// Index of the current item: the selection, or the first item.
pub open spec fn current_index(v: AppView) -> int {
    match v.selected {
        Some(i) => i as int,
        None => 0,
    }
}

/// Confirming: leaves the informational text and shows the current item,
/// from its first line, unless it is already on display.
pub open spec fn after_enter(v: AppView) -> AppView {
    if v.items.len() == 0 {
        AppView { is_home: false, ..v }
    } else {
        let c = v.items[current_index(v)];
        if v.shown matches Some(f) && f.path == c.path {
            AppView { is_home: false, ..v }
        } else {
            AppView { is_home: false, shown: Some(c), scroll: 0, ..v }
        }
    }
}

/// Moving the selection `step` places forward, then confirming.
pub open spec fn select_forward(v: AppView, step: nat) -> AppView {
    after_enter(AppView { selected: next_index(v.selected, step, v.items.len()), ..v })
}

/// Moving the selection `step` places backward, then confirming.
pub open spec fn select_backward(v: AppView, step: nat) -> AppView {
    after_enter(AppView { selected: previous_index(v.selected, step, v.items.len()), ..v })
}

/// Scrolling `step` lines down, no further than the number of lines.
pub open spec fn scroll_down(v: AppView, step: nat) -> AppView {
    AppView {
        scroll: if v.scroll + step >= v.len_contents {
            v.len_contents
        } else {
            v.scroll + step
        },
        ..v
    }
}

/// Scrolling `step` lines up, no further than the first line.
pub open spec fn scroll_up(v: AppView, step: nat) -> AppView {
    AppView {
        scroll: if v.scroll <= step {
            0
        } else {
            (v.scroll - step) as nat
        },
        ..v
    }
}

/// A move by `step`: of the selection in the list pane, of the scroll offset
/// in the detail pane.
pub open spec fn move_forward(v: AppView, step: nat) -> AppView {
    match v.tab {
        WindowType::Left => select_forward(v, step),
        WindowType::Right => scroll_down(v, step),
    }
}

/// A move back by `step`, as `move_forward`.
pub open spec fn move_backward(v: AppView, step: nat) -> AppView {
    match v.tab {
        WindowType::Left => select_backward(v, step),
        WindowType::Right => scroll_up(v, step),
    }
}

/// The state after one input event.
pub open spec fn after_key(v: AppView, k: Key) -> AppView {
    match k {
        Key::Left => AppView { tab: WindowType::Left, ..v },
        Key::Right => AppView { tab: WindowType::Right, ..v },
        Key::Up => move_backward(v, 1),
        Key::Down => move_forward(v, 1),
        Key::PageUp => move_backward(v, v.page_size),
        Key::PageDown => move_forward(v, v.page_size),
        Key::Enter => after_enter(v),
        Key::Home => AppView { is_home: true, ..v },
        Key::Other => v,
    }
}

/// The state after a sequence of input events.
pub open spec fn after_keys(v: AppView, ks: Seq<Key>) -> AppView
    decreases ks.len(),
{
    if ks.len() == 0 {
        v
    } else {
        after_key(after_keys(v, ks.drop_last()), ks.last())
    }
}

/// Every input event keeps the selection on an item and the scroll offset
/// within the lines of the detail pane.
pub proof fn lemma_key_keeps_wf(v: AppView, k: Key)
    requires
        view_wf(v),
        v.items.len() <= usize::MAX,
    ensures
        view_wf(after_key(v, k)),
        after_key(v, k).items == v.items,
{
    if v.items.len() > 0 {
        lemma_moves_stay_in_range(v.selected, 1, v.items.len());
        lemma_moves_stay_in_range(v.selected, v.page_size, v.items.len());
    }
}

/// Whatever sequence of line and page moves is applied, the scroll offset
/// stays between zero and the number of lines of the detail pane.
pub proof fn lemma_scroll_within_content(v: AppView, ks: Seq<Key>)
    requires
        view_wf(v),
        v.items.len() <= usize::MAX,
    ensures
        view_wf(after_keys(v, ks)),
        after_keys(v, ks).items == v.items,
        0 <= after_keys(v, ks).scroll <= after_keys(v, ks).len_contents,
    decreases ks.len(),
{
    if ks.len() > 0 {
        lemma_scroll_within_content(v, ks.drop_last());
        lemma_key_keeps_wf(after_keys(v, ks.drop_last()), ks.last());
    }
}

/// The label of an entry in the list pane: its kind, then its path with the
/// new root written as ".".
pub open spec fn item_label(e: EntryView, new_dir: Seq<char>) -> Seq<char> {
    (if e.is_dir {
        "d "@
    } else {
        "f "@
    }) + substitute_root(e.path, new_dir, "."@)
}

impl App {
    pub open spec fn wf(&self) -> bool {
        view_wf(self@)
    }

    pub fn new(old_dir: String, new_dir: String) -> (r: App)
        ensures
            r.wf(),
            r@ == (AppView {
                new_dir: new_dir@,
                old_dir: old_dir@,
                tab: WindowType::Left,
                selected: None,
                items: Seq::empty(),
                scroll: 0,
                len_contents: 0,
                shown: None,
                page_size: 0,
                is_home: false,
                is_loaded: false,
            }),
    {
        let r = App {
            new_dir,
            old_dir,
            tab: WindowType::Left,
            scroll: 0,
            len_contents: 0,
            cur_file_path: None,
            is_home: false,
            is_loaded: false,
            page_size: 0,
            items: StatefulList::with_items(Vec::new()),
        };
        assert(r@.items =~= Seq::<EntryView>::empty());
        r
    }

    /// Takes the classified list; nothing is selected or on display yet.
    pub fn load(&mut self, items: Vec<FolderStatefulList>)
        requires
            old(self).wf(),
        ensures
            final(self).wf(),
            final(self)@ == (AppView {
                items: entry_views(items@),
                selected: None,
                is_loaded: true,
                ..old(self)@
            }),
    {
        self.items = StatefulList::with_items(items);
        self.is_loaded = true;
    }

    /// Sets the step of paged moves from the height of the list pane.
    pub fn resize(&mut self, list_height: u16)
        requires
            old(self).wf(),
        ensures
            final(self).wf(),
            final(self)@ == (AppView { page_size: (list_height / 2) as nat, ..old(self)@ }),
    {
        self.page_size = list_height / 2;
    }

    /// Records the number of lines of the detail pane, keeping the scroll
    /// offset within them.
    pub fn set_content_length(&mut self, n: usize)
        requires
            old(self).wf(),
        ensures
            final(self).wf(),
            final(self)@ == (AppView {
                len_contents: n as nat,
                scroll: if old(self).scroll <= n {
                    old(self).scroll as nat
                } else {
                    n as nat
                },
                ..old(self)@
            }),
    {
        self.len_contents = n;
        if self.scroll > n {
            self.scroll = n;
        }
    }

    pub fn event(&mut self, key: Key)
        requires
            old(self).wf(),
        ensures
            final(self).wf(),
            final(self)@ == after_key(old(self)@, key),
    {
        match key {
            Key::Left => self.left(),
            Key::Right => self.right(),
            Key::Down => self.down(),
            Key::Up => self.up(),
            Key::PageUp => self.page_up(),
            Key::PageDown => self.page_down(),
            Key::Enter => self.enter(),
            Key::Home => self.home(),
            Key::Other => {},
        }
    }

    fn left(&mut self)
        requires
            old(self).wf(),
        ensures
            final(self).wf(),
            final(self)@ == (AppView { tab: WindowType::Left, ..old(self)@ }),
    {
        self.tab = WindowType::Left;
    }

    fn right(&mut self)
        requires
            old(self).wf(),
        ensures
            final(self).wf(),
            final(self)@ == (AppView { tab: WindowType::Right, ..old(self)@ }),
    {
        self.tab = WindowType::Right;
    }

    fn forward(&mut self, step: usize)
        requires
            old(self).wf(),
        ensures
            final(self).wf(),
            final(self)@ == move_forward(old(self)@, step as nat),
    {
        match self.tab {
            WindowType::Left => {
                self.items.next(step);
                self.enter();
            },
            WindowType::Right => {
                let total = self.len_contents;
                if self.scroll >= total || step >= total - self.scroll {
                    self.scroll = total;
                } else {
                    self.scroll = self.scroll + step;
                }
            },
        }
    }

    fn backward(&mut self, step: usize)
        requires
            old(self).wf(),
        ensures
            final(self).wf(),
            final(self)@ == move_backward(old(self)@, step as nat),
    {
        match self.tab {
            WindowType::Left => {
                self.items.previous(step);
                self.enter();
            },
            WindowType::Right => {
                if self.scroll <= step {
                    self.scroll = 0;
                } else {
                    self.scroll = self.scroll - step;
                }
            },
        }
    }

    fn up(&mut self)
        requires
            old(self).wf(),
        ensures
            final(self).wf(),
            final(self)@ == move_backward(old(self)@, 1),
    {
        self.backward(1);
    }

    fn down(&mut self)
        requires
            old(self).wf(),
        ensures
            final(self).wf(),
            final(self)@ == move_forward(old(self)@, 1),
    {
        self.forward(1);
    }

    fn page_up(&mut self)
        requires
            old(self).wf(),
        ensures
            final(self).wf(),
            final(self)@ == move_backward(old(self)@, old(self).page_size as nat),
    {
        let step = self.page_size as usize;
        self.backward(step);
    }

    fn page_down(&mut self)
        requires
            old(self).wf(),
        ensures
            final(self).wf(),
            final(self)@ == move_forward(old(self)@, old(self).page_size as nat),
    {
        let step = self.page_size as usize;
        self.forward(step);
    }

    fn enter(&mut self)
        requires
            old(self).items.wf(),
            old(self).scroll <= old(self).len_contents,
        ensures
            final(self).wf(),
            final(self)@ == after_enter(old(self)@),
    {
        self.is_home = false;
        let shown = match self.items.cur() {
            Some(c) => {
                if let Some(f) = &self.cur_file_path {
                    if f.path == c.path {
                        return;
                    }
                }
                c.duplicate()
            },
            None => {
                return;
            },
        };
        self.cur_file_path = Some(shown);
        self.scroll = 0;
    }

    fn home(&mut self)
        requires
            old(self).wf(),
        ensures
            final(self).wf(),
            final(self)@ == (AppView { is_home: true, ..old(self)@ }),
    {
        self.is_home = true;
    }

    /// The label of an entry in the list pane.
    pub fn label(&self, e: &FolderStatefulList) -> (r: String)
        ensures
            r@ == item_label(e@, self.new_dir@),
    {
        let mut r = if e.is_dir {
            "d ".to_owned()
        } else {
            "f ".to_owned()
        };
        let rest = counterpart_path(e.path.as_str(), self.new_dir.as_str(), ".");
        r.append(rest.as_str());
        r
    }
}

} // verus!
