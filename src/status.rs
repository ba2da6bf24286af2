use vstd::prelude::*;

verus! {

/// How an entry relates the old tree to the new one.
#[derive(Copy, Clone, Hash, PartialEq, Eq, Debug, Structural)]
pub enum StatusItemType {
    /// Present only under the new root.
    New,
    /// Present under both roots with differing bytes.
    Modified,
    /// Present only under the old root.
    Deleted,
    /// Present under both roots with identical bytes.
    Normal,
}

/// A filesystem entry of one of the two trees together with its status.
#[derive(Clone, Debug)]
pub struct FolderStatefulList {
    /// Canonical path of the entry.
    pub path: String,
    pub is_dir: bool,
    pub state: StatusItemType,
}

/// What a classified entry is, as plain values.
pub struct EntryView {
    pub path: Seq<char>,
    pub is_dir: bool,
    pub state: StatusItemType,
}

impl View for FolderStatefulList {
    type V = EntryView;

    open spec fn view(&self) -> EntryView {
        EntryView { path: self.path@, is_dir: self.is_dir, state: self.state }
    }
}

impl FolderStatefulList {
    /// A copy holding the same path, kind and status.
    pub fn duplicate(&self) -> (r: FolderStatefulList)
        ensures
            r@ == self@,
    {
        FolderStatefulList { path: self.path.clone(), is_dir: self.is_dir, state: self.state }
    }
}

/// The views of a sequence of entries.
pub open spec fn entry_views(s: Seq<FolderStatefulList>) -> Seq<EntryView> {
    s.map_values(|e: FolderStatefulList| e@)
}

/// A list with at most one selected position.
pub struct StatefulList<T> {
    pub selected: Option<usize>,
    pub items: Vec<T>,
}

/// Position reached by moving `step` places forward from `sel` in a ring of `n`.
pub open spec fn next_index(sel: Option<usize>, step: nat, n: nat) -> Option<usize> {
    if n == 0 {
        None
    } else {
        match sel {
            Some(i) => Some(((i + step) % (n as int)) as usize),
            None => Some(0usize),
        }
    }
}

/// Position reached by moving `step` places backward from `sel` in a ring of `n`.
pub open spec fn previous_index(sel: Option<usize>, step: nat, n: nat) -> Option<usize> {
    if n == 0 {
        None
    } else {
        match sel {
            Some(i) => Some((((i - step) % (n as int) + n) % (n as int)) as usize),
            None => Some(0usize),
        }
    }
}

impl<T> StatefulList<T> {
    /// The selection, when set, designates an item.
    pub open spec fn wf(&self) -> bool {
        match self.selected {
            Some(i) => i < self.items.len(),
            None => true,
        }
    }

    /// Index of the item that `cur` hands out: the selection, or the first item.
    pub open spec fn cur_index(&self) -> int {
        match self.selected {
            Some(i) => i as int,
            None => 0,
        }
    }

    pub fn with_items(items: Vec<T>) -> (r: StatefulList<T>)
        ensures
            r.items@ == items@,
            r.selected == None::<usize>,
            r.wf(),
    {
        StatefulList { selected: None, items }
    }

    /// Moves the selection `dist` places forward, wrapping past the last item.
    pub fn next(&mut self, dist: usize)
        requires
            old(self).wf(),
        ensures
            final(self).wf(),
            final(self).items@ == old(self).items@,
            final(self).selected == next_index(old(self).selected, dist as nat, old(self).items.len() as nat),
    {
        let n = self.items.len();
        if n == 0 {
            self.selected = None;
            return;
        }
        let step = dist % n;
        let i = match self.selected {
            Some(i) => {
                if i >= n - step {
                    i - (n - step)
                } else {
                    i + step
                }
            },
            None => 0,
        };
        proof {
            if let Some(j) = old(self).selected {
                lemma_wrap_forward(j as int, dist as int, n as int);
            }
        }
        self.selected = Some(i);
    }

    /// Moves the selection `dist` places backward, wrapping before the first item.
    pub fn previous(&mut self, dist: usize)
        requires
            old(self).wf(),
        ensures
            final(self).wf(),
            final(self).items@ == old(self).items@,
            final(self).selected == previous_index(old(self).selected, dist as nat, old(self).items.len() as nat),
    {
        let n = self.items.len();
        if n == 0 {
            self.selected = None;
            return;
        }
        let step = dist % n;
        let i = match self.selected {
            Some(i) => {
                if i >= step {
                    i - step
                } else {
                    n - (step - i)
                }
            },
            None => 0,
        };
        proof {
            if let Some(j) = old(self).selected {
                lemma_wrap_backward(j as int, dist as int, n as int);
            }
        }
        self.selected = Some(i);
    }

    pub fn unselect(&mut self)
        ensures
            final(self).selected == None::<usize>,
            final(self).items@ == old(self).items@,
            final(self).wf(),
    {
        self.selected = None;
    }

    /// The selected item, or the first one when nothing is selected.
    pub fn cur(&self) -> (r: Option<&T>)
        requires
            self.wf(),
        ensures
            self.items.len() == 0 ==> r is None,
            self.items.len() > 0 ==> (r matches Some(x) && *x == self.items@[self.cur_index()]),
    {
        if self.items.len() == 0 {
            return None;
        }
        let i = match self.selected {
            Some(i) => i,
            None => 0,
        };
        Some(&self.items[i])
    }
}

proof fn lemma_wrap_forward(i: int, d: int, n: int)
    requires
        0 <= i < n,
        0 <= d,
    ensures
        ({
            let s = d % n;
            &&& 0 <= s < n
            &&& i >= n - s ==> i - (n - s) == (i + d) % n
            &&& i < n - s ==> i + s == (i + d) % n
        }),
{
    let s = d % n;
    assert(0 <= s < n) by (nonlinear_arith)
        requires n > 0, s == d % n;
    assert((i + d) % n == (i + s) % n) by {
        vstd::arithmetic::div_mod::lemma_add_mod_noop(i, d, n);
        vstd::arithmetic::div_mod::lemma_mod_twice(d, n);
        vstd::arithmetic::div_mod::lemma_add_mod_noop(i, s, n);
        vstd::arithmetic::div_mod::lemma_small_mod(i as nat, n as nat);
    }
    if i >= n - s {
        vstd::arithmetic::div_mod::lemma_mod_sub_multiples_vanish(i + s, n);
        vstd::arithmetic::div_mod::lemma_small_mod((i + s - n) as nat, n as nat);
    } else {
        vstd::arithmetic::div_mod::lemma_small_mod((i + s) as nat, n as nat);
    }
}

proof fn lemma_wrap_backward(i: int, d: int, n: int)
    requires
        0 <= i < n,
        0 <= d,
    ensures
        ({
            let s = d % n;
            &&& 0 <= s < n
            &&& i >= s ==> i - s == ((i - d) % n + n) % n
            &&& i < s ==> n - (s - i) == ((i - d) % n + n) % n
        }),
{
    let s = d % n;
    assert(0 <= s < n) by (nonlinear_arith)
        requires n > 0, s == d % n;
    vstd::arithmetic::div_mod::lemma_mod_bound(i - d, n);
    assert((i - d) % n == (i - s) % n) by {
        vstd::arithmetic::div_mod::lemma_sub_mod_noop(i, d, n);
        vstd::arithmetic::div_mod::lemma_mod_twice(d, n);
        vstd::arithmetic::div_mod::lemma_sub_mod_noop(i, s, n);
        vstd::arithmetic::div_mod::lemma_small_mod(i as nat, n as nat);
    }
    if i >= s {
        vstd::arithmetic::div_mod::lemma_small_mod((i - s) as nat, n as nat);
        vstd::arithmetic::div_mod::lemma_mod_add_multiples_vanish(i - s, n);
    } else {
        vstd::arithmetic::div_mod::lemma_mod_add_multiples_vanish(i - s, n);
        vstd::arithmetic::div_mod::lemma_small_mod((i - s + n) as nat, n as nat);
        vstd::arithmetic::div_mod::lemma_mod_add_multiples_vanish(i - s + n, n);
    }
}

/// The selection after `k` single steps forward from `sel` in a ring of `n`.
pub open spec fn advance(sel: Option<usize>, k: nat, n: nat) -> Option<usize>
    decreases k,
{
    if k == 0 {
        sel
    } else {
        next_index(advance(sel, (k - 1) as nat, n), 1, n)
    }
}

/// Both moves keep the selection on an item.
pub proof fn lemma_moves_stay_in_range(sel: Option<usize>, step: nat, n: nat)
    requires
        0 < n <= usize::MAX,
        sel matches Some(i) ==> i < n,
    ensures
        next_index(sel, step, n) matches Some(j) && j < n,
        previous_index(sel, step, n) matches Some(j) && j < n,
{
    if let Some(i) = sel {
        vstd::arithmetic::div_mod::lemma_mod_bound(i + step, n as int);
        vstd::arithmetic::div_mod::lemma_mod_bound(i - step, n as int);
        vstd::arithmetic::div_mod::lemma_mod_bound((i - step) % (n as int) + n, n as int);
    }
}

proof fn lemma_advance_is_sum(i: usize, k: nat, n: nat)
    requires
        i < n <= usize::MAX,
    ensures
        advance(Some(i), k, n) == Some(((i + k) % (n as int)) as usize),
    decreases k,
{
    if k > 0 {
        lemma_advance_is_sum(i, (k - 1) as nat, n);
        let x = i + k - 1;
        let p = x % (n as int);
        vstd::arithmetic::div_mod::lemma_mod_bound(x, n as int);
        if n == 1 {
            vstd::arithmetic::div_mod::lemma_mod_bound(p + 1, 1);
            vstd::arithmetic::div_mod::lemma_mod_bound(i + k, 1);
        } else {
            vstd::arithmetic::div_mod::lemma_small_mod(1, n);
            vstd::arithmetic::div_mod::lemma_add_mod_noop(x, 1, n as int);
        }
        assert((p + 1) % (n as int) == (i + k) % (n as int));
    } else {
        vstd::arithmetic::div_mod::lemma_small_mod(i as nat, n);
    }
}

/// With `n` items, `n` single steps forward come back to where they started;
/// a step forward from the last item reaches the first, and a step backward
/// from the first reaches the last.
pub proof fn lemma_selection_cycle(i: usize, n: nat)
    requires
        i < n <= usize::MAX,
    ensures
        advance(Some(i), n, n) == Some(i),
        next_index(Some((n - 1) as usize), 1, n) == Some(0usize),
        previous_index(Some(0usize), 1, n) == Some((n - 1) as usize),
{
    lemma_advance_is_sum(i, n, n);
    vstd::arithmetic::div_mod::lemma_mod_add_multiples_vanish(i as int, n as int);
    vstd::arithmetic::div_mod::lemma_small_mod(i as nat, n);
    vstd::arithmetic::div_mod::lemma_mod_self_0(n as int);
    vstd::arithmetic::div_mod::lemma_small_mod((n - 1) as nat, n);
    vstd::arithmetic::div_mod::lemma_mod_add_multiples_vanish(-1, n as int);
    vstd::arithmetic::div_mod::lemma_mod_add_multiples_vanish(n - 1, n as int);
    assert((0 - 1) % (n as int) == n - 1);
}

} // verus!
