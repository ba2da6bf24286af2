use vstd::prelude::*;
use vstd::relations::{sorted_by, total_ordering};
use vstd::seq_lib::lemma_sorted_unique;
use vstd::utf8::{encode_utf8, encode_utf8_decode_utf8};

use crate::paths::{is_descendant, key_in_root, lies_under, relative_key};
use crate::status::{entry_views, EntryView, FolderStatefulList, StatusItemType};

verus! {

/// `a` comes strictly before `b` in byte order.
pub open spec fn bytes_lt(a: Seq<u8>, b: Seq<u8>) -> bool
    decreases a.len(),
{
    if b.len() == 0 {
        false
    } else if a.len() == 0 {
        true
    } else if a[0] != b[0] {
        a[0] < b[0]
    } else {
        bytes_lt(a.drop_first(), b.drop_first())
    }
}

/// The bytes of a path.
pub open spec fn path_bytes(p: Seq<char>) -> Seq<u8> {
    encode_utf8(p)
}

/// Order of the statuses among entries of one path.
pub open spec fn status_rank(s: StatusItemType) -> int {
    match s {
        StatusItemType::New => 0,
        StatusItemType::Modified => 1,
        StatusItemType::Deleted => 2,
        StatusItemType::Normal => 3,
    }
}

/// Order of the classified list: by canonical path in byte order, then by
/// status, then files before directories.
pub open spec fn entry_le(x: EntryView, y: EntryView) -> bool {
    let a = path_bytes(x.path);
    let b = path_bytes(y.path);
    ||| bytes_lt(a, b)
    ||| (a == b && status_rank(x.state) < status_rank(y.state))
    ||| (a == b && x.state == y.state && (x.is_dir ==> y.is_dir))
}

/// `entry_le` as a relation.
pub open spec fn entry_order() -> spec_fn(EntryView, EntryView) -> bool {
    |x: EntryView, y: EntryView| entry_le(x, y)
}

/// The classified entries in the order of the list.
pub open spec fn sorted_entries(s: Seq<EntryView>) -> Seq<EntryView> {
    s.sort_by(entry_order())
}

proof fn lemma_bytes_lt_irreflexive(a: Seq<u8>)
    ensures
        !bytes_lt(a, a),
    decreases a.len(),
{
    if a.len() > 0 {
        lemma_bytes_lt_irreflexive(a.drop_first());
    }
}

proof fn lemma_bytes_lt_asymmetric(a: Seq<u8>, b: Seq<u8>)
    ensures
        !(bytes_lt(a, b) && bytes_lt(b, a)),
    decreases a.len(),
{
    if a.len() > 0 && b.len() > 0 && a[0] == b[0] {
        lemma_bytes_lt_asymmetric(a.drop_first(), b.drop_first());
    }
}

proof fn lemma_bytes_lt_connected(a: Seq<u8>, b: Seq<u8>)
    ensures
        a == b || bytes_lt(a, b) || bytes_lt(b, a),
    decreases a.len(),
{
    if a.len() > 0 && b.len() > 0 && a[0] == b[0] {
        lemma_bytes_lt_connected(a.drop_first(), b.drop_first());
        if a.drop_first() == b.drop_first() {
            assert(a =~= seq![a[0]] + a.drop_first());
            assert(b =~= seq![b[0]] + b.drop_first());
        }
    } else if a.len() == 0 && b.len() == 0 {
        assert(a =~= b);
    }
}

proof fn lemma_bytes_lt_transitive(a: Seq<u8>, b: Seq<u8>, c: Seq<u8>)
    requires
        bytes_lt(a, b),
        bytes_lt(b, c),
    ensures
        bytes_lt(a, c),
    decreases a.len(),
{
    if a.len() > 0 && b.len() > 0 && c.len() > 0 && a[0] == b[0] && b[0] == c[0] {
        lemma_bytes_lt_transitive(a.drop_first(), b.drop_first(), c.drop_first());
    }
}

/// The order of the classified list is a total order on entries.
pub proof fn lemma_entry_order_total()
    ensures
        total_ordering(entry_order()),
{
    let r = entry_order();
    assert forall|x: EntryView| #[trigger] r(x, x) by {
        lemma_bytes_lt_irreflexive(path_bytes(x.path));
    }
    assert forall|x: EntryView, y: EntryView| #[trigger] r(x, y) && #[trigger] r(y, x) implies x == y by {
        let a = path_bytes(x.path);
        let b = path_bytes(y.path);
        lemma_bytes_lt_asymmetric(a, b);
        lemma_bytes_lt_irreflexive(a);
        encode_utf8_decode_utf8(x.path);
        encode_utf8_decode_utf8(y.path);
    }
    assert forall|x: EntryView, y: EntryView, z: EntryView| #[trigger] r(x, y) && #[trigger] r(y, z) implies r(x, z) by {
        let a = path_bytes(x.path);
        let b = path_bytes(y.path);
        let c = path_bytes(z.path);
        if bytes_lt(a, b) && bytes_lt(b, c) {
            lemma_bytes_lt_transitive(a, b, c);
        }
    }
    assert forall|x: EntryView, y: EntryView| #[trigger] r(x, y) || #[trigger] r(y, x) by {
        lemma_bytes_lt_connected(path_bytes(x.path), path_bytes(y.path));
    }
}

/// Compares two byte strings: negative, zero or positive as `a` comes before,
/// equals or comes after `b`.
pub fn compare_bytes(a: &[u8], b: &[u8]) -> (r: i8)
    ensures
        r < 0 <==> bytes_lt(a@, b@),
        r == 0 <==> a@ == b@,
        r > 0 <==> bytes_lt(b@, a@),
{
    let mut i: usize = 0;
    proof {
        assert(a@.skip(0) =~= a@);
        assert(b@.skip(0) =~= b@);
        assert(a@.subrange(0, 0) =~= b@.subrange(0, 0));
    }
    while i < a.len() && i < b.len()
        invariant
            i <= a@.len(),
            i <= b@.len(),
            a@.subrange(0, i as int) == b@.subrange(0, i as int),
            bytes_lt(a@, b@) == bytes_lt(a@.skip(i as int), b@.skip(i as int)),
            bytes_lt(b@, a@) == bytes_lt(b@.skip(i as int), a@.skip(i as int)),
        decreases a.len() - i,
    {
        if a[i] != b[i] {
            proof {
                lemma_bytes_lt_asymmetric(a@, b@);
                assert(a@.skip(i as int)[0] == a@[i as int]);
                assert(b@.skip(i as int)[0] == b@[i as int]);
                assert(a@[i as int] != b@[i as int]);
            }
            if a[i] < b[i] {
                return -1;
            } else {
                return 1;
            }
        }
        proof {
            assert(a@.skip(i as int).drop_first() =~= a@.skip(i as int + 1));
            assert(b@.skip(i as int).drop_first() =~= b@.skip(i as int + 1));
            assert(a@.subrange(0, i as int + 1) =~= a@.subrange(0, i as int).push(a@[i as int]));
            assert(b@.subrange(0, i as int + 1) =~= b@.subrange(0, i as int).push(b@[i as int]));
        }
        i += 1;
    }
    proof {
        assert(a@.subrange(0, i as int) =~= a@.take(i as int));
        if i == a.len() && i == b.len() {
            assert(a@ =~= a@.subrange(0, i as int));
            assert(b@ =~= b@.subrange(0, i as int));
        }
        if a@ == b@ {
            lemma_bytes_lt_irreflexive(a@);
        }
    }
    if i < b.len() {
        proof {
            assert(a@ != b@);
        }
        -1
    } else if i < a.len() {
        proof {
            assert(a@ != b@);
        }
        1
    } else {
        0
    }
}

fn status_rank_of(s: StatusItemType) -> (r: u8)
    ensures
        r == status_rank(s),
{
    match s {
        StatusItemType::New => 0,
        StatusItemType::Modified => 1,
        StatusItemType::Deleted => 2,
        StatusItemType::Normal => 3,
    }
}

/// Whether `x` may stand before `y` in the classified list.
pub fn entry_before(x: &FolderStatefulList, y: &FolderStatefulList) -> (r: bool)
    ensures
        r == entry_le(x@, y@),
{
    let c = compare_bytes(x.path.as_str().as_bytes(), y.path.as_str().as_bytes());
    if c != 0 {
        return c < 0;
    }
    let rx = status_rank_of(x.state);
    let ry = status_rank_of(y.state);
    if rx != ry {
        return rx < ry;
    }
    !x.is_dir || y.is_dir
}

proof fn lemma_insert_multiset<A>(s: Seq<A>, pos: int, x: A)
    requires
        0 <= pos <= s.len(),
    ensures
        s.insert(pos, x).to_multiset() == s.to_multiset().insert(x),
{
    broadcast use vstd::seq_lib::group_to_multiset_ensures;
    broadcast use vstd::multiset::group_multiset_axioms;

    let t = s.insert(pos, x);
    assert(t.remove(pos) =~= s);
    assert(t[pos] == x);
    assert(t.to_multiset().remove(x) == s.to_multiset());
    assert(t.to_multiset().count(x) > 0);
    assert(t.to_multiset() =~= s.to_multiset().insert(x));
}

/// The entries in the order of the classified list.
pub fn sort_entries(v: &Vec<FolderStatefulList>) -> (r: Vec<FolderStatefulList>)
    ensures
        entry_views(r@) == sorted_entries(entry_views(v@)),
{
    let ghost ord = entry_order();
    proof {
        lemma_entry_order_total();
    }
    let mut r: Vec<FolderStatefulList> = Vec::new();
    let mut i: usize = 0;
    proof {
        broadcast use vstd::seq_lib::group_to_multiset_ensures;

        assert(entry_views(r@) =~= entry_views(v@).take(0));
    }
    while i < v.len()
        invariant
            i <= v.len(),
            total_ordering(ord),
            ord == entry_order(),
            sorted_by(entry_views(r@), ord),
            entry_views(r@).to_multiset() == entry_views(v@).take(i as int).to_multiset(),
        decreases v.len() - i,
    {
        let e = v[i].duplicate();
        let mut pos: usize = 0;
        while pos < r.len() && entry_before(&r[pos], &e)
            invariant
                pos <= r.len(),
                forall|k: int| 0 <= k < pos ==> entry_le(#[trigger] r@[k]@, e@),
            decreases r.len() - pos,
        {
            pos += 1;
        }
        let ghost before = entry_views(r@);
        r.insert(pos, e);
        proof {
            let after = entry_views(r@);
            assert(after =~= before.insert(pos as int, e@));
            assert forall|a: int, b: int| 0 <= a < b < after.len() implies #[trigger] ord(
                after[a],
                after[b],
            ) by {
                if b < pos {
                    assert(ord(before[a], before[b]));
                } else if a > pos {
                    assert(ord(before[a - 1], before[b - 1]));
                } else if a == pos {
                    // every later entry comes after `e`
                    assert(!entry_le(before[pos as int], e@));
                    assert(ord(before[pos as int], e@) == entry_le(before[pos as int], e@));
                    assert(ord(e@, before[pos as int]) || ord(before[pos as int], e@));
                    assert(ord(e@, before[pos as int]));
                    if b - 1 > pos {
                        assert(ord(before[pos as int], before[b - 1]));
                    }
                } else {
                    assert(entry_le(r@[a]@, e@));
                }
            }
            lemma_insert_multiset(before, pos as int, e@);
            assert(entry_views(v@).take(i as int + 1) =~= entry_views(v@).take(i as int).push(
                e@,
            ));
            assert(entry_views(v@).take(i as int).push(e@).to_multiset() =~= entry_views(
                v@,
            ).take(i as int).to_multiset().insert(e@)) by {
                broadcast use vstd::seq_lib::group_to_multiset_ensures;
            }
        }
        i += 1;
    }
    proof {
        let s = entry_views(v@);
        assert(s.take(i as int) =~= s);
        s.lemma_sort_by_ensures(ord);
        lemma_sorted_unique(entry_views(r@), s.sort_by(ord), ord);
    }
    r
}

/// A directory that is new or deleted as a whole.
pub open spec fn is_changed_dir(e: EntryView) -> bool {
    e.is_dir && (e.state == StatusItemType::New || e.state == StatusItemType::Deleted)
}

/// Some directory of `s` that is new or deleted as a whole holds `p`.
pub open spec fn has_changed_ancestor(s: Seq<EntryView>, p: Seq<char>) -> bool {
    exists|k: int| 0 <= k < s.len() && #[trigger] is_changed_dir(s[k]) && is_descendant(p, s[k].path)
}

/// The entries of `s` that the list keeps: those that no wholly new or deleted
/// directory of `s` holds.
pub open spec fn keeps(s: Seq<EntryView>) -> spec_fn(EntryView) -> bool {
    |e: EntryView| !has_changed_ancestor(s, e.path)
}

/// `s` without the entries that lie inside a wholly new or deleted directory of `s`.
pub open spec fn pruned(s: Seq<EntryView>) -> Seq<EntryView> {
    s.filter(keeps(s))
}

/// The classified list made of the entries of `s`: sorted, then pruned.
pub open spec fn listed(s: Seq<EntryView>) -> Seq<EntryView> {
    pruned(sorted_entries(s))
}

proof fn lemma_filter_take_step<A>(s: Seq<A>, p: spec_fn(A) -> bool, i: int)
    requires
        0 <= i < s.len(),
    ensures
        s.take(i + 1).filter(p) == (if p(s[i]) {
            s.take(i).filter(p).push(s[i])
        } else {
            s.take(i).filter(p)
        }),
{
    reveal(Seq::filter);
    assert(s.take(i + 1).drop_last() =~= s.take(i));
}

fn is_changed_dir_entry(e: &FolderStatefulList) -> (r: bool)
    ensures
        r == is_changed_dir(e@),
{
    e.is_dir && (e.state == StatusItemType::New || e.state == StatusItemType::Deleted)
}

/// Sorts the entries into the order of the classified list, then drops every
/// entry that lies inside a wholly new or deleted directory of the list.
pub fn delta_folder_stateful_list(files: &mut Vec<FolderStatefulList>)
    ensures
        entry_views(final(files)@) == listed(entry_views(old(files)@)),
{
    let sorted = sort_entries(files);
    let ghost sv = entry_views(sorted@);
    let mut kept: Vec<FolderStatefulList> = Vec::new();
    let mut i: usize = 0;
    proof {
        assert(entry_views(kept@) =~= sv.take(0).filter(keeps(sv))) by {
            reveal(Seq::filter);
        }
    }
    while i < sorted.len()
        invariant
            i <= sorted.len(),
            sv == entry_views(sorted@),
            entry_views(kept@) == sv.take(i as int).filter(keeps(sv)),
        decreases sorted.len() - i,
    {
        let mut under = false;
        let mut k: usize = 0;
        while k < sorted.len() && !under
            invariant
                k <= sorted.len(),
                i < sorted.len(),
                sv == entry_views(sorted@),
                under ==> has_changed_ancestor(sv, sv[i as int].path),
                !under ==> forall|m: int|
                    0 <= m < k ==> !(#[trigger] is_changed_dir(sv[m]) && is_descendant(
                        sv[i as int].path,
                        sv[m].path,
                    )),
            decreases sorted.len() - k,
        {
            if is_changed_dir_entry(&sorted[k]) && lies_under(
                sorted[i].path.as_str(),
                sorted[k].path.as_str(),
            ) {
                under = true;
                proof {
                    assert(is_changed_dir(sv[k as int]) && is_descendant(
                        sv[i as int].path,
                        sv[k as int].path,
                    ));
                }
            }
            k += 1;
        }
        proof {
            lemma_filter_take_step(sv, keeps(sv), i as int);
        }
        if !under {
            let ghost before = kept@;
            kept.push(sorted[i].duplicate());
            proof {
                assert(entry_views(kept@) =~= entry_views(before).push(sv[i as int]));
            }
        }
        i += 1;
    }
    proof {
        assert(sv.take(i as int) =~= sv);
    }
    *files = kept;
}

/// An entry found under one of the two roots.
#[derive(Clone, Debug)]
pub struct SnapEntry {
    /// Canonical path of the entry.
    pub path: String,
    pub is_dir: bool,
}

/// What comparing the bytes of a file of the new tree with those of its
/// counterpart in the old tree gave.
#[derive(Copy, Clone, Debug, PartialEq, Eq, Structural)]
pub enum Comparison {
    Same,
    Differs,
    /// One of the two could not be read.
    Unreadable,
}

/// Relative key of the `i`-th entry of a snapshot rooted at `root`.
pub open spec fn key_at(s: Seq<SnapEntry>, root: Seq<char>, i: int) -> Seq<char> {
    relative_key(s[i].path@, root)
}

/// Some entry of the snapshot has the key `k`.
pub open spec fn has_key(s: Seq<SnapEntry>, root: Seq<char>, k: Seq<char>) -> bool {
    exists|j: int| 0 <= j < s.len() && #[trigger] key_at(s, root, j) == k
}

/// The `i`-th entry is the one that the snapshot keeps for its key: no later
/// entry has the same key.
pub open spec fn is_last(s: Seq<SnapEntry>, root: Seq<char>, i: int) -> bool {
    forall|j: int| i < j < s.len() ==> #[trigger] key_at(s, root, j) != key_at(s, root, i)
}

/// The entries of the new snapshot without their comparisons.
pub open spec fn sides(new: Seq<(SnapEntry, Comparison)>) -> Seq<SnapEntry> {
    new.map_values(|p: (SnapEntry, Comparison)| p.0)
}

/// An entry with a status.
pub open spec fn classified_view(e: SnapEntry, state: StatusItemType) -> EntryView {
    EntryView { path: e.path@, is_dir: e.is_dir, state }
}

/// Status of an entry of the new tree: new when the old tree lacks its key,
/// modified when it is a file whose bytes differ, none otherwise.
pub open spec fn new_status(e: SnapEntry, c: Comparison, in_old: bool) -> Option<StatusItemType> {
    if !in_old {
        Some(StatusItemType::New)
    } else if !e.is_dir && c == Comparison::Differs {
        Some(StatusItemType::Modified)
    } else {
        None
    }
}

/// The deleted entries among the first `n` of the old snapshot.
pub open spec fn deleted_entries(
    old: Seq<SnapEntry>,
    old_root: Seq<char>,
    new_side: Seq<SnapEntry>,
    new_root: Seq<char>,
    n: int,
) -> Seq<EntryView>
    decreases n,
{
    if n <= 0 {
        Seq::empty()
    } else {
        let rest = deleted_entries(old, old_root, new_side, new_root, n - 1);
        let i = n - 1;
        if is_last(old, old_root, i) && !has_key(new_side, new_root, key_at(old, old_root, i)) {
            rest.push(classified_view(old[i], StatusItemType::Deleted))
        } else {
            rest
        }
    }
}

/// The new and modified entries among the first `n` of the new snapshot.
pub open spec fn added_entries(
    old: Seq<SnapEntry>,
    old_root: Seq<char>,
    new: Seq<(SnapEntry, Comparison)>,
    new_root: Seq<char>,
    n: int,
) -> Seq<EntryView>
    decreases n,
{
    if n <= 0 {
        Seq::empty()
    } else {
        let rest = added_entries(old, old_root, new, new_root, n - 1);
        let j = n - 1;
        let side = sides(new);
        if is_last(side, new_root, j) {
            match new_status(side[j], new[j].1, has_key(old, old_root, key_at(side, new_root, j))) {
                Some(st) => rest.push(classified_view(side[j], st)),
                None => rest,
            }
        } else {
            rest
        }
    }
}

/// Every classified entry, before sorting: the deleted ones in the order of
/// the old snapshot, then the new and modified ones in the order of the new.
pub open spec fn classified(
    old: Seq<SnapEntry>,
    old_root: Seq<char>,
    new: Seq<(SnapEntry, Comparison)>,
    new_root: Seq<char>,
) -> Seq<EntryView> {
    deleted_entries(old, old_root, sides(new), new_root, old.len() as int) + added_entries(
        old,
        old_root,
        new,
        new_root,
        new.len() as int,
    )
}

/// The classified list of two snapshots.
pub open spec fn differ_output(
    old: Seq<SnapEntry>,
    old_root: Seq<char>,
    new: Seq<(SnapEntry, Comparison)>,
    new_root: Seq<char>,
) -> Seq<EntryView> {
    listed(classified(old, old_root, new, new_root))
}

fn keys_of(s: &Vec<SnapEntry>, root: &str) -> (r: Vec<String>)
    ensures
        r@.len() == s@.len(),
        forall|i: int| 0 <= i < s@.len() ==> #[trigger] r@[i]@ == key_at(s@, root@, i),
{
    let mut r: Vec<String> = Vec::new();
    let mut i: usize = 0;
    while i < s.len()
        invariant
            i <= s.len(),
            r@.len() == i,
            forall|m: int| 0 <= m < i ==> #[trigger] r@[m]@ == key_at(s@, root@, m),
        decreases s.len() - i,
    {
        r.push(key_in_root(s[i].path.as_str(), root));
        i += 1;
    }
    r
}

fn snapshot_sides(new: &Vec<(SnapEntry, Comparison)>) -> (r: Vec<SnapEntry>)
    ensures
        r@.len() == new@.len(),
        forall|i: int|
            0 <= i < new@.len() ==> (#[trigger] r@[i]).path@ == new@[i].0.path@ && r@[i].is_dir
                == new@[i].0.is_dir,
{
    let mut r: Vec<SnapEntry> = Vec::new();
    let mut i: usize = 0;
    while i < new.len()
        invariant
            i <= new.len(),
            r@.len() == i,
            forall|m: int|
                0 <= m < i ==> (#[trigger] r@[m]).path@ == new@[m].0.path@ && r@[m].is_dir
                    == new@[m].0.is_dir,
        decreases new.len() - i,
    {
        r.push(SnapEntry { path: new[i].0.path.clone(), is_dir: new[i].0.is_dir });
        i += 1;
    }
    r
}

fn contains_key(keys: &Vec<String>, k: &String) -> (r: bool)
    ensures
        r == exists|j: int| 0 <= j < keys@.len() && #[trigger] keys@[j]@ == k@,
{
    let mut j: usize = 0;
    while j < keys.len()
        invariant
            j <= keys.len(),
            forall|m: int| 0 <= m < j ==> #[trigger] keys@[m]@ != k@,
        decreases keys.len() - j,
    {
        if keys[j] == *k {
            return true;
        }
        j += 1;
    }
    false
}

fn last_with_key(keys: &Vec<String>, i: usize) -> (r: bool)
    requires
        i < keys@.len(),
    ensures
        r == forall|j: int| i < j < keys@.len() ==> #[trigger] keys@[j]@ != keys@[i as int]@,
{
    let n = keys.len();
    let mut j: usize = i + 1;
    while j < n
        invariant
            i < j <= n,
            n == keys@.len(),
            forall|m: int| i < m < j ==> #[trigger] keys@[m]@ != keys@[i as int]@,
        decreases keys.len() - j,
    {
        if keys[j] == keys[i] {
            return false;
        }
        j += 1;
    }
    true
}

/// Classifies the entries of two snapshots, the old one rooted at `old_root`
/// and the new one at `new_root`, each entry of the new one with the outcome
/// of comparing its bytes with its counterpart, and returns the classified list.
pub fn diff_list_dir(
    old_root: &str,
    old: &Vec<SnapEntry>,
    new_root: &str,
    new: &Vec<(SnapEntry, Comparison)>,
) -> (r: Vec<FolderStatefulList>)
    ensures
        entry_views(r@) == differ_output(old@, old_root@, new@, new_root@),
{
    let ghost side = sides(new@);
    let new_side = snapshot_sides(new);
    let old_keys = keys_of(old, old_root);
    let new_keys = keys_of(&new_side, new_root);
    proof {
        assert forall|j: int| 0 <= j < new@.len() implies #[trigger] new_keys@[j]@ == key_at(
            side,
            new_root@,
            j,
        ) by {
            assert(new_keys@[j]@ == key_at(new_side@, new_root@, j));
        }
    }
    let mut res: Vec<FolderStatefulList> = Vec::new();
    let mut i: usize = 0;
    while i < old.len()
        invariant
            i <= old.len(),
            old_keys@.len() == old@.len(),
            new_keys@.len() == new@.len(),
            side == sides(new@),
            forall|m: int| 0 <= m < old@.len() ==> #[trigger] old_keys@[m]@ == key_at(old@, old_root@, m),
            forall|m: int| 0 <= m < new@.len() ==> #[trigger] new_keys@[m]@ == key_at(side, new_root@, m),
            entry_views(res@) == deleted_entries(old@, old_root@, side, new_root@, i as int),
        decreases old.len() - i,
    {
        let last = last_with_key(&old_keys, i);
        let found = contains_key(&new_keys, &old_keys[i]);
        proof {
            assert(last == is_last(old@, old_root@, i as int)) by {
                if last {
                    assert forall|m: int| i < m < old@.len() implies #[trigger] key_at(old@, old_root@, m) != key_at(old@, old_root@, i as int) by {
                        assert(old_keys@[m]@ != old_keys@[i as int]@);
                    }
                }
                if !last {
                    let j = choose|j: int| i < j < old_keys@.len() && #[trigger] old_keys@[j]@ == old_keys@[i as int]@;
                    assert(key_at(old@, old_root@, j) == key_at(old@, old_root@, i as int));
                }
            }
            assert(found == has_key(side, new_root@, key_at(old@, old_root@, i as int))) by {
                if found {
                    let j = choose|j: int| 0 <= j < new_keys@.len() && #[trigger] new_keys@[j]@ == old_keys@[i as int]@;
                    assert(key_at(side, new_root@, j) == key_at(old@, old_root@, i as int));
                }
                if has_key(side, new_root@, key_at(old@, old_root@, i as int)) {
                    let j = choose|j: int| 0 <= j < side.len() && #[trigger] key_at(side, new_root@, j) == key_at(old@, old_root@, i as int);
                    assert(new_keys@[j]@ == old_keys@[i as int]@);
                }
            }
        }
        if last && !found {
            let ghost before = res@;
            res.push(
                FolderStatefulList {
                    path: old[i].path.clone(),
                    is_dir: old[i].is_dir,
                    state: StatusItemType::Deleted,
                },
            );
            proof {
                assert(entry_views(res@) =~= entry_views(before).push(
                    classified_view(old@[i as int], StatusItemType::Deleted),
                ));
            }
        }
        i += 1;
    }
    let ghost deleted = entry_views(res@);
    let mut j: usize = 0;
    proof {
        assert(entry_views(res@) =~= deleted + added_entries(old@, old_root@, new@, new_root@, 0));
    }
    while j < new.len()
        invariant
            j <= new.len(),
            old_keys@.len() == old@.len(),
            new_keys@.len() == new@.len(),
            side == sides(new@),
            forall|m: int| 0 <= m < old@.len() ==> #[trigger] old_keys@[m]@ == key_at(old@, old_root@, m),
            forall|m: int| 0 <= m < new@.len() ==> #[trigger] new_keys@[m]@ == key_at(side, new_root@, m),
            deleted == deleted_entries(old@, old_root@, side, new_root@, old@.len() as int),
            entry_views(res@) == deleted + added_entries(old@, old_root@, new@, new_root@, j as int),
        decreases new.len() - j,
    {
        let last = last_with_key(&new_keys, j);
        let found = contains_key(&old_keys, &new_keys[j]);
        proof {
            assert(last == is_last(side, new_root@, j as int)) by {
                if last {
                    assert forall|m: int| j < m < side.len() implies #[trigger] key_at(side, new_root@, m) != key_at(side, new_root@, j as int) by {
                        assert(new_keys@[m]@ != new_keys@[j as int]@);
                    }
                }
                if !last {
                    let k = choose|k: int| j < k < new_keys@.len() && #[trigger] new_keys@[k]@ == new_keys@[j as int]@;
                    assert(key_at(side, new_root@, k) == key_at(side, new_root@, j as int));
                }
            }
            assert(found == has_key(old@, old_root@, key_at(side, new_root@, j as int))) by {
                if found {
                    let k = choose|k: int| 0 <= k < old_keys@.len() && #[trigger] old_keys@[k]@ == new_keys@[j as int]@;
                    assert(key_at(old@, old_root@, k) == key_at(side, new_root@, j as int));
                }
                if has_key(old@, old_root@, key_at(side, new_root@, j as int)) {
                    let k = choose|k: int| 0 <= k < old@.len() && #[trigger] key_at(old@, old_root@, k) == key_at(side, new_root@, j as int);
                    assert(old_keys@[k]@ == new_keys@[j as int]@);
                }
            }
            assert(side[j as int] == new@[j as int].0);
        }
        let e = &new[j].0;
        let status = if !found {
            Some(StatusItemType::New)
        } else if !e.is_dir && new[j].1 == Comparison::Differs {
            Some(StatusItemType::Modified)
        } else {
            None
        };
        if last {
            if let Some(st) = status {
                let ghost before = res@;
                res.push(FolderStatefulList { path: e.path.clone(), is_dir: e.is_dir, state: st });
                proof {
                    assert(entry_views(res@) =~= entry_views(before).push(
                        classified_view(side[j as int], st),
                    ));
                }
            }
        }
        j += 1;
    }
    delta_folder_stateful_list(&mut res);
    res
}

proof fn lemma_sorted_same_contents(s: Seq<EntryView>)
    ensures
        sorted_entries(s).to_multiset() == s.to_multiset(),
        forall|x: EntryView| #[trigger] sorted_entries(s).contains(x) <==> s.contains(x),
{
    broadcast use vstd::seq_lib::group_to_multiset_ensures;

    lemma_entry_order_total();
    s.lemma_sort_by_ensures(entry_order());
    assert forall|x: EntryView| #[trigger] sorted_entries(s).contains(x) <==> s.contains(x) by {
        assert(sorted_entries(s).contains(x) <==> sorted_entries(s).to_multiset().count(x) > 0);
        assert(s.contains(x) <==> s.to_multiset().count(x) > 0);
    }
}

proof fn lemma_descendant_transitive(p: Seq<char>, a: Seq<char>, c: Seq<char>)
    requires
        is_descendant(p, a),
        is_descendant(a, c),
    ensures
        is_descendant(p, c),
        c.len() < a.len() < p.len(),
{
    let cs = c.push('/');
    assert(cs =~= a.subrange(0, cs.len() as int));
    assert(a.subrange(0, cs.len() as int) =~= p.subrange(0, cs.len() as int)) by {
        assert forall|i: int| 0 <= i < cs.len() implies a[i] == p[i] by {
            assert(a.push('/')[i] == p[i]);
        }
    }
}

/// Whatever a wholly new or deleted directory of `s` holds is held by such a
/// directory that the pruned list keeps.
proof fn lemma_kept_or_held(s: Seq<EntryView>, e: EntryView)
    requires
        s.contains(e),
    ensures
        pruned(s).contains(e) || exists|k: int|
            0 <= k < pruned(s).len() && #[trigger] is_changed_dir(pruned(s)[k]) && is_descendant(
                e.path,
                pruned(s)[k].path,
            ),
    decreases e.path.len(),
{
    broadcast use vstd::seq_lib::group_seq_properties;

    let i = choose|i: int| 0 <= i < s.len() && s[i] == e;
    if keeps(s)(e) {
        s.lemma_filter_contains(keeps(s), i);
    } else {
        let k = choose|k: int|
            0 <= k < s.len() && #[trigger] is_changed_dir(s[k]) && is_descendant(e.path, s[k].path);
        let a = s[k];
        assert(a.path.push('/').len() <= e.path.len());
        lemma_kept_or_held(s, a);
        if pruned(s).contains(a) {
            let m = choose|m: int| 0 <= m < pruned(s).len() && pruned(s)[m] == a;
            assert(is_changed_dir(pruned(s)[m]));
        } else {
            let m = choose|m: int|
                0 <= m < pruned(s).len() && #[trigger] is_changed_dir(pruned(s)[m])
                    && is_descendant(a.path, pruned(s)[m].path);
            lemma_descendant_transitive(e.path, a.path, pruned(s)[m].path);
        }
    }
}

proof fn lemma_deleted_has(
    old: Seq<SnapEntry>,
    old_root: Seq<char>,
    new_side: Seq<SnapEntry>,
    new_root: Seq<char>,
    n: int,
    i: int,
)
    requires
        0 <= i < n,
        is_last(old, old_root, i),
        !has_key(new_side, new_root, key_at(old, old_root, i)),
    ensures
        deleted_entries(old, old_root, new_side, new_root, n).contains(
            classified_view(old[i], StatusItemType::Deleted),
        ),
    decreases n,
{
    broadcast use vstd::seq_lib::group_seq_properties;

    if i < n - 1 {
        lemma_deleted_has(old, old_root, new_side, new_root, n - 1, i);
    }
}

proof fn lemma_added_has(
    old: Seq<SnapEntry>,
    old_root: Seq<char>,
    new: Seq<(SnapEntry, Comparison)>,
    new_root: Seq<char>,
    n: int,
    j: int,
    st: StatusItemType,
)
    requires
        0 <= j < n,
        is_last(sides(new), new_root, j),
        new_status(
            sides(new)[j],
            new[j].1,
            has_key(old, old_root, key_at(sides(new), new_root, j)),
        ) == Some(st),
    ensures
        added_entries(old, old_root, new, new_root, n).contains(
            classified_view(sides(new)[j], st),
        ),
    decreases n,
{
    broadcast use vstd::seq_lib::group_seq_properties;

    if j < n - 1 {
        lemma_added_has(old, old_root, new, new_root, n - 1, j, st);
    }
}

/// Every entry that the first `n` entries of the new snapshot contribute
/// comes from one that the snapshot keeps for its key, with its status.
proof fn lemma_added_from(
    old: Seq<SnapEntry>,
    old_root: Seq<char>,
    new: Seq<(SnapEntry, Comparison)>,
    new_root: Seq<char>,
    n: int,
    x: EntryView,
)
    requires
        added_entries(old, old_root, new, new_root, n).contains(x),
    ensures
        exists|j: int|
            0 <= j < n && is_last(sides(new), new_root, j) && (#[trigger] sides(new)[j]).path@
                == x.path && new_status(
                sides(new)[j],
                new[j].1,
                has_key(old, old_root, key_at(sides(new), new_root, j)),
            ) == Some(x.state),
    decreases n,
{
    broadcast use vstd::seq_lib::group_seq_properties;

    if n > 0 {
        let rest = added_entries(old, old_root, new, new_root, n - 1);
        if rest.contains(x) {
            lemma_added_from(old, old_root, new, new_root, n - 1, x);
        } else {
            assert(sides(new)[n - 1].path@ == x.path);
        }
    }
}

proof fn lemma_deleted_states(
    old: Seq<SnapEntry>,
    old_root: Seq<char>,
    new_side: Seq<SnapEntry>,
    new_root: Seq<char>,
    n: int,
    x: EntryView,
)
    requires
        deleted_entries(old, old_root, new_side, new_root, n).contains(x),
    ensures
        x.state == StatusItemType::Deleted,
    decreases n,
{
    broadcast use vstd::seq_lib::group_seq_properties;

    if n > 0 {
        let rest = deleted_entries(old, old_root, new_side, new_root, n - 1);
        if rest.contains(x) {
            lemma_deleted_states(old, old_root, new_side, new_root, n - 1, x);
        }
    }
}

proof fn lemma_last_unique(s: Seq<SnapEntry>, root: Seq<char>, i: int, j: int)
    requires
        0 <= i < s.len(),
        0 <= j < s.len(),
        is_last(s, root, i),
        is_last(s, root, j),
        s[i].path@ == s[j].path@,
    ensures
        i == j,
{
    if i < j {
        assert(key_at(s, root, j) != key_at(s, root, i));
    } else if j < i {
        assert(key_at(s, root, i) != key_at(s, root, j));
    }
}

/// A path found only under the old root is listed as deleted, or lies inside a
/// listed directory that is new or deleted as a whole.
pub proof fn lemma_only_old_is_deleted(
    old: Seq<SnapEntry>,
    old_root: Seq<char>,
    new: Seq<(SnapEntry, Comparison)>,
    new_root: Seq<char>,
    i: int,
)
    requires
        0 <= i < old.len(),
        is_last(old, old_root, i),
        !has_key(sides(new), new_root, key_at(old, old_root, i)),
    ensures
        ({
            let out = differ_output(old, old_root, new, new_root);
            let e = classified_view(old[i], StatusItemType::Deleted);
            out.contains(e) || exists|k: int|
                0 <= k < out.len() && #[trigger] is_changed_dir(out[k]) && is_descendant(
                    e.path,
                    out[k].path,
                )
        }),
{
    broadcast use vstd::seq_lib::group_seq_properties;

    let raw = classified(old, old_root, new, new_root);
    let e = classified_view(old[i], StatusItemType::Deleted);
    lemma_deleted_has(old, old_root, sides(new), new_root, old.len() as int, i);
    lemma_sorted_same_contents(raw);
    lemma_kept_or_held(sorted_entries(raw), e);
}

/// A path found only under the new root is listed as new, or lies inside a
/// listed directory that is new or deleted as a whole.
pub proof fn lemma_only_new_is_new(
    old: Seq<SnapEntry>,
    old_root: Seq<char>,
    new: Seq<(SnapEntry, Comparison)>,
    new_root: Seq<char>,
    j: int,
)
    requires
        0 <= j < new.len(),
        is_last(sides(new), new_root, j),
        !has_key(old, old_root, key_at(sides(new), new_root, j)),
    ensures
        ({
            let out = differ_output(old, old_root, new, new_root);
            let e = classified_view(new[j].0, StatusItemType::New);
            out.contains(e) || exists|k: int|
                0 <= k < out.len() && #[trigger] is_changed_dir(out[k]) && is_descendant(
                    e.path,
                    out[k].path,
                )
        }),
{
    broadcast use vstd::seq_lib::group_seq_properties;

    let raw = classified(old, old_root, new, new_root);
    let e = classified_view(new[j].0, StatusItemType::New);
    assert(sides(new)[j] == new[j].0);
    lemma_added_has(old, old_root, new, new_root, new.len() as int, j, StatusItemType::New);
    lemma_sorted_same_contents(raw);
    lemma_kept_or_held(sorted_entries(raw), e);
}

/// A path of the new tree whose key the old tree has too, and which is a
/// directory or a file with the same bytes, is never listed as new or modified.
pub proof fn lemma_unchanged_not_listed(
    old: Seq<SnapEntry>,
    old_root: Seq<char>,
    new: Seq<(SnapEntry, Comparison)>,
    new_root: Seq<char>,
    j: int,
)
    requires
        0 <= j < new.len(),
        is_last(sides(new), new_root, j),
        has_key(old, old_root, key_at(sides(new), new_root, j)),
        new[j].0.is_dir || new[j].1 == Comparison::Same,
    ensures
        forall|k: int|
            0 <= k < differ_output(old, old_root, new, new_root).len() ==> {
                let x = #[trigger] differ_output(old, old_root, new, new_root)[k];
                !(x.path == new[j].0.path@ && (x.state == StatusItemType::New || x.state
                    == StatusItemType::Modified))
            },
{
    broadcast use vstd::seq_lib::group_seq_properties;

    let raw = classified(old, old_root, new, new_root);
    let sorted = sorted_entries(raw);
    let out = differ_output(old, old_root, new, new_root);
    let side = sides(new);
    let del = deleted_entries(old, old_root, side, new_root, old.len() as int);
    let add = added_entries(old, old_root, new, new_root, new.len() as int);
    assert(side[j] == new[j].0);
    lemma_sorted_same_contents(raw);
    assert forall|k: int| 0 <= k < out.len() implies {
        let x = #[trigger] out[k];
        !(x.path == new[j].0.path@ && (x.state == StatusItemType::New || x.state
            == StatusItemType::Modified))
    } by {
        let x = out[k];
        if x.path == new[j].0.path@ && (x.state == StatusItemType::New || x.state
            == StatusItemType::Modified) {
            assert(out.contains(x));
            sorted.lemma_filter_contains_rev(keeps(sorted), x);
            assert(raw.contains(x));
            if del.contains(x) {
                lemma_deleted_states(old, old_root, side, new_root, old.len() as int, x);
            } else {
                assert(add.contains(x));
                lemma_added_from(old, old_root, new, new_root, new.len() as int, x);
                let m = choose|m: int|
                    0 <= m < new.len() && is_last(side, new_root, m) && (#[trigger] side[m]).path@
                        == x.path && new_status(
                        side[m],
                        new[m].1,
                        has_key(old, old_root, key_at(side, new_root, m)),
                    ) == Some(x.state);
                lemma_last_unique(side, new_root, m, j);
            }
        }
    }
}

proof fn lemma_filter_count<A>(s: Seq<A>, p: spec_fn(A) -> bool, x: A)
    ensures
        s.filter(p).to_multiset().count(x) == (if p(x) {
            s.to_multiset().count(x)
        } else {
            0
        }),
    decreases s.len(),
{
    broadcast use vstd::seq_lib::group_to_multiset_ensures;
    broadcast use vstd::multiset::group_multiset_axioms;

    reveal(Seq::filter);
    if s.len() > 0 {
        lemma_filter_count(s.drop_last(), p, x);
        assert(s =~= s.drop_last().push(s.last()));
    } else {
        assert(s.filter(p) =~= s);
    }
}

proof fn lemma_added_count(
    old: Seq<SnapEntry>,
    old_root: Seq<char>,
    new: Seq<(SnapEntry, Comparison)>,
    new_root: Seq<char>,
    n: int,
    j: int,
)
    requires
        0 <= j < new.len(),
        n <= new.len(),
        is_last(sides(new), new_root, j),
        new_status(
            sides(new)[j],
            new[j].1,
            has_key(old, old_root, key_at(sides(new), new_root, j)),
        ) == Some(StatusItemType::Modified),
    ensures
        added_entries(old, old_root, new, new_root, n).to_multiset().count(
            classified_view(sides(new)[j], StatusItemType::Modified),
        ) == (if j < n {
            1int
        } else {
            0int
        }),
    decreases n,
{
    broadcast use vstd::seq_lib::group_to_multiset_ensures;
    broadcast use vstd::multiset::group_multiset_axioms;

    let side = sides(new);
    let x = classified_view(side[j], StatusItemType::Modified);
    if n <= 0 {
        assert(added_entries(old, old_root, new, new_root, n) =~= Seq::<EntryView>::empty());
    } else {
        lemma_added_count(old, old_root, new, new_root, n - 1, j);
        let m = n - 1;
        if is_last(side, new_root, m) {
            match new_status(side[m], new[m].1, has_key(old, old_root, key_at(side, new_root, m))) {
                Some(st) => {
                    if classified_view(side[m], st) == x {
                        lemma_last_unique(side, new_root, m, j);
                    }
                },
                None => {},
            }
        }
    }
}

/// A path present under both roots as files with differing bytes is listed as
/// modified exactly once, unless a directory listed as wholly new or deleted
/// holds it.
pub proof fn lemma_differing_listed_once(
    old: Seq<SnapEntry>,
    old_root: Seq<char>,
    new: Seq<(SnapEntry, Comparison)>,
    new_root: Seq<char>,
    j: int,
)
    requires
        0 <= j < new.len(),
        is_last(sides(new), new_root, j),
        has_key(old, old_root, key_at(sides(new), new_root, j)),
        !new[j].0.is_dir,
        new[j].1 == Comparison::Differs,
        !has_changed_ancestor(classified(old, old_root, new, new_root), new[j].0.path@),
    ensures
        differ_output(old, old_root, new, new_root).to_multiset().count(
            classified_view(new[j].0, StatusItemType::Modified),
        ) == 1,
{
    broadcast use vstd::seq_lib::group_seq_properties;
    broadcast use vstd::multiset::group_multiset_axioms;

    let raw = classified(old, old_root, new, new_root);
    let sorted = sorted_entries(raw);
    let side = sides(new);
    let del = deleted_entries(old, old_root, side, new_root, old.len() as int);
    let add = added_entries(old, old_root, new, new_root, new.len() as int);
    let x = classified_view(new[j].0, StatusItemType::Modified);
    assert(side[j] == new[j].0);
    lemma_added_count(old, old_root, new, new_root, new.len() as int, j);
    if del.to_multiset().count(x) > 0 {
        assert(del.contains(x));
        lemma_deleted_states(old, old_root, side, new_root, old.len() as int, x);
    }
    vstd::seq_lib::lemma_multiset_commutative(del, add);
    lemma_sorted_same_contents(raw);
    if has_changed_ancestor(sorted, x.path) {
        let k = choose|k: int|
            0 <= k < sorted.len() && #[trigger] is_changed_dir(sorted[k]) && is_descendant(
                x.path,
                sorted[k].path,
            );
        assert(sorted.contains(sorted[k]));
        let m = choose|m: int| 0 <= m < raw.len() && raw[m] == sorted[k];
        assert(is_changed_dir(raw[m]));
    }
    lemma_filter_count(sorted, keeps(sorted), x);
}

/// The classified list depends on which entries were classified, not on the
/// order in which they were found.
pub proof fn lemma_listed_order_free(s1: Seq<EntryView>, s2: Seq<EntryView>)
    requires
        s1.to_multiset() == s2.to_multiset(),
    ensures
        listed(s1) == listed(s2),
{
    lemma_entry_order_total();
    s1.lemma_sort_by_ensures(entry_order());
    s2.lemma_sort_by_ensures(entry_order());
    lemma_sorted_unique(sorted_entries(s1), sorted_entries(s2), entry_order());
}

proof fn lemma_filter_sorted(s: Seq<EntryView>, p: spec_fn(EntryView) -> bool)
    requires
        sorted_by(s, entry_order()),
    ensures
        sorted_by(s.filter(p), entry_order()),
    decreases s.len(),
{
    reveal(Seq::filter);
    if s.len() > 0 {
        let rest = s.drop_last();
        assert(sorted_by(rest, entry_order()));
        lemma_filter_sorted(rest, p);
        if p(s.last()) {
            let f = s.filter(p);
            let g = rest.filter(p);
            assert forall|i: int, j: int| 0 <= i < j < f.len() implies #[trigger] entry_order()(
                f[i],
                f[j],
            ) by {
                if j == f.len() - 1 {
                    assert(g.contains(f[i]));
                    rest.lemma_filter_contains_rev(p, f[i]);
                    let a = choose|a: int| 0 <= a < rest.len() && rest[a] == f[i];
                    assert(entry_order()(s[a], s[s.len() - 1]));
                } else {
                    assert(entry_order()(g[i], g[j]));
                }
            }
        }
    }
}

/// The classified list comes out in the order of canonical paths.
pub proof fn lemma_listed_sorted(s: Seq<EntryView>)
    ensures
        sorted_by(listed(s), entry_order()),
{
    lemma_entry_order_total();
    s.lemma_sort_by_ensures(entry_order());
    lemma_filter_sorted(sorted_entries(s), keeps(sorted_entries(s)));
}

/// No entry of the classified list lies inside a listed directory that is new
/// or deleted as a whole.
pub proof fn lemma_no_descendant_listed(
    old: Seq<SnapEntry>,
    old_root: Seq<char>,
    new: Seq<(SnapEntry, Comparison)>,
    new_root: Seq<char>,
)
    ensures
        ({
            let out = differ_output(old, old_root, new, new_root);
            forall|k: int, m: int|
                0 <= k < out.len() && 0 <= m < out.len() && #[trigger] is_changed_dir(out[k])
                    ==> !is_descendant(#[trigger] out[m].path, out[k].path)
        }),
{
    broadcast use vstd::seq_lib::group_seq_properties;

    let sorted = sorted_entries(classified(old, old_root, new, new_root));
    let out = differ_output(old, old_root, new, new_root);
    assert forall|k: int, m: int|
        0 <= k < out.len() && 0 <= m < out.len() && #[trigger] is_changed_dir(out[k]) implies !is_descendant(
        #[trigger] out[m].path,
        out[k].path,
    ) by {
        sorted.lemma_filter_pred(keeps(sorted), m);
        assert(out.contains(out[k]));
        sorted.lemma_filter_contains_rev(keeps(sorted), out[k]);
        let a = choose|a: int| 0 <= a < sorted.len() && sorted[a] == out[k];
        assert(is_changed_dir(sorted[a]));
    }
}

} // verus!
