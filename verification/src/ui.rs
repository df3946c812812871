use vstd::prelude::*;

use crate::order::{compare_chars, lemma_text_order_antisym, lemma_text_order_trans, text_order};
use crate::scan::{flags_text, is_deletable, ScanResult, Worktree};
use crate::text::{
    owned,
    chars_of, contains_chars, contains_seq, dec, lowercase, push_char, push_decimal, push_str,
    string_of, to_lowercase,
};
use crate::timeutil::{age_label, age_label_text, now_unix};
use crate::paths::{same_path, same_place, shorten_path, shortened};
use crate::remove::{scope_after, scope_label, BranchScope};
use crate::scan::sat_diff;

verus! {

/// What the scan covers.
#[derive(Debug)]
pub struct Options {
    pub roots: Vec<String>,
    pub max_depth: u8,
    pub older_than_secs: Option<i64>,
}

/// What the interface asks of the loop that runs it after a key.
#[derive(Debug, Clone, Copy, PartialEq, Eq, Structural)]
pub enum Action {
    /// Nothing for the loop to do.
    Continue,
    Quit,
    Rescan,
    /// Delete the selected worktrees (dirty and locked ones too when forced),
    /// handling their branches as the state's branch scope says.
    Delete { force: bool },
    /// Remove the dependency directories of the selected worktrees.
    Clean,
}

/// A key the interface reacts to; every other key is `Other`.
#[derive(Debug, Clone, Copy, PartialEq, Eq, Structural)]
pub enum KeyCode {
    Char(char),
    Enter,
    Esc,
    Backspace,
    Up,
    Down,
    PageUp,
    PageDown,
    Home,
    End,
    Other,
}

/// Whether Control was held with a key.
#[allow(non_camel_case_types)]
#[derive(Debug, Clone, Copy, PartialEq, Eq, Structural)]
pub enum KeyModifiers {
    NONE,
    CONTROL,
}

/// The state of the interface: the listed worktrees, the cursor on the visible
/// rows, the selected paths, the text filter, and what is shown.
#[derive(Debug)]
pub struct App {
    pub items: Vec<Worktree>,
    pub repos: usize,
    pub errors: Vec<String>,
    pub roots_label: String,
    pub cursor: usize,
    pub selected: Vec<String>,
    pub filter: String,
    pub filter_mode: bool,
    pub confirm: bool,
    pub clean_confirm: bool,
    pub scope: BranchScope,
    pub status: String,
    pub now: i64,
}

/// The content of the interface state; the selection is a set of paths.
pub struct AppView {
    pub items: Seq<Worktree>,
    pub repos: usize,
    pub errors: Seq<Seq<char>>,
    pub roots_label: Seq<char>,
    pub cursor: int,
    pub selected: Set<Seq<char>>,
    pub filter: Seq<char>,
    pub filter_mode: bool,
    pub confirm: bool,
    pub clean_confirm: bool,
    pub scope: BranchScope,
    pub status: Seq<char>,
    pub now: i64,
}

/// The texts of a sequence of strings.
pub open spec fn texts(v: Seq<String>) -> Seq<Seq<char>> {
    v.map_values(|s: String| s@)
}

impl View for App {
    type V = AppView;

    open spec fn view(&self) -> AppView {
        AppView {
            items: self.items@,
            repos: self.repos,
            errors: texts(self.errors@),
            roots_label: self.roots_label@,
            cursor: self.cursor as int,
            selected: texts(self.selected@).to_set(),
            filter: self.filter@,
            filter_mode: self.filter_mode,
            confirm: self.confirm,
            clean_confirm: self.clean_confirm,
            scope: self.scope,
            status: self.status@,
            now: self.now,
        }
    }
}

/// Whether the selected paths are held in path order without repeats.
pub open spec fn sorted_paths(s: Seq<String>) -> bool {
    forall|i: int, j: int| 0 <= i < j < s.len() ==> text_order(s[i]@, s[j]@, true) < 0
}

impl App {
    /// Whether the selection is held in path order without repeats.
    pub open spec fn well_formed(&self) -> bool {
        sorted_paths(self.selected@)
    }
}

/// The text a row is searched in: repository, branch, path, folder and flags.
pub open spec fn row_text(wt: Worktree) -> Seq<char> {
    wt.repo@ + " "@ + wt.branch@ + " "@ + wt.path@ + " "@ + wt.parent@ + " "@ + flags_text(wt)
}

/// Whether row `i` passes the filter: the filter is taken in lower case; an
/// empty one passes every row, any other must occur in the row's text taken
/// in lower case.
pub open spec fn passes(v: AppView, i: int) -> bool {
    lowercase(v.filter).len() == 0 || contains_seq(lowercase(row_text(v.items[i])), lowercase(v.filter))
}

/// The visible rows among the first `n`.
pub open spec fn visible_upto(v: AppView, n: int) -> Seq<int>
    decreases n,
{
    if n <= 0 {
        Seq::empty()
    } else {
        visible_upto(v, n - 1) + if passes(v, n - 1) {
            seq![n - 1]
        } else {
            Seq::<int>::empty()
        }
    }
}

/// The indices of the visible rows, in order.
pub open spec fn visible_rows(v: AppView) -> Seq<int> {
    visible_upto(v, v.items.len() as int)
}

/// The path under the cursor, if the cursor is on a visible row.
pub open spec fn current_path(v: AppView) -> Option<Seq<char>> {
    let vis = visible_rows(v);
    if 0 <= v.cursor < vis.len() {
        Some(v.items[vis[v.cursor]].path@)
    } else {
        None
    }
}

/// Whether the first worktree at `path` may be deleted.
pub open spec fn first_deletable(items: Seq<Worktree>, path: Seq<char>) -> bool {
    match crate::remove::first_at(items, path) {
        Some(k) => is_deletable(items[k]),
        None => false,
    }
}

/// Space: selects or unselects the row under the cursor; a row that may not
/// be deleted is never selected, and says so.
pub open spec fn toggle_current(v: AppView) -> AppView {
    match current_path(v) {
        None => v,
        Some(p) => if !first_deletable(v.items, p) {
            AppView { status: "主检出只作参照，不会删除"@, ..v }
        } else if v.selected.contains(p) {
            AppView { selected: v.selected.remove(p), ..v }
        } else {
            AppView { selected: v.selected.insert(p), ..v }
        },
    }
}

/// The deletable visible rows among the first `n` visible ones.
pub open spec fn deletable_visible_upto(v: AppView, n: int) -> Seq<Seq<char>>
    decreases n,
{
    if n <= 0 {
        Seq::empty()
    } else {
        let idx = visible_rows(v)[n - 1];
        deletable_visible_upto(v, n - 1) + if is_deletable(v.items[idx]) {
            seq![v.items[idx].path@]
        } else {
            Seq::<Seq<char>>::empty()
        }
    }
}

/// The paths of the visible rows that may be deleted.
pub open spec fn deletable_visible(v: AppView) -> Seq<Seq<char>> {
    deletable_visible_upto(v, visible_rows(v).len() as int)
}

/// `a`: selects every deletable visible row, or unselects them all when they
/// are all selected already; says so when there is none.
pub open spec fn toggle_all(v: AppView) -> AppView {
    let paths = deletable_visible(v);
    if paths.len() == 0 {
        AppView { status: "当前没有可删除的 worktree"@, ..v }
    } else if paths.to_set().subset_of(v.selected) {
        AppView { selected: v.selected.difference(paths.to_set()), ..v }
    } else {
        AppView { selected: v.selected.union(paths.to_set()), ..v }
    }
}

/// `d` (or `x` when `cleaning`): with nothing selected, selects the row under
/// the cursor first; then asks to confirm the deletion (or the clean-up), or
/// says that nothing is selected.
pub open spec fn arm(v: AppView, cleaning: bool) -> AppView {
    let w = if v.selected.len() == 0 {
        toggle_current(v)
    } else {
        v
    };
    if w.selected.len() == 0 {
        AppView {
            status: if cleaning {
                "先选中要清理的 worktree"@
            } else {
                "先选中要删除的 worktree"@
            },
            ..w
        }
    } else if cleaning {
        AppView { clean_confirm: true, ..w }
    } else {
        AppView { confirm: true, ..w }
    }
}

/// The cursor moved back onto the visible rows (0 when there is none).
pub open spec fn clamp(v: AppView) -> AppView {
    let len = visible_rows(v).len();
    if len == 0 {
        AppView { cursor: 0, ..v }
    } else if v.cursor >= len {
        AppView { cursor: len - 1, ..v }
    } else {
        v
    }
}

/// A key while the filter is being typed.
pub open spec fn filter_key(v: AppView, code: KeyCode) -> (AppView, Action) {
    (
        match code {
            KeyCode::Esc => AppView { filter: Seq::empty(), filter_mode: false, ..v },
            KeyCode::Enter => AppView { filter_mode: false, ..v },
            KeyCode::Backspace => if v.filter.len() > 0 {
                AppView { filter: v.filter.drop_last(), ..v }
            } else {
                v
            },
            KeyCode::Char(ch) => AppView { filter: v.filter.push(ch), ..v },
            _ => v,
        },
        Action::Continue,
    )
}

/// A key while a deletion waits for confirmation: Enter deletes the clean
/// worktrees, `f` deletes by force, `b` moves to the next branch scope, Esc
/// cancels, `q` quits.
pub open spec fn confirm_key(v: AppView, code: KeyCode) -> (AppView, Action) {
    match code {
        KeyCode::Char('b') => (AppView { scope: scope_after(v.scope), ..v }, Action::Continue),
        KeyCode::Enter => (AppView { confirm: false, ..v }, Action::Delete { force: false }),
        KeyCode::Char('f') | KeyCode::Char('F') => (
            AppView { confirm: false, ..v },
            Action::Delete { force: true },
        ),
        KeyCode::Esc => (AppView { confirm: false, ..v }, Action::Continue),
        KeyCode::Char('q') => (v, Action::Quit),
        _ => (v, Action::Continue),
    }
}

/// A key while a clean-up waits for confirmation: Enter cleans, Esc cancels,
/// `q` quits.
pub open spec fn clean_key(v: AppView, code: KeyCode) -> (AppView, Action) {
    match code {
        KeyCode::Enter => (AppView { clean_confirm: false, ..v }, Action::Clean),
        KeyCode::Esc => (AppView { clean_confirm: false, ..v }, Action::Continue),
        KeyCode::Char('q') => (v, Action::Quit),
        _ => (v, Action::Continue),
    }
}

/// `c` plus `d`, held to the range of a cursor.
pub open spec fn cursor_add(c: int, d: int) -> int {
    if c + d > usize::MAX {
        usize::MAX as int
    } else if c + d < 0 {
        0
    } else {
        c + d
    }
}

/// A key while browsing the list.
pub open spec fn browse_key(v: AppView, code: KeyCode) -> (AppView, Action) {
    match code {
        KeyCode::Char('q') | KeyCode::Esc => (v, Action::Quit),
        KeyCode::Down | KeyCode::Char('j') => (
            AppView { cursor: cursor_add(v.cursor, 1), ..v },
            Action::Continue,
        ),
        KeyCode::Up | KeyCode::Char('k') => (
            AppView { cursor: cursor_add(v.cursor, -1), ..v },
            Action::Continue,
        ),
        KeyCode::PageDown => (AppView { cursor: cursor_add(v.cursor, 10), ..v }, Action::Continue),
        KeyCode::PageUp => (AppView { cursor: cursor_add(v.cursor, -10), ..v }, Action::Continue),
        KeyCode::Home | KeyCode::Char('g') => (AppView { cursor: 0, ..v }, Action::Continue),
        KeyCode::End | KeyCode::Char('G') => (
            AppView { cursor: usize::MAX as int, ..v },
            Action::Continue,
        ),
        KeyCode::Char(' ') => (toggle_current(v), Action::Continue),
        KeyCode::Char('a') => (toggle_all(v), Action::Continue),
        KeyCode::Char('/') => (AppView { filter_mode: true, ..v }, Action::Continue),
        KeyCode::Char('r') => (v, Action::Rescan),
        KeyCode::Char('d') => (arm(v, false), Action::Continue),
        KeyCode::Char('x') => (arm(v, true), Action::Continue),
        _ => (v, Action::Continue),
    }
}

/// What a key does: Control-C quits at once; otherwise the key goes to the
/// filter, the pending confirmation or the list, and the cursor is kept on
/// the rows.
pub open spec fn key_step(v: AppView, code: KeyCode, mods: KeyModifiers) -> (AppView, Action) {
    if code == KeyCode::Char('c') && mods == KeyModifiers::CONTROL {
        (v, Action::Quit)
    } else {
        let (w, a) = if v.filter_mode {
            filter_key(v, code)
        } else if v.confirm {
            confirm_key(v, code)
        } else if v.clean_confirm {
            clean_key(v, code)
        } else {
            browse_key(v, code)
        };
        (clamp(w), a)
    }
}


/// Whether the selection holds a path.
fn sel_contains(sel: &Vec<String>, p: &String) -> (b: bool)
    ensures
        b == texts(sel@).contains(p@),
{
    let mut i: usize = 0;
    while i < sel.len()
        invariant
            i <= sel@.len(),
            forall|j: int| 0 <= j < i ==> sel@[j]@ != p@,
        decreases sel@.len() - i,
    {
        if sel[i] == *p {
            assert(texts(sel@)[i as int] == p@);
            return true;
        }
        i = i + 1;
    }
    proof {
        if texts(sel@).contains(p@) {
            let j = choose|j: int| 0 <= j < texts(sel@).len() && texts(sel@)[j] == p@;
            assert(sel@[j]@ == p@);
        }
    }
    false
}

/// Compares two paths component by component.
fn path_order(a: &String, b: &String) -> (r: i8)
    ensures
        r as int == text_order(a@, b@, true),
{
    let va = chars_of(a.as_str());
    let vb = chars_of(b.as_str());
    compare_chars(&va, &vb, true)
}

/// Adds a path to the selection, keeping it in order.
fn sel_insert(sel: &mut Vec<String>, p: String)
    requires
        sorted_paths(old(sel)@),
    ensures
        sorted_paths(final(sel)@),
        texts(final(sel)@).to_set() == texts(old(sel)@).to_set().insert(p@),
{
    let mut q: usize = 0;
    while q < sel.len() && path_order(&sel[q], &p) < 0
        invariant
            q <= sel@.len(),
            forall|j: int| 0 <= j < q ==> text_order((#[trigger] sel@[j])@, p@, true) < 0,
        decreases sel@.len() - q,
    {
        q = q + 1;
    }
    let ghost before = sel@;
    if q < sel.len() && sel[q] == p {
        proof {
            assert(texts(before)[q as int] == p@);
            assert(texts(before).to_set().contains(p@));
            assert(texts(before).to_set().insert(p@) =~= texts(before).to_set());
        }
        return;
    }
    proof {
        if q < before.len() {
            lemma_text_order_antisym(before[q as int]@, p@, true);
        }
        assert forall|k: int| q <= k < before.len() implies text_order(p@, #[trigger] before[k]@, true)
            < 0 by {
            lemma_text_order_antisym(before[q as int]@, p@, true);
            if k > q {
                lemma_text_order_trans(p@, before[q as int]@, before[k]@, true);
            }
        }
    }
    sel.insert(q, p);
    proof {
        let after = sel@;
        assert forall|i: int, j: int| 0 <= i < j < after.len() implies text_order(
            after[i]@,
            after[j]@,
            true,
        ) < 0 by {
            if i < q && j == q {
            } else if i == q && j > q {
                assert(after[j] == before[j - 1]);
            } else if i < q && j > q {
                assert(after[j] == before[j - 1]);
                lemma_text_order_trans(after[i]@, p@, after[j]@, true);
            } else if i > q {
                assert(after[i] == before[i - 1] && after[j] == before[j - 1]);
            }
        }
        assert(texts(after) =~= texts(before).insert(q as int, p@));
        assert(texts(after).to_set() =~= texts(before).to_set().insert(p@)) by {
            assert forall|x: Seq<char>| texts(after).contains(x) <==> texts(before).contains(x)
                || x == p@ by {
                if texts(after).contains(x) {
                    let j = choose|j: int| 0 <= j < texts(after).len() && texts(after)[j] == x;
                    if j < q {
                        assert(texts(before)[j] == x);
                    } else if j > q {
                        assert(texts(before)[j - 1] == x);
                    }
                }
                if texts(before).contains(x) {
                    let j = choose|j: int| 0 <= j < texts(before).len() && texts(before)[j] == x;
                    if j < q {
                        assert(texts(after)[j] == x);
                    } else {
                        assert(texts(after)[j + 1] == x);
                    }
                }
                if x == p@ {
                    assert(texts(after)[q as int] == x);
                }
            }
        }
    }
}

/// Removes a path from the selection.
fn sel_remove(sel: &mut Vec<String>, p: &String)
    requires
        sorted_paths(old(sel)@),
    ensures
        sorted_paths(final(sel)@),
        texts(final(sel)@).to_set() == texts(old(sel)@).to_set().remove(p@),
{
    let ghost before = sel@;
    let mut q: usize = 0;
    while q < sel.len() && !(sel[q] == *p)
        invariant
            q <= sel@.len(),
            sel@ == before,
            forall|j: int| 0 <= j < q ==> (#[trigger] sel@[j])@ != p@,
        decreases sel@.len() - q,
    {
        q = q + 1;
    }
    if q == sel.len() {
        proof {
            assert(!texts(before).contains(p@)) by {
                if texts(before).contains(p@) {
                    let j = choose|j: int| 0 <= j < texts(before).len() && texts(before)[j] == p@;
                    assert(before[j]@ == p@);
                }
            }
            assert(texts(before).to_set().remove(p@) =~= texts(before).to_set());
        }
        return;
    }
    sel.remove(q);
    proof {
        let after = sel@;
        assert forall|i: int, j: int| 0 <= i < j < after.len() implies text_order(
            after[i]@,
            after[j]@,
            true,
        ) < 0 by {
            let bi = if i < q {
                i
            } else {
                i + 1
            };
            let bj = if j < q {
                j
            } else {
                j + 1
            };
            assert(after[i] == before[bi] && after[j] == before[bj]);
        }
        assert(texts(after).to_set() =~= texts(before).to_set().remove(p@)) by {
            assert forall|x: Seq<char>| texts(after).contains(x) <==> texts(before).contains(x)
                && x != p@ by {
                if texts(after).contains(x) {
                    let j = choose|j: int| 0 <= j < texts(after).len() && texts(after)[j] == x;
                    let bj = if j < q {
                        j
                    } else {
                        j + 1
                    };
                    assert(texts(before)[bj] == x);
                    lemma_text_order_antisym(before[bj]@, before[q as int]@, true);
                }
                if texts(before).contains(x) && x != p@ {
                    let j = choose|j: int| 0 <= j < texts(before).len() && texts(before)[j] == x;
                    if j < q {
                        assert(texts(after)[j] == x);
                    } else {
                        assert(j != q);
                        assert(texts(after)[j - 1] == x);
                    }
                }
            }
        }
    }
}


/// The text a row is searched in.
fn row_blob(wt: &Worktree) -> (s: String)
    ensures
        s@ == row_text(*wt),
{
    let mut out = String::new();
    push_str(&mut out, wt.repo.as_str());
    push_str(&mut out, " ");
    push_str(&mut out, wt.branch.as_str());
    push_str(&mut out, " ");
    push_str(&mut out, wt.path.as_str());
    push_str(&mut out, " ");
    push_str(&mut out, wt.parent.as_str());
    push_str(&mut out, " ");
    let flags = wt.flags();
    push_str(&mut out, flags.as_str());
    out
}

impl App {
    /// The indices of the rows that pass the filter, in order.
    pub fn visible(&self) -> (r: Vec<usize>)
        ensures
            r@.map_values(|k: usize| k as int) == visible_rows(self@),
            forall|i: int| 0 <= i < r@.len() ==> #[trigger] r@[i] < self.items@.len(),
    {
        let query: Vec<char> = chars_of(to_lowercase(self.filter.as_str()).as_str());
        let filter_empty = query.len() == 0;
        let mut r: Vec<usize> = Vec::new();
        let mut i: usize = 0;
        proof {
            assert(r@.map_values(|k: usize| k as int) =~= Seq::<int>::empty());
        }
        while i < self.items.len()
            invariant
                i <= self.items@.len(),
                filter_empty == (lowercase(self.filter@).len() == 0),
                query@ == lowercase(self.filter@),
                r@.map_values(|k: usize| k as int) == visible_upto(self@, i as int),
                forall|j: int| 0 <= j < r@.len() ==> #[trigger] r@[j] < i,
            decreases self.items@.len() - i,
        {
            let keep = if filter_empty {
                true
            } else {
                let blob = row_blob(&self.items[i]);
                let lower = chars_of(to_lowercase(blob.as_str()).as_str());
                contains_chars(&lower, &query)
            };
            assert(keep == passes(self@, i as int));
            let ghost before = r@;
            if keep {
                r.push(i);
                assert(r@.map_values(|k: usize| k as int) =~= before.map_values(|k: usize| k as int)
                    + seq![i as int]);
            } else {
                assert(before.map_values(|k: usize| k as int) + Seq::<int>::empty() =~= before.map_values(
                    |k: usize| k as int,
                ));
            }
            i = i + 1;
        }
        r
    }

    /// The path under the cursor.
    fn current_path(&self) -> (r: Option<String>)
        ensures
            match r {
                Some(p) => current_path(self@) == Some(p@),
                None => current_path(self@) is None,
            },
    {
        let vis = self.visible();
        if self.cursor < vis.len() {
            let idx = vis[self.cursor];
            assert(visible_rows(self@)[self.cursor as int] == idx as int);
            Some(self.items[idx].path.clone())
        } else {
            None
        }
    }

    /// Selects or unselects the row under the cursor.
    fn toggle_current(&mut self)
        requires
            old(self).well_formed(),
        ensures
            final(self).well_formed(),
            final(self)@ == toggle_current(old(self)@),
    {
        let path = match self.current_path() {
            None => {
                return;
            },
            Some(p) => p,
        };
        let deletable = match crate::remove::find_item(&self.items, &path) {
            Some(k) => self.items[k].deletable(),
            None => false,
        };
        if !deletable {
            self.status = owned("主检出只作参照，不会删除");
            return;
        }
        if sel_contains(&self.selected, &path) {
            sel_remove(&mut self.selected, &path);
        } else {
            sel_insert(&mut self.selected, path);
        }
    }

    /// Moves the cursor back onto the visible rows.
    fn clamp_cursor(&mut self)
        ensures
            final(self)@ == clamp(old(self)@),
            final(self).selected == old(self).selected,
    {
        let len = self.visible().len();
        if len == 0 {
            self.cursor = 0;
        } else if self.cursor >= len {
            self.cursor = len - 1;
        }
    }
}


impl App {
    /// The paths of the visible rows that may be deleted.
    fn deletable_visible(&self) -> (r: Vec<String>)
        ensures
            texts(r@) == deletable_visible(self@),
    {
        let vis = self.visible();
        let mut paths: Vec<String> = Vec::new();
        let mut j: usize = 0;
        proof {
            assert(texts(paths@) =~= Seq::<Seq<char>>::empty());
        }
        while j < vis.len()
            invariant
                j <= vis@.len(),
                vis@.map_values(|k: usize| k as int) == visible_rows(self@),
                forall|i: int| 0 <= i < vis@.len() ==> #[trigger] vis@[i] < self.items@.len(),
                texts(paths@) == deletable_visible_upto(self@, j as int),
            decreases vis@.len() - j,
        {
            let idx = vis[j];
            assert(visible_rows(self@)[j as int] == idx as int);
            let ghost before = paths@;
            if self.items[idx].deletable() {
                paths.push(self.items[idx].path.clone());
                assert(texts(paths@) =~= texts(before) + seq![self.items@[idx as int].path@]);
            } else {
                assert(texts(before) + Seq::<Seq<char>>::empty() =~= texts(before));
            }
            j = j + 1;
        }
        paths
    }

    /// Selects every deletable visible row, or unselects them all when all are selected.
    fn toggle_all_visible(&mut self)
        requires
            old(self).well_formed(),
        ensures
            final(self).well_formed(),
            final(self)@ == toggle_all(old(self)@),
    {
        let paths = self.deletable_visible();
        let ghost ps = texts(paths@);
        if paths.len() == 0 {
            self.status = owned("当前没有可删除的 worktree");
            return;
        }
        let ghost start = texts(self.selected@).to_set();
        let mut all_on = true;
        let mut k: usize = 0;
        while k < paths.len()
            invariant
                k <= paths@.len(),
                ps == texts(paths@),
                start == texts(self.selected@).to_set(),
                all_on == forall|j: int| 0 <= j < k ==> start.contains(#[trigger] ps[j]),
            decreases paths@.len() - k,
        {
            if !sel_contains(&self.selected, &paths[k]) {
                all_on = false;
            }
            proof {
                assert(ps[k as int] == paths@[k as int]@);
                assert(texts(self.selected@).contains(ps[k as int]) == start.contains(ps[k as int]));
            }
            k = k + 1;
        }
        proof {
            assert(all_on == ps.to_set().subset_of(start)) by {
                if all_on {
                    assert forall|x: Seq<char>| ps.to_set().contains(x) implies start.contains(x) by {
                        let j = choose|j: int| 0 <= j < ps.len() && ps[j] == x;
                    }
                } else {
                    let j = choose|j: int| 0 <= j < k && !start.contains(#[trigger] ps[j]);
                    assert(ps.to_set().contains(ps[j]));
                }
            }
        }
        let mut k: usize = 0;
        proof {
            assert(ps.take(0).to_set() =~= Set::<Seq<char>>::empty());
            assert(start.difference(Set::<Seq<char>>::empty()) =~= start);
            assert(start.union(Set::<Seq<char>>::empty()) =~= start);
        }
        while k < paths.len()
            invariant
                k <= paths@.len(),
                ps == texts(paths@),
                sorted_paths(self.selected@),
                all_on ==> texts(self.selected@).to_set() == start.difference(ps.take(k as int).to_set()),
                !all_on ==> texts(self.selected@).to_set() == start.union(ps.take(k as int).to_set()),
                self.items@ == old(self).items@,
                self.repos == old(self).repos,
                self.errors@ == old(self).errors@,
                self.roots_label@ == old(self).roots_label@,
                self.cursor == old(self).cursor,
                self.filter@ == old(self).filter@,
                self.filter_mode == old(self).filter_mode,
                self.confirm == old(self).confirm,
                self.clean_confirm == old(self).clean_confirm,
                self.scope == old(self).scope,
                self.status@ == old(self).status@,
                self.now == old(self).now,
            decreases paths@.len() - k,
        {
            proof {
                assert(ps.take(k + 1) == ps.take(k as int).push(ps[k as int]));
                ps.take(k as int).lemma_push_to_set_commute(ps[k as int]);
                assert(ps[k as int] == paths@[k as int]@);
            }
            if all_on {
                sel_remove(&mut self.selected, &paths[k]);
                assert(start.difference(ps.take(k + 1).to_set()) =~= start.difference(
                    ps.take(k as int).to_set(),
                ).remove(ps[k as int]));
            } else {
                sel_insert(&mut self.selected, paths[k].clone());
                assert(start.union(ps.take(k + 1).to_set()) =~= start.union(
                    ps.take(k as int).to_set(),
                ).insert(ps[k as int]));
            }
            k = k + 1;
        }
        assert(ps.take(paths@.len() as int) == ps);
    }

    /// Asks to confirm a deletion (or, when `cleaning`, a clean-up) of the
    /// selection, selecting the row under the cursor first when nothing is selected.
    fn arm(&mut self, cleaning: bool)
        requires
            old(self).well_formed(),
        ensures
            final(self).well_formed(),
            final(self)@ == arm(old(self)@, cleaning),
    {
        proof {
            texts(self.selected@).lemma_cardinality_of_set();
            lemma_empty_selection(self.selected@);
        }
        if self.selected.len() == 0 {
            self.toggle_current();
        }
        proof {
            lemma_empty_selection(self.selected@);
        }
        if self.selected.len() == 0 {
            self.status = if cleaning {
                owned("先选中要清理的 worktree")
            } else {
                owned("先选中要删除的 worktree")
            };
            return;
        }
        if cleaning {
            self.clean_confirm = true;
        } else {
            self.confirm = true;
        }
    }
}

/// A selection is empty exactly when its set of paths is.
proof fn lemma_empty_selection(s: Seq<String>)
    ensures
        (s.len() == 0) == (texts(s).to_set().len() == 0),
{
    texts(s).lemma_cardinality_of_set();
    if s.len() > 0 {
        assert(texts(s).to_set().contains(texts(s)[0]));
        vstd::seq_lib::seq_to_set_is_finite(texts(s));
        if texts(s).to_set().len() == 0 {
            texts(s).to_set().lemma_len0_is_empty();
        }
    } else {
        assert(texts(s).to_set() =~= Set::<Seq<char>>::empty());
    }
}

impl App {
    /// A key while the filter is being typed.
    fn on_filter_key(&mut self, code: KeyCode) -> (a: Action)
        requires
            old(self).well_formed(),
        ensures
            final(self).well_formed(),
            (final(self)@, a) == filter_key(old(self)@, code),
    {
        match code {
            KeyCode::Esc => {
                self.filter = String::new();
                self.filter_mode = false;
            },
            KeyCode::Enter => {
                self.filter_mode = false;
            },
            KeyCode::Backspace => {
                let v = chars_of(self.filter.as_str());
                if v.len() > 0 {
                    self.filter = crate::text::string_of_range(&v, 0, v.len() - 1);
                    assert(v@.subrange(0, v@.len() - 1) == v@.drop_last());
                }
            },
            KeyCode::Char(ch) => {
                push_char(&mut self.filter, ch);
            },
            _ => {},
        }
        Action::Continue
    }

    /// A key while a deletion waits for confirmation.
    fn on_confirm_key(&mut self, code: KeyCode) -> (a: Action)
        requires
            old(self).well_formed(),
        ensures
            final(self).well_formed(),
            (final(self)@, a) == confirm_key(old(self)@, code),
    {
        match code {
            KeyCode::Char('b') => {
                self.scope = self.scope.next();
                Action::Continue
            },
            KeyCode::Enter => {
                self.confirm = false;
                Action::Delete { force: false }
            },
            KeyCode::Char('f') | KeyCode::Char('F') => {
                self.confirm = false;
                Action::Delete { force: true }
            },
            KeyCode::Esc => {
                self.confirm = false;
                Action::Continue
            },
            KeyCode::Char('q') => Action::Quit,
            _ => Action::Continue,
        }
    }

    /// A key while a clean-up waits for confirmation.
    fn on_clean_key(&mut self, code: KeyCode) -> (a: Action)
        requires
            old(self).well_formed(),
        ensures
            final(self).well_formed(),
            (final(self)@, a) == clean_key(old(self)@, code),
    {
        match code {
            KeyCode::Enter => {
                self.clean_confirm = false;
                Action::Clean
            },
            KeyCode::Esc => {
                self.clean_confirm = false;
                Action::Continue
            },
            KeyCode::Char('q') => Action::Quit,
            _ => Action::Continue,
        }
    }

    /// A key while browsing the list.
    fn on_browse_key(&mut self, code: KeyCode) -> (a: Action)
        requires
            old(self).well_formed(),
        ensures
            final(self).well_formed(),
            (final(self)@, a) == browse_key(old(self)@, code),
    {
        match code {
            KeyCode::Char('q') | KeyCode::Esc => Action::Quit,
            KeyCode::Down | KeyCode::Char('j') => {
                self.cursor = self.cursor.saturating_add(1);
                Action::Continue
            },
            KeyCode::Up | KeyCode::Char('k') => {
                self.cursor = self.cursor.saturating_sub(1);
                Action::Continue
            },
            KeyCode::PageDown => {
                self.cursor = self.cursor.saturating_add(10);
                Action::Continue
            },
            KeyCode::PageUp => {
                self.cursor = self.cursor.saturating_sub(10);
                Action::Continue
            },
            KeyCode::Home | KeyCode::Char('g') => {
                self.cursor = 0;
                Action::Continue
            },
            KeyCode::End | KeyCode::Char('G') => {
                self.cursor = usize::MAX;
                Action::Continue
            },
            KeyCode::Char(' ') => {
                self.toggle_current();
                Action::Continue
            },
            KeyCode::Char('a') => {
                self.toggle_all_visible();
                Action::Continue
            },
            KeyCode::Char('/') => {
                self.filter_mode = true;
                Action::Continue
            },
            KeyCode::Char('r') => Action::Rescan,
            KeyCode::Char('d') => {
                self.arm(false);
                Action::Continue
            },
            KeyCode::Char('x') => {
                self.arm(true);
                Action::Continue
            },
            _ => Action::Continue,
        }
    }

    /// Handles one key: Control-C quits at once; otherwise the key goes to the
    /// filter, the pending confirmation or the list, and the cursor is kept on
    /// the visible rows.
    pub fn on_key(&mut self, code: KeyCode, mods: KeyModifiers) -> (a: Action)
        requires
            old(self).well_formed(),
        ensures
            final(self).well_formed(),
            (final(self)@, a) == key_step(old(self)@, code, mods),
    {
        if code == KeyCode::Char('c') && mods == KeyModifiers::CONTROL {
            return Action::Quit;
        }
        let action = if self.filter_mode {
            self.on_filter_key(code)
        } else if self.confirm {
            self.on_confirm_key(code)
        } else if self.clean_confirm {
            self.on_clean_key(code)
        } else {
            self.on_browse_key(code)
        };
        self.clamp_cursor();
        action
    }
}

/// The state with another status line.
pub open spec fn with_status(v: AppView, status: Seq<char>) -> AppView {
    AppView { status, ..v }
}

/// Whether some listed worktree at `p` may be deleted.
pub open spec fn listed_deletable(items: Seq<Worktree>, p: Seq<char>) -> bool {
    exists|k: int| 0 <= k < items.len() && same_place((#[trigger] items[k]).path@, p) && is_deletable(items[k])
}

/// The state after a new scan: its worktrees, counts and errors; the selection
/// kept only where a deletable worktree is still listed; no confirmation
/// pending; the clock read anew (`now`); the cursor back on the rows.
pub open spec fn after_scan(v: AppView, result: ScanResult, now: i64) -> AppView {
    clamp(
        AppView {
            items: result.worktrees@,
            repos: result.repos,
            errors: texts(result.errors@),
            selected: v.selected.filter(|p: Seq<char>| listed_deletable(result.worktrees@, p)),
            confirm: false,
            clean_confirm: false,
            now,
            ..v
        },
    )
}

/// Whether some worktree at `p` may be deleted.
fn has_deletable_at(items: &Vec<Worktree>, p: &String) -> (b: bool)
    ensures
        b == listed_deletable(items@, p@),
{
    let mut k: usize = 0;
    while k < items.len()
        invariant
            k <= items@.len(),
            forall|j: int|
                0 <= j < k ==> !(same_place((#[trigger] items@[j]).path@, p@) && is_deletable(items@[j])),
        decreases items@.len() - k,
    {
        if same_path(items[k].path.as_str(), p.as_str()) && items[k].deletable() {
            return true;
        }
        k = k + 1;
    }
    false
}

/// The selected paths that are still listed as deletable, in order.
fn retain_listed(sel: &Vec<String>, items: &Vec<Worktree>) -> (r: Vec<String>)
    requires
        sorted_paths(sel@),
    ensures
        sorted_paths(r@),
        texts(r@).to_set() == texts(sel@).to_set().filter(
            |p: Seq<char>| listed_deletable(items@, p),
        ),
{
    let ghost f = |p: Seq<char>| listed_deletable(items@, p);
    let mut r: Vec<String> = Vec::new();
    let mut i: usize = 0;
    proof {
        assert(texts(sel@).take(0).to_set() =~= Set::<Seq<char>>::empty());
        assert(texts(r@).to_set() =~= Set::<Seq<char>>::empty());
        assert(Set::<Seq<char>>::empty().filter(f) =~= Set::<Seq<char>>::empty());
    }
    while i < sel.len()
        invariant
            i <= sel@.len(),
            sorted_paths(sel@),
            f == (|p: Seq<char>| listed_deletable(items@, p)),
            texts(r@).to_set() == texts(sel@).take(i as int).to_set().filter(f),
            forall|j: int| 0 <= j < r@.len() ==> exists|q: int| 0 <= q < i && sel@[q] == #[trigger] r@[j],
            forall|a: int, b: int| 0 <= a < b < r@.len() ==> text_order(r@[a]@, r@[b]@, true) < 0,
        decreases sel@.len() - i,
    {
        let ghost before = r@;
        let keep = has_deletable_at(items, &sel[i]);
        proof {
            let t = texts(sel@);
            assert(t.take(i + 1) == t.take(i as int).push(t[i as int]));
            t.take(i as int).lemma_push_to_set_commute(t[i as int]);
        }
        if keep {
            r.push(sel[i].clone());
            proof {
                assert(texts(r@) == texts(before).push(sel@[i as int]@));
                texts(before).lemma_push_to_set_commute(sel@[i as int]@);
                assert(texts(sel@).take(i + 1).to_set().filter(f) =~= texts(sel@).take(
                    i as int,
                ).to_set().filter(f).insert(sel@[i as int]@));
                assert forall|a: int, b: int| 0 <= a < b < r@.len() implies text_order(
                    r@[a]@,
                    r@[b]@,
                    true,
                ) < 0 by {
                    if b == r@.len() - 1 {
                        let q = choose|q: int| 0 <= q < i && sel@[q] == #[trigger] before[a];
                        assert(r@[a] == before[a]);
                    }
                }
                assert forall|j: int| 0 <= j < r@.len() implies exists|q: int|
                    0 <= q < i + 1 && sel@[q] == #[trigger] r@[j] by {
                    if j < before.len() {
                        let q = choose|q: int| 0 <= q < i && sel@[q] == #[trigger] before[j];
                        assert(r@[j] == before[j]);
                    } else {
                        assert(sel@[i as int] == r@[j]);
                    }
                }
            }
        } else {
            proof {
                assert(texts(sel@).take(i + 1).to_set().filter(f) =~= texts(sel@).take(
                    i as int,
                ).to_set().filter(f));
            }
        }
        i = i + 1;
    }
    assert(texts(sel@).take(sel@.len() as int) == texts(sel@));
    r
}

/// The text of a count, such as `3`.
pub open spec fn count_text(n: nat) -> Seq<char> {
    dec(n)
}

impl App {
    /// Takes in a new scan.
    pub fn apply_scan(&mut self, result: ScanResult)
        requires
            old(self).well_formed(),
        ensures
            final(self).well_formed(),
            final(self)@ == after_scan(old(self)@, result, final(self).now),
    {
        let ghost v = self@;
        let ghost res = result;
        self.repos = result.repos;
        self.errors = result.errors;
        self.items = result.worktrees;
        self.selected = retain_listed(&self.selected, &self.items);
        self.confirm = false;
        self.clean_confirm = false;
        self.now = now_unix();
        self.clamp_cursor();
    }

    /// The interface state for a first scan of the roots named `roots_label`:
    /// nothing selected, no filter, nothing to confirm, branches kept on
    /// deletion, and a status that gives the number of read errors and the
    /// first, or else the roots being scanned.
    pub fn from_scan(result: ScanResult, roots_label: String) -> (app: App)
        ensures
            app.well_formed(),
            app@.items == result.worktrees@,
            app@.repos == result.repos,
            app@.errors == texts(result.errors@),
            app@.roots_label == roots_label@,
            app@.cursor == 0,
            app@.selected.len() == 0,
            app@.filter.len() == 0,
            !app@.filter_mode,
            !app@.confirm,
            !app@.clean_confirm,
            app@.scope == BranchScope::Keep,
            app@.status == if result.errors@.len() > 0 {
                count_text(result.errors@.len()) + " 个读取错误。"@ + result.errors@[0]@
            } else {
                "扫描 "@ + roots_label@
            },
    {
        let mut status = String::new();
        if result.errors.len() > 0 {
            push_decimal(&mut status, result.errors.len() as u64);
            push_str(&mut status, " 个读取错误。");
            push_str(&mut status, result.errors[0].as_str());
        } else {
            push_str(&mut status, "扫描 ");
            push_str(&mut status, roots_label.as_str());
        }
        let mut app = App {
            items: Vec::new(),
            repos: 0,
            errors: Vec::new(),
            roots_label,
            cursor: 0,
            selected: Vec::new(),
            filter: String::new(),
            filter_mode: false,
            confirm: false,
            clean_confirm: false,
            scope: BranchScope::Keep,
            status: String::new(),
            now: now_unix(),
        };
        proof {
            assert(texts(app.selected@).to_set() =~= Set::<Seq<char>>::empty());
        }
        app.apply_scan(result);
        app.status = status;
        proof {
            assert(Set::<Seq<char>>::empty().filter(
                |p: Seq<char>| listed_deletable(result.worktrees@, p),
            ) =~= Set::<Seq<char>>::empty());
        }
        app
    }

    /// Before a rescan: says that one is running.
    pub fn begin_rescan(&mut self)
        ensures
            final(self)@ == with_status(old(self)@, "正在重新扫描…"@),
            final(self).selected == old(self).selected,
    {
        self.status = owned("正在重新扫描…");
    }

    /// After a rescan: takes in the scan and says how many worktrees it lists.
    pub fn finish_rescan(&mut self, result: ScanResult)
        requires
            old(self).well_formed(),
        ensures
            final(self).well_formed(),
            final(self)@ == with_status(
                after_scan(old(self)@, result, final(self).now),
                "已刷新，"@ + count_text(result.worktrees@.len()) + " 个 worktree"@,
            ),
    {
        let n = result.worktrees.len();
        self.apply_scan(result);
        let mut status = String::new();
        push_str(&mut status, "已刷新，");
        push_decimal(&mut status, n as u64);
        push_str(&mut status, " 个 worktree");
        self.status = status;
    }

    /// The selected paths to delete, in path order.
    pub fn delete_paths(&self) -> (r: Vec<String>)
        ensures
            r@ == self.selected@,
    {
        let mut r: Vec<String> = Vec::new();
        let mut i: usize = 0;
        while i < self.selected.len()
            invariant
                i <= self.selected@.len(),
                r@ == self.selected@.take(i as int),
            decreases self.selected@.len() - i,
        {
            r.push(self.selected[i].clone());
            assert(r@ == self.selected@.take(i + 1));
            i = i + 1;
        }
        assert(self.selected@.take(self.selected@.len() as int) == self.selected@);
        r
    }

    /// Before a deletion: says that one is running.
    pub fn begin_delete(&mut self)
        ensures
            final(self)@ == with_status(old(self)@, "正在删除…"@),
            final(self).selected == old(self).selected,
    {
        self.status = owned("正在删除…");
    }

    /// Before a clean-up: says that one is running.
    pub fn begin_clean(&mut self)
        ensures
            final(self)@ == with_status(old(self)@, "正在清理…"@),
            final(self).selected == old(self).selected,
    {
        self.status = owned("正在清理…");
    }

    /// After a deletion or a clean-up: takes in the new scan and shows the
    /// message of what was done.
    pub fn finish_removal(&mut self, result: ScanResult, message: String)
        requires
            old(self).well_formed(),
        ensures
            final(self).well_formed(),
            final(self)@ == with_status(after_scan(old(self)@, result, final(self).now), message@),
    {
        self.apply_scan(result);
        self.status = message;
    }
}

/// What every state of the interface keeps: each selected path is that of a
/// deletable listed worktree (the main checkout is never selected), and the
/// cursor stands on a visible row, or at 0 when no row is visible.
pub open spec fn consistent(v: AppView) -> bool {
    &&& forall|p: Seq<char>| v.selected.contains(p) ==> listed_deletable(v.items, p)
    &&& visible_rows(v).len() == 0 ==> v.cursor == 0
    &&& visible_rows(v).len() > 0 ==> 0 <= v.cursor < visible_rows(v).len()
}

proof fn lemma_visible_upto(v: AppView, n: int)
    requires
        0 <= n <= v.items.len(),
    ensures
        forall|i: int| 0 <= i < visible_upto(v, n).len() ==> 0 <= #[trigger] visible_upto(v, n)[i] < n,
    decreases n,
{
    if n > 0 {
        lemma_visible_upto(v, n - 1);
        let prev = visible_upto(v, n - 1);
        assert forall|i: int| 0 <= i < visible_upto(v, n).len() implies 0 <= #[trigger] visible_upto(v, n)[i] < n by {
            if i < prev.len() {
                assert(visible_upto(v, n)[i] == prev[i]);
            }
        }
    }
}

proof fn lemma_deletable_visible(v: AppView, n: int)
    requires
        0 <= n <= visible_rows(v).len(),
    ensures
        forall|p: Seq<char>| deletable_visible_upto(v, n).contains(p) ==> listed_deletable(v.items, p),
    decreases n,
{
    if n > 0 {
        lemma_deletable_visible(v, n - 1);
        lemma_visible_upto(v, v.items.len() as int);
        let idx = visible_rows(v)[n - 1];
        let prev = deletable_visible_upto(v, n - 1);
        assert forall|p: Seq<char>| deletable_visible_upto(v, n).contains(p) implies listed_deletable(v.items, p) by {
            let j = choose|j: int| 0 <= j < deletable_visible_upto(v, n).len() && deletable_visible_upto(v, n)[j] == p;
            if j < prev.len() {
                assert(prev[j] == p);
                assert(prev.contains(p));
            } else {
                assert(v.items[idx].path@ == p && is_deletable(v.items[idx]));
            }
        }
    }
}

proof fn lemma_clamp_keeps(v: AppView)
    ensures
        clamp(v).selected == v.selected,
        clamp(v).confirm == v.confirm,
        clamp(v).clean_confirm == v.clean_confirm,
        clamp(v).items == v.items,
{
}

proof fn lemma_clamp(v: AppView)
    requires
        v.cursor >= 0,
    ensures
        clamp(v).selected == v.selected,
        clamp(v).items == v.items,
        visible_rows(clamp(v)) == visible_rows(v),
        visible_rows(v).len() == 0 ==> clamp(v).cursor == 0,
        visible_rows(v).len() > 0 ==> 0 <= clamp(v).cursor < visible_rows(v).len(),
{
    let w = clamp(v);
    assert(visible_rows(w) == visible_rows(v)) by {
        lemma_same_rows(v, w, v.items.len() as int);
    }
}

proof fn lemma_same_rows(v: AppView, w: AppView, n: int)
    requires
        v.items == w.items,
        v.filter == w.filter,
    ensures
        visible_upto(v, n) == visible_upto(w, n),
    decreases n,
{
    if n > 0 {
        lemma_same_rows(v, w, n - 1);
    }
}

proof fn lemma_toggle_current(v: AppView)
    requires
        forall|p: Seq<char>| v.selected.contains(p) ==> listed_deletable(v.items, p),
    ensures
        forall|p: Seq<char>| toggle_current(v).selected.contains(p) ==> listed_deletable(toggle_current(v).items, p),
        toggle_current(v).items == v.items,
        toggle_current(v).filter == v.filter,
        toggle_current(v).cursor == v.cursor,
{
    let cp = current_path(v);
    if cp is Some {
        let p = cp->0;
        crate::remove::lemma_first_at_found(v.items, p);
        if first_deletable(v.items, p) {
            let k = crate::remove::first_at(v.items, p)->0;
            assert(same_place(v.items[k].path@, p) && is_deletable(v.items[k]));
            assert(listed_deletable(v.items, p));
        }
    }
}

/// Whether every selected path is that of a deletable listed worktree.
pub open spec fn selection_listed(v: AppView) -> bool {
    forall|p: Seq<char>| v.selected.contains(p) ==> listed_deletable(v.items, p)
}

/// No key changes the listed worktrees, and none selects what may not be
/// deleted: when each selected path is that of a deletable listed worktree
/// (the main checkout and bare repositories never are), so it is after any key.
pub proof fn lemma_key_keeps_selection(v: AppView, code: KeyCode, mods: KeyModifiers)
    requires
        selection_listed(v),
    ensures
        key_step(v, code, mods).0.items == v.items,
        selection_listed(key_step(v, code, mods).0),
{
    if code == KeyCode::Char('c') && mods == KeyModifiers::CONTROL {
        return;
    }
    let w = if v.filter_mode {
        filter_key(v, code).0
    } else if v.confirm {
        confirm_key(v, code).0
    } else if v.clean_confirm {
        clean_key(v, code).0
    } else {
        browse_key(v, code).0
    };
    lemma_toggle_current(v);
    if !v.filter_mode && !v.confirm && !v.clean_confirm {
        if code == KeyCode::Char('a') {
            let paths = deletable_visible(v);
            lemma_deletable_visible(v, visible_rows(v).len() as int);
            assert forall|p: Seq<char>| w.selected.contains(p) implies listed_deletable(w.items, p) by {
                if paths.to_set().contains(p) {
                    assert(paths.contains(p));
                }
            }
        }
    }
    assert(selection_listed(w));
    lemma_clamp_keeps(w);
}

/// Every key keeps the interface consistent: the main checkout never becomes
/// selected, and the cursor stays on the visible rows.
pub proof fn lemma_key_keeps_consistent(v: AppView, code: KeyCode, mods: KeyModifiers)
    requires
        consistent(v),
    ensures
        consistent(key_step(v, code, mods).0),
{
    lemma_key_keeps_selection(v, code, mods);
    if code == KeyCode::Char('c') && mods == KeyModifiers::CONTROL {
        return;
    }
    let w = if v.filter_mode {
        filter_key(v, code).0
    } else if v.confirm {
        confirm_key(v, code).0
    } else if v.clean_confirm {
        clean_key(v, code).0
    } else {
        browse_key(v, code).0
    };
    lemma_toggle_current(v);
    assert(w.cursor >= 0);
    lemma_clamp(w);
}

/// A new scan leaves the interface consistent, whatever it finds.
pub proof fn lemma_scan_keeps_consistent(v: AppView, result: ScanResult, now: i64)
    requires
        v.cursor >= 0,
    ensures
        consistent(after_scan(v, result, now)),
{
    let w = AppView {
        items: result.worktrees@,
        repos: result.repos,
        errors: texts(result.errors@),
        selected: v.selected.filter(|p: Seq<char>| listed_deletable(result.worktrees@, p)),
        confirm: false,
        clean_confirm: false,
        now,
        ..v
    };
    lemma_clamp(w);
}

/// Only a pending confirmation deletes or cleans: a key answers `Delete` only
/// when a deletion was waiting for confirmation, and `Clean` only when a
/// clean-up was, the filter not being typed; and either confirmation becomes
/// pending only with something selected.
pub proof fn lemma_delete_needs_confirmation(v: AppView, code: KeyCode, mods: KeyModifiers)
    ensures
        key_step(v, code, mods).1 is Delete ==> v.confirm && !v.filter_mode,
        key_step(v, code, mods).1 is Clean ==> v.clean_confirm && !v.confirm && !v.filter_mode,
        key_step(v, code, mods).0.confirm && !v.confirm ==> key_step(v, code, mods).0.selected.len() > 0,
        key_step(v, code, mods).0.clean_confirm && !v.clean_confirm ==> key_step(v, code, mods).0.selected.len() > 0,
{
    let w = key_step(v, code, mods).0;
    if !(code == KeyCode::Char('c') && mods == KeyModifiers::CONTROL) && !v.filter_mode && !v.confirm
        && !v.clean_confirm {
        let b = browse_key(v, code).0;
        lemma_clamp_keeps(b);
    }
}

/// Space pressed twice on a deletable row gives back the same state: the
/// first press selects or unselects the row, the second undoes it.
pub proof fn lemma_space_twice(v: AppView)
    requires
        consistent(v),
        !v.filter_mode,
        !v.confirm,
        !v.clean_confirm,
        current_path(v) is Some,
        first_deletable(v.items, current_path(v)->0),
    ensures
        key_step(key_step(v, KeyCode::Char(' '), KeyModifiers::NONE).0, KeyCode::Char(' '), KeyModifiers::NONE).0 == v,
{
    let p = current_path(v)->0;
    let w = toggle_current(v);
    lemma_clamp(v);
    assert(clamp(v) == v);
    lemma_same_rows(v, w, v.items.len() as int);
    lemma_clamp(w);
    assert(clamp(w) == w);
    assert(current_path(w) == Some(p));
    let u = toggle_current(w);
    if v.selected.contains(p) {
        assert(u.selected =~= v.selected);
    } else {
        assert(u.selected =~= v.selected);
    }
    lemma_same_rows(v, u, v.items.len() as int);
    lemma_clamp(u);
    assert(u == v);
}

/// `a` pressed twice, when no deletable visible row was selected and there is
/// one, gives back the same state: the first press selects them all, the
/// second unselects them all.
pub proof fn lemma_select_all_twice(v: AppView)
    requires
        consistent(v),
        !v.filter_mode,
        !v.confirm,
        !v.clean_confirm,
        deletable_visible(v).len() > 0,
        deletable_visible(v).to_set().disjoint(v.selected),
    ensures
        key_step(key_step(v, KeyCode::Char('a'), KeyModifiers::NONE).0, KeyCode::Char('a'), KeyModifiers::NONE).0 == v,
{
    let paths = deletable_visible(v);
    let w = toggle_all(v);
    assert(!paths.to_set().subset_of(v.selected)) by {
        assert(paths.to_set().contains(paths[0]));
    }
    assert(w.selected == v.selected.union(paths.to_set()));
    lemma_clamp(v);
    lemma_same_rows(v, w, v.items.len() as int);
    lemma_clamp(w);
    assert(clamp(w) == w);
    assert(visible_rows(w) == visible_rows(v));
    assert(deletable_visible(w) == paths) by {
        lemma_same_deletable(v, w, visible_rows(v).len() as int);
    }
    let u = toggle_all(w);
    assert(paths.to_set().subset_of(w.selected));
    assert(u.selected =~= v.selected);
    lemma_same_rows(v, u, v.items.len() as int);
    lemma_clamp(u);
    assert(u == v);
}

proof fn lemma_same_deletable(v: AppView, w: AppView, n: int)
    requires
        v.items == w.items,
        v.filter == w.filter,
        0 <= n <= visible_rows(v).len(),
    ensures
        deletable_visible_upto(v, n) == deletable_visible_upto(w, n),
    decreases n,
{
    lemma_same_rows(v, w, v.items.len() as int);
    if n > 0 {
        lemma_same_deletable(v, w, n - 1);
    }
}

/// How a row is coloured.
#[derive(Debug, Clone, Copy, PartialEq, Eq, Structural)]
pub enum RowTone {
    /// The main checkout or a bare repository: grey.
    Dim,
    /// Missing, dirty or locked: yellow.
    Warn,
    /// Idle two weeks or more, or of unknown activity: red.
    Stale,
    /// Anything else: the default colour.
    Plain,
}

/// The tone of a row at time `now`.
pub open spec fn tone_of(wt: Worktree, now: i64) -> RowTone {
    if wt.main || wt.bare {
        RowTone::Dim
    } else if wt.missing || wt.dirty == Some(true) || wt.locked {
        RowTone::Warn
    } else {
        match wt.last_active {
            Some(ts) => if sat_diff(now as int, ts as int) >= 86400 * 14 {
                RowTone::Stale
            } else {
                RowTone::Plain
            },
            None => RowTone::Stale,
        }
    }
}

/// How to colour a row at time `now`.
pub fn row_tone(wt: &Worktree, now: i64) -> (t: RowTone)
    ensures
        t == tone_of(*wt, now),
{
    if wt.main || wt.bare {
        return RowTone::Dim;
    }
    if wt.missing || wt.dirty == Some(true) || wt.locked {
        return RowTone::Warn;
    }
    match wt.last_active {
        Some(ts) => {
            let d: i128 = now as i128 - ts as i128;
            let d: i128 = if d > i64::MAX as i128 {
                i64::MAX as i128
            } else if d < i64::MIN as i128 {
                i64::MIN as i128
            } else {
                d
            };
            if d >= 86_400 * 14 {
                RowTone::Stale
            } else {
                RowTone::Plain
            }
        },
        None => RowTone::Stale,
    }
}

/// The mark in front of a row: a dot when selected, a blank when it may be
/// deleted, a middle dot when it may not.
pub open spec fn mark_of(v: AppView, wt: Worktree) -> Seq<char> {
    if v.selected.contains(wt.path@) {
        "●"@
    } else if is_deletable(wt) {
        " "@
    } else {
        "·"@
    }
}

/// The home directory as an optional text.
pub open spec fn home_view(home: Option<String>) -> Option<Seq<char>> {
    match home {
        Some(h) => Some(h@),
        None => None,
    }
}

/// The cells of a row: mark, age, repository, branch, folder, flags and path,
/// the paths written with `~` for the home directory.
pub open spec fn cells_of(v: AppView, wt: Worktree, home: Option<Seq<char>>) -> Seq<Seq<char>> {
    seq![
        mark_of(v, wt),
        age_label_text(wt.last_active, v.now),
        wt.repo@,
        wt.branch@,
        shortened(wt.parent@, home),
        flags_text(wt),
        shortened(wt.path@, home),
    ]
}

/// The number of visible rows, the selected paths and the shown count.
pub open spec fn title_text(app: App) -> Seq<char> {
    let shown = if app.filter@.len() == 0 {
        count_text(app.items@.len()) + " 个"@
    } else {
        count_text(visible_rows(app@).len()) + "/"@ + count_text(app.items@.len())
    };
    " wtrm  "@ + shown + " worktree · 已选 "@ + count_text(app.selected@.len()) + " · "@
        + count_text(app.repos as nat) + " 个仓库 "@
}

/// The text of one line of the confirmation list.
pub open spec fn chosen_line(wt: Worktree, home: Option<Seq<char>>) -> Seq<char> {
    "  "@ + flags_text(wt) + "  "@ + wt.branch@ + "  "@ + shortened(wt.path@, home)
}

/// The worktrees a confirmation lists: for each selected path, in order, the
/// first worktree at it.
pub open spec fn chosen(items: Seq<Worktree>, sel: Seq<Seq<char>>) -> Seq<int> {
    crate::remove::targets(items, sel)
}

impl App {
    /// The title of the table.
    pub fn title(&self) -> (s: String)
        ensures
            s@ == title_text(*self),
    {
        let mut out = String::new();
        push_str(&mut out, " wtrm  ");
        if self.filter.as_str().is_empty() {
            push_decimal(&mut out, self.items.len() as u64);
            push_str(&mut out, " 个");
        } else {
            let vis = self.visible();
            assert(vis@.len() == visible_rows(self@).len()) by {
                assert(vis@.map_values(|k: usize| k as int).len() == vis@.len());
            }
            push_decimal(&mut out, vis.len() as u64);
            push_str(&mut out, "/");
            push_decimal(&mut out, self.items.len() as u64);
        }
        push_str(&mut out, " worktree · 已选 ");
        push_decimal(&mut out, self.selected.len() as u64);
        push_str(&mut out, " · ");
        push_decimal(&mut out, self.repos as u64);
        push_str(&mut out, " 个仓库 ");
        out
    }

    /// The cells of row `idx`.
    pub fn row_cells(&self, idx: usize, home: &Option<String>) -> (r: Vec<String>)
        requires
            idx < self.items@.len(),
        ensures
            texts(r@) == cells_of(self@, self.items@[idx as int], home_view(*home)),
    {
        let wt = &self.items[idx];
        let mark = if sel_contains(&self.selected, &wt.path) {
            "●"
        } else if wt.deletable() {
            " "
        } else {
            "·"
        };
        let mut r: Vec<String> = Vec::new();
        r.push(owned(mark));
        r.push(age_label(wt.last_active, self.now));
        r.push(wt.repo.clone());
        r.push(wt.branch.clone());
        r.push(shorten_path(wt.parent.as_str(), clone_home(home)));
        r.push(wt.flags());
        r.push(shorten_path(wt.path.as_str(), clone_home(home)));
        assert(texts(r@) =~= cells_of(self@, self.items@[idx as int], home_view(*home)));
        r
    }

    /// The row the table highlights: the cursor's, kept on the visible rows.
    pub fn highlighted_row(&self) -> (r: Option<usize>)
        ensures
            visible_rows(self@).len() == 0 ==> r is None,
            visible_rows(self@).len() > 0 ==> r == Some(
                if (self.cursor as int) < visible_rows(self@).len() {
                    self.cursor
                } else {
                    (visible_rows(self@).len() - 1) as usize
                },
            ),
    {
        let vis = self.visible();
        assert(vis@.len() == visible_rows(self@).len()) by {
            assert(vis@.map_values(|k: usize| k as int).len() == vis@.len());
        }
        if vis.len() == 0 {
            None
        } else if self.cursor < vis.len() {
            Some(self.cursor)
        } else {
            Some(vis.len() - 1)
        }
    }

    /// The height of the footer: taller while confirming.
    pub fn footer_height(&self) -> (h: u16)
        ensures
            h == if self.confirm || self.clean_confirm {
                12u16
            } else {
                6u16
            },
    {
        if self.confirm || self.clean_confirm {
            12
        } else {
            6
        }
    }

    /// The title of the footer.
    pub fn footer_title(&self) -> (s: &'static str)
        ensures
            s@ == if self.confirm {
                " 确认删除 "@
            } else if self.clean_confirm {
                " 确认清理 "@
            } else if self.filter_mode {
                " 过滤 "@
            } else {
                " 说明 "@
            },
    {
        if self.confirm {
            " 确认删除 "
        } else if self.clean_confirm {
            " 确认清理 "
        } else if self.filter_mode {
            " 过滤 "
        } else {
            " 说明 "
        }
    }

    /// The lines of the footer while browsing: the row under the cursor (or a
    /// note that nothing was found), a legend, the filter and status, and the keys.
    pub fn browse_lines(&self, home: &Option<String>) -> (r: Vec<String>)
        ensures
            texts(r@) == seq![
                match current_row(self@) {
                    Some(i) => {
                        let wt = self.items@[i];
                        shortened(wt.path@, home_view(*home)) + "  ·  "@ + wt.branch@
                            + "  ·  活跃 "@ + match wt.last_active_utc {
                            Some(u) => u@,
                            None => "未知"@,
                        } + "  ·  "@ + flags_text(wt)
                    },
                    None => "没有发现带附加 worktree 的仓库"@,
                },
                "活跃 = 最近提交、index、目录修改时间中的最新值。主检出不可删除。"@,
                (if self.filter@.len() == 0 {
                    Seq::<char>::empty()
                } else {
                    "过滤: "@ + self.filter@ + "  "@
                }) + self.status@,
                "j/k 移动   space 多选   a 全选可删   d 删除   x 清理依赖   / 过滤   r 刷新   q 退出"@,
            ],
    {
        let vis = self.visible();
        let detail = if self.cursor < vis.len() {
            let idx = vis[self.cursor];
            assert(visible_rows(self@)[self.cursor as int] == idx as int);
            let wt = &self.items[idx];
            let mut d = shorten_path(wt.path.as_str(), clone_home(home));
            push_str(&mut d, "  ·  ");
            push_str(&mut d, wt.branch.as_str());
            push_str(&mut d, "  ·  活跃 ");
            match &wt.last_active_utc {
                Some(u) => push_str(&mut d, u.as_str()),
                None => push_str(&mut d, "未知"),
            }
            push_str(&mut d, "  ·  ");
            let flags = wt.flags();
            push_str(&mut d, flags.as_str());
            d
        } else {
            assert(vis@.len() == visible_rows(self@).len()) by {
                assert(vis@.map_values(|k: usize| k as int).len() == vis@.len());
            }
            owned("没有发现带附加 worktree 的仓库")
        };
        let mut status = String::new();
        if !self.filter.as_str().is_empty() {
            push_str(&mut status, "过滤: ");
            push_str(&mut status, self.filter.as_str());
            push_str(&mut status, "  ");
        }
        push_str(&mut status, self.status.as_str());
        let mut r: Vec<String> = Vec::new();
        r.push(detail);
        r.push(owned("活跃 = 最近提交、index、目录修改时间中的最新值。主检出不可删除。"));
        r.push(status);
        r.push(owned("j/k 移动   space 多选   a 全选可删   d 删除   x 清理依赖   / 过滤   r 刷新   q 退出"));
        assert(texts(r@) =~= seq![r@[0]@, r@[1]@, r@[2]@, r@[3]@]);
        r
    }

    /// The selected worktrees as a confirmation lists them: up to six, then
    /// how many more.
    fn chosen_lines(&self, home: &Option<String>) -> (r: Vec<String>)
        ensures
            texts(r@) == chosen_texts(self.items@, texts(self.selected@), home_view(*home)),
    {
        let picks = crate::remove::delete_targets(&self.items, &self.selected);
        let ghost ch = chosen(self.items@, texts(self.selected@));
        assert(picks@.map_values(|k: usize| k as int) == ch);
        assert(picks@.len() == ch.len()) by {
            assert(picks@.map_values(|k: usize| k as int).len() == picks@.len());
        }
        let ghost shown = Seq::new(
            if ch.len() > 6 {
                6nat
            } else {
                ch.len()
            },
            |i: int| chosen_line(self.items@[ch[i]], home_view(*home)),
        );
        let mut r: Vec<String> = Vec::new();
        let n: usize = if picks.len() > 6 {
            6
        } else {
            picks.len()
        };
        let mut i: usize = 0;
        while i < n
            invariant
                i <= n <= picks@.len(),
                n == shown.len(),
                picks@.len() == ch.len(),
                picks@.map_values(|k: usize| k as int) == ch,
                forall|j: int| 0 <= j < picks@.len() ==> #[trigger] picks@[j] < self.items@.len(),
                shown == Seq::new(
                    n as nat,
                    |i: int| chosen_line(self.items@[ch[i]], home_view(*home)),
                ),
                texts(r@) == shown.take(i as int),
            decreases n - i,
        {
            let wt = &self.items[picks[i]];
            assert(ch[i as int] == picks@[i as int] as int);
            let mut line = String::new();
            push_str(&mut line, "  ");
            let flags = wt.flags();
            push_str(&mut line, flags.as_str());
            push_str(&mut line, "  ");
            push_str(&mut line, wt.branch.as_str());
            push_str(&mut line, "  ");
            let short = shorten_path(wt.path.as_str(), clone_home(home));
            push_str(&mut line, short.as_str());
            let ghost before = r@;
            r.push(line);
            assert(texts(r@) =~= texts(before).push(line@));
            assert(shown.take(i + 1) =~= shown.take(i as int).push(shown[i as int]));
            i = i + 1;
        }
        assert(shown.take(n as int) =~= shown);
        if picks.len() > 6 {
            let mut more = String::new();
            push_str(&mut more, "  …还有 ");
            push_decimal(&mut more, (picks.len() - 6) as u64);
            push_str(&mut more, " 个");
            let ghost before = r@;
            r.push(more);
            assert(texts(r@) =~= texts(before).push(more@));
        } else {
            assert(shown + Seq::<Seq<char>>::empty() =~= shown);
        }
        r
    }

    /// The lines of the footer while a deletion waits for confirmation: how
    /// many worktrees, then the worktrees, then what becomes of their branches.
    pub fn confirm_lines(&self, home: &Option<String>) -> (r: Vec<String>)
        ensures
            texts(r@) == seq![
                "将删除 "@ + count_text(chosen(self.items@, texts(self.selected@)).len())
                    + " 个 worktree。Enter 只删干净的，f 连同脏/锁定的一起强制删除，Esc 取消。"@,
            ] + chosen_texts(self.items@, texts(self.selected@), home_view(*home)) + seq![
                scope_line(self.scope),
            ],
    {
        let mut head = String::new();
        push_str(&mut head, "将删除 ");
        let count = self.chosen_count();
        push_decimal(&mut head, count as u64);
        push_str(
            &mut head,
            " 个 worktree。Enter 只删干净的，f 连同脏/锁定的一起强制删除，Esc 取消。",
        );
        let mut r: Vec<String> = Vec::new();
        r.push(head);
        let rest = self.chosen_lines(home);
        let ghost start = texts(r@);
        r = join_lines(r, rest);
        let mut last = String::new();
        push_str(&mut last, "  分支：");
        push_str(&mut last, self.scope.label());
        push_str(&mut last, "（b 切换 keep / local / local+GitHub）");
        let ghost before = r@;
        r.push(last);
        assert(texts(r@) =~= texts(before).push(last@));
        r
    }

    /// The lines of the footer while a clean-up waits for confirmation: how
    /// many worktrees, then the worktrees.
    pub fn clean_lines(&self, home: &Option<String>) -> (r: Vec<String>)
        ensures
            texts(r@) == seq![
                "将清理 "@ + count_text(chosen(self.items@, texts(self.selected@)).len())
                    + " 个 worktree 里的依赖目录，worktree 本身保留。Enter 确认，Esc 取消。"@,
            ] + chosen_texts(self.items@, texts(self.selected@), home_view(*home)),
    {
        let mut head = String::new();
        push_str(&mut head, "将清理 ");
        let count = self.chosen_count();
        push_decimal(&mut head, count as u64);
        push_str(&mut head, " 个 worktree 里的依赖目录，worktree 本身保留。Enter 确认，Esc 取消。");
        let mut r: Vec<String> = Vec::new();
        r.push(head);
        let rest = self.chosen_lines(home);
        join_lines(r, rest)
    }

    /// How many worktrees a confirmation lists.
    fn chosen_count(&self) -> (n: usize)
        ensures
            n == chosen(self.items@, texts(self.selected@)).len(),
    {
        let picks = crate::remove::delete_targets(&self.items, &self.selected);
        assert(picks@.map_values(|k: usize| k as int).len() == picks@.len());
        picks.len()
    }
}

/// `a` followed by `b`.
fn join_lines(a: Vec<String>, b: Vec<String>) -> (r: Vec<String>)
    ensures
        texts(r@) == texts(a@) + texts(b@),
{
    let mut r = a;
    let mut i: usize = 0;
    let ghost start = texts(r@);
    while i < b.len()
        invariant
            i <= b@.len(),
            texts(r@) == start + texts(b@).take(i as int),
        decreases b@.len() - i,
    {
        let ghost before = r@;
        r.push(b[i].clone());
        assert(texts(r@) =~= texts(before).push(b@[i as int]@));
        assert(texts(b@).take(i + 1) =~= texts(b@).take(i as int).push(b@[i as int]@));
        assert(start + texts(b@).take(i + 1) =~= (start + texts(b@).take(i as int)).push(b@[i as int]@));
        i = i + 1;
    }
    assert(texts(b@).take(b@.len() as int) =~= texts(b@));
    r
}

/// The lines listing the selected worktrees in a confirmation: up to six,
/// then how many more.
pub open spec fn chosen_texts(items: Seq<Worktree>, sel: Seq<Seq<char>>, home: Option<Seq<char>>) -> Seq<Seq<char>> {
    let ch = chosen(items, sel);
    Seq::new(
        if ch.len() > 6 {
            6nat
        } else {
            ch.len()
        },
        |i: int| chosen_line(items[ch[i]], home),
    ) + if ch.len() > 6 {
        seq!["  …还有 "@ + count_text((ch.len() - 6) as nat) + " 个"@]
    } else {
        Seq::<Seq<char>>::empty()
    }
}

/// The line naming the branch scope of a deletion, and the key that changes it.
pub open spec fn scope_line(scope: BranchScope) -> Seq<char> {
    "  分支："@ + scope_label(scope) + "（b 切换 keep / local / local+GitHub）"@
}

/// The visible row under the cursor, if any.
pub open spec fn current_row(v: AppView) -> Option<int> {
    let vis = visible_rows(v);
    if 0 <= v.cursor < vis.len() {
        Some(vis[v.cursor])
    } else {
        None
    }
}

/// A copy of the home directory.
fn clone_home(home: &Option<String>) -> (r: Option<String>)
    ensures
        home_view(r) == home_view(*home),
{
    match home {
        Some(h) => Some(h.clone()),
        None => None,
    }
}
} // verus!
