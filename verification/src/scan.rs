use vstd::prelude::*;

use crate::order::{compare_chars, lemma_text_order_antisym, lemma_text_order_trans, text_order};
use crate::paths::{Entry, file_name, join_path, path_key, same_path, same_place, parent_path, path_file_name, path_join, path_parent};
use crate::timeutil::{format_utc, utc_text};
use crate::text::{chars_of, i64_value, lines, parse_i64, push_range, string_of, trim, trim_bounds, push_str, same_chars, split_lines, starts_with, starts_with_chars, string_of_range};

verus! {

/// One worktree of a repository, as the scan found it. Paths are kept as the
/// text git reports for them, and compared component by component.
#[derive(Debug, Clone)]
pub struct Worktree {
    pub path: String,
    pub parent: String,
    pub repo: String,
    pub repo_root: String,
    pub git_common_dir: String,
    pub branch: String,
    pub head: String,
    pub main: bool,
    pub bare: bool,
    pub locked: bool,
    pub prunable: bool,
    pub missing: bool,
    pub dirty: Option<bool>,
    pub last_commit: Option<i64>,
    pub last_active: Option<i64>,
    pub last_active_utc: Option<String>,
}

/// Whether a worktree may be deleted: neither the main checkout nor a bare repository.
pub open spec fn is_deletable(wt: Worktree) -> bool {
    !wt.main && !wt.bare
}

/// The status flags of a worktree joined by commas: its state (`bare`, `main`,
/// `missing`, `dirty`, `clean` or `unknown`), then `locked` and `prunable`
/// where they hold.
pub open spec fn flags_text(wt: Worktree) -> Seq<char> {
    let state = if wt.bare {
        "bare"@
    } else if wt.main {
        "main"@
    } else if wt.missing {
        "missing"@
    } else {
        match wt.dirty {
            Some(true) => "dirty"@,
            Some(false) => "clean"@,
            None => "unknown"@,
        }
    };
    state + (if wt.locked {
        ",locked"@
    } else {
        Seq::<char>::empty()
    }) + (if wt.prunable {
        ",prunable"@
    } else {
        Seq::<char>::empty()
    })
}

impl Worktree {
    /// Whether this worktree may be deleted.
    pub fn deletable(&self) -> (b: bool)
        ensures
            b == is_deletable(*self),
    {
        !self.main && !self.bare
    }

    /// The status flags, such as `clean,locked`.
    pub fn flags(&self) -> (s: String)
        ensures
            s@ == flags_text(*self),
    {
        let mut out = String::new();
        if self.bare {
            push_str(&mut out, "bare");
        } else if self.main {
            push_str(&mut out, "main");
        } else if self.missing {
            push_str(&mut out, "missing");
        } else {
            match self.dirty {
                Some(true) => push_str(&mut out, "dirty"),
                Some(false) => push_str(&mut out, "clean"),
                None => push_str(&mut out, "unknown"),
            }
        }
        if self.locked {
            push_str(&mut out, ",locked");
        }
        if self.prunable {
            push_str(&mut out, ",prunable");
        }
        out
    }
}

/// `now - ts`, held to the `i64` range as `i64::saturating_sub` holds it.
pub open spec fn sat_diff(now: int, ts: int) -> int {
    let d = now - ts;
    if d > i64::MAX {
        i64::MAX as int
    } else if d < i64::MIN {
        i64::MIN as int
    } else {
        d
    }
}

/// Whether a worktree has been idle at least `min_age` seconds at `now`; one
/// without a known activity counts as idle.
pub open spec fn idle_enough(wt: Worktree, now: i64, min_age: i64) -> bool {
    match wt.last_active {
        Some(ts) => sat_diff(now as int, ts as int) >= min_age,
        None => true,
    }
}

/// Whether one of the first `bound` worktrees of `all` is deletable, idle at
/// least `min_age` seconds and of the repository whose common git directory is `dir`.
pub open spec fn has_idle_worktree(
    all: Seq<Worktree>,
    bound: int,
    dir: Seq<char>,
    min_age: i64,
    now: i64,
) -> bool {
    exists|k: int|
        0 <= k < bound && is_deletable(#[trigger] all[k]) && idle_enough(all[k], now, min_age)
            && same_place(all[k].git_common_dir@, dir)
}

/// Whether `wt` stays in a view filtered by idleness: a deletable worktree when
/// it is idle enough, the main checkout or a bare entry when some deletable
/// worktree of the same repository is.
pub open spec fn keeps(all: Seq<Worktree>, wt: Worktree, min_age: i64, now: i64) -> bool {
    if is_deletable(wt) {
        idle_enough(wt, now, min_age)
    } else {
        has_idle_worktree(all, all.len() as int, wt.git_common_dir@, min_age, now)
    }
}

/// Whether one of the texts is the same path as `t`, component by component.
pub open spec fn has_text(texts: Seq<String>, t: Seq<char>) -> bool {
    exists|j: int| 0 <= j < texts.len() && same_place((#[trigger] texts[j])@, t)
}

/// The worktrees a view keeps, in their order.
pub open spec fn view_kept(all: Seq<Worktree>, older_than_secs: Option<i64>, now: i64) -> Seq<
    Worktree,
> {
    match older_than_secs {
        None => all,
        Some(min_age) => all.filter(|wt: Worktree| keeps(all, wt, min_age, now)),
    }
}

/// Deletable worktrees come before the others.
pub open spec fn deletable_order(a: Worktree, b: Worktree) -> int {
    if is_deletable(a) == is_deletable(b) {
        0
    } else if is_deletable(a) {
        -1
    } else {
        1
    }
}

/// Unknown activity first, then from the longest idle to the most recent.
pub open spec fn activity_order(a: Option<i64>, b: Option<i64>) -> int {
    match (a, b) {
        (None, None) => 0,
        (None, Some(_)) => -1,
        (Some(_), None) => 1,
        (Some(x), Some(y)) => if x < y {
            -1
        } else if x > y {
            1
        } else {
            0
        },
    }
}

/// The order of a view: deletable first, then by activity, then by repository
/// name, then by path (compared component by component).
pub open spec fn view_order(a: Worktree, b: Worktree) -> int {
    if deletable_order(a, b) != 0 {
        deletable_order(a, b)
    } else if activity_order(a.last_active, b.last_active) != 0 {
        activity_order(a.last_active, b.last_active)
    } else if text_order(a.repo@, b.repo@, false) != 0 {
        text_order(a.repo@, b.repo@, false)
    } else {
        text_order(a.path@, b.path@, true)
    }
}

/// Whether a sequence of worktrees is in view order.
pub open spec fn view_sorted(s: Seq<Worktree>) -> bool {
    forall|i: int, j: int| 0 <= i < j < s.len() ==> view_order(s[i], s[j]) <= 0
}

/// The view order is antisymmetric and transitive.
pub proof fn lemma_view_order(a: Worktree, b: Worktree, c: Worktree)
    ensures
        view_order(a, b) == -view_order(b, a),
        view_order(a, b) <= 0 && view_order(b, c) <= 0 ==> view_order(a, c) <= 0,
        view_order(a, b) < 0 && view_order(b, c) <= 0 ==> view_order(a, c) < 0,
{
    lemma_text_order_antisym(a.repo@, b.repo@, false);
    lemma_text_order_antisym(b.repo@, c.repo@, false);
    lemma_text_order_antisym(a.repo@, c.repo@, false);
    lemma_text_order_antisym(a.path@, b.path@, true);
    lemma_text_order_antisym(b.path@, c.path@, true);
    lemma_text_order_antisym(a.path@, c.path@, true);
    if text_order(a.repo@, b.repo@, false) <= 0 && text_order(b.repo@, c.repo@, false) <= 0 {
        lemma_text_order_trans(a.repo@, b.repo@, c.repo@, false);
    }
    if text_order(a.path@, b.path@, true) <= 0 && text_order(b.path@, c.path@, true) <= 0 {
        lemma_text_order_trans(a.path@, b.path@, c.path@, true);
    }
}

/// Compares two worktrees in view order.
fn view_compare(a: &Worktree, b: &Worktree) -> (r: i8)
    ensures
        r as int == view_order(*a, *b),
{
    let da = a.deletable();
    let db = b.deletable();
    if da != db {
        return if da {
            -1
        } else {
            1
        };
    }
    match (a.last_active, b.last_active) {
        (None, Some(_)) => {
            return -1;
        },
        (Some(_), None) => {
            return 1;
        },
        (Some(x), Some(y)) => {
            if x < y {
                return -1;
            }
            if x > y {
                return 1;
            }
        },
        (None, None) => {},
    }
    let ra = chars_of(a.repo.as_str());
    let rb = chars_of(b.repo.as_str());
    let r = compare_chars(&ra, &rb, false);
    if r != 0 {
        return r;
    }
    let pa = chars_of(a.path.as_str());
    let pb = chars_of(b.path.as_str());
    compare_chars(&pa, &pb, true)
}

/// Whether a worktree is idle at least `min_age` seconds at `now`.
fn is_old(wt: &Worktree, now: i64, min_age: i64) -> (b: bool)
    ensures
        b == idle_enough(*wt, now, min_age),
{
    match wt.last_active {
        Some(ts) => {
            let d: i128 = now as i128 - ts as i128;
            let d: i128 = if d > i64::MAX as i128 {
                i64::MAX as i128
            } else if d < i64::MIN as i128 {
                i64::MIN as i128
            } else {
                d
            };
            d >= min_age as i128
        },
        None => true,
    }
}

/// Inserts `wt` into a sorted vector after every worktree that does not come
/// after it.
fn insert_sorted(sorted: &mut Vec<Worktree>, wt: Worktree)
    requires
        view_sorted(old(sorted)@),
    ensures
        view_sorted(final(sorted)@),
        final(sorted)@.to_multiset() == old(sorted)@.to_multiset().insert(wt),
{
    let mut p: usize = 0;
    while p < sorted.len() && view_compare(&sorted[p], &wt) <= 0
        invariant
            p <= sorted@.len(),
            forall|k: int| 0 <= k < p ==> view_order(#[trigger] sorted@[k], wt) <= 0,
        decreases sorted@.len() - p,
    {
        p = p + 1;
    }
    let ghost before = sorted@;
    proof {
        if p < before.len() {
            lemma_view_order(before[p as int], wt, wt);
        }
        assert forall|k: int| p <= k < before.len() implies view_order(wt, #[trigger] before[k])
            < 0 by {
            lemma_view_order(wt, before[p as int], before[k]);
        }
        vstd::seq_lib::to_multiset_insert(before, p as int, wt);
    }
    sorted.insert(p, wt);
    proof {
        let after = sorted@;
        assert forall|i: int, j: int| 0 <= i < j < after.len() implies view_order(
            after[i],
            after[j],
        ) <= 0 by {
            if i < p && j == p {
            } else if i == p && j > p {
                assert(after[j] == before[j - 1]);
            } else if i < p && j > p {
                assert(after[j] == before[j - 1]);
            } else if i > p {
                assert(after[i] == before[i - 1] && after[j] == before[j - 1]);
            }
        }
    }
}

/// The worktrees of a view: with `older_than_secs`, only deletable worktrees
/// idle at least that long at `now`, and the main checkouts of their
/// repositories; then sorted, deletable first, the longest idle first, then by
/// repository and path.
pub fn apply_view(worktrees: Vec<Worktree>, older_than_secs: Option<i64>, now: i64) -> (r: Vec<
    Worktree,
>)
    ensures
        r@.to_multiset() == view_kept(worktrees@, older_than_secs, now).to_multiset(),
        view_sorted(r@),
{
    let ghost all = worktrees@;
    let mut rest = worktrees;
    let mut kept: Vec<Worktree> = Vec::new();
    match older_than_secs {
        None => {
            proof {
                assert(all.subrange(0, all.len() as int) == all);
            }
            while rest.len() > 0
                invariant
                    all.len() == kept@.len() + rest@.len(),
                    kept@ == all.subrange(0, kept@.len() as int),
                    rest@ == all.subrange(kept@.len() as int, all.len() as int),
                decreases rest@.len(),
            {
                let ghost k: int = kept@.len() as int;
                let wt = rest.remove(0);
                kept.push(wt);
                assert(kept@ == all.subrange(0, k + 1));
            }
        },
        Some(min_age) => {
            let mut old_repos: Vec<String> = Vec::new();
            let mut i: usize = 0;
            while i < rest.len()
                invariant
                    rest@ == all,
                    i <= all.len(),
                    forall|j: int|
                        0 <= j < old_repos@.len() ==> has_idle_worktree(
                            all,
                            i as int,
                            (#[trigger] old_repos@[j])@,
                            min_age,
                            now,
                        ),
                    forall|d: Seq<char>|
                        has_idle_worktree(all, i as int, d, min_age, now) ==> #[trigger] has_text(
                            old_repos@,
                            d,
                        ),
                decreases all.len() - i,
            {
                let ghost prev = old_repos@;
                let take = rest[i].deletable() && is_old(&rest[i], now, min_age);
                if take {
                    old_repos.push(rest[i].git_common_dir.clone());
                }
                proof {
                    assert forall|j: int| 0 <= j < old_repos@.len() implies has_idle_worktree(
                        all,
                        i + 1,
                        (#[trigger] old_repos@[j])@,
                        min_age,
                        now,
                    ) by {
                        if j < prev.len() {
                            assert(old_repos@[j] == prev[j]);
                            assert(has_idle_worktree(all, i as int, prev[j]@, min_age, now));
                        } else {
                            assert(same_place(all[i as int].git_common_dir@, old_repos@[j]@));
                        }
                    }
                    assert forall|d: Seq<char>|
                        has_idle_worktree(all, i + 1, d, min_age, now) implies #[trigger] has_text(
                        old_repos@,
                        d,
                    ) by {
                        let k = choose|k: int|
                            0 <= k < i + 1 && is_deletable(#[trigger] all[k]) && idle_enough(
                                all[k],
                                now,
                                min_age,
                            ) && same_place(all[k].git_common_dir@, d);
                        if k < i {
                            assert(has_idle_worktree(all, i as int, d, min_age, now));
                            assert(has_text(prev, d));
                            let j = choose|j: int| 0 <= j < prev.len() && same_place((#[trigger] prev[j])@, d);
                            assert(old_repos@[j] == prev[j]);
                        } else {
                            assert(same_place(old_repos@[old_repos@.len() - 1]@, d));
                        }
                    }
                }
                i = i + 1;
            }
            let ghost pred = |wt: Worktree| keeps(all, wt, min_age, now);
            let ghost taken: int = 0;
            proof {
                assert(all.subrange(0, 0).filter(pred) =~= Seq::<Worktree>::empty());
                assert(all.subrange(0, all.len() as int) == all);
            }
            while rest.len() > 0
                invariant
                    0 <= taken <= all.len(),
                    taken + rest@.len() == all.len(),
                    rest@ == all.subrange(taken, all.len() as int),
                    kept@ == all.subrange(0, taken).filter(pred),
                    pred == (|wt: Worktree| keeps(all, wt, min_age, now)),
                    forall|j: int|
                        0 <= j < old_repos@.len() ==> has_idle_worktree(
                            all,
                            all.len() as int,
                            (#[trigger] old_repos@[j])@,
                            min_age,
                            now,
                        ),
                    forall|d: Seq<char>|
                        has_idle_worktree(all, all.len() as int, d, min_age, now)
                            ==> #[trigger] has_text(old_repos@, d),
                decreases rest@.len(),
            {
                let wt = rest.remove(0);
                let keep = if wt.deletable() {
                    is_old(&wt, now, min_age)
                } else {
                    contains_text(&old_repos, &wt.git_common_dir)
                };
                proof {
                    assert(wt == all[taken]);
                    if !is_deletable(wt) {
                        if keep {
                            let j = choose|j: int|
                                0 <= j < old_repos@.len() && same_place(
                                    (#[trigger] old_repos@[j])@,
                                    wt.git_common_dir@,
                                );
                            assert(has_idle_worktree(
                                all,
                                all.len() as int,
                                old_repos@[j]@,
                                min_age,
                                now,
                            ));
                        } else {
                            if has_idle_worktree(
                                all,
                                all.len() as int,
                                wt.git_common_dir@,
                                min_age,
                                now,
                            ) {
                                assert(has_text(old_repos@, wt.git_common_dir@));
                            }
                        }
                    }
                    assert(keep == pred(wt));
                    assert(all.subrange(0, taken + 1) == all.subrange(0, taken).push(wt));
                    all.subrange(0, taken).lemma_filter_push(wt, pred);
                }
                if keep {
                    kept.push(wt);
                }
                proof {
                    taken = taken + 1;
                }
            }
            proof {
                assert(all.subrange(0, all.len() as int) == all);
            }
        },
    }
    let mut sorted: Vec<Worktree> = Vec::new();
    let ghost source = kept@;
    proof {
        assert(sorted@ =~= source.subrange(0, 0));
        assert(source.subrange(0, source.len() as int) == source);
    }
    let ghost done: int = 0;
    while kept.len() > 0
        invariant
            0 <= done <= source.len(),
            done + kept@.len() == source.len(),
            kept@ == source.subrange(done, source.len() as int),
            view_sorted(sorted@),
            sorted@.to_multiset() == source.subrange(0, done).to_multiset(),
        decreases kept@.len(),
    {
        let wt = kept.remove(0);
        proof {
            assert(wt == source[done]);
            assert(source.subrange(0, done + 1) == source.subrange(0, done).push(wt));
            vstd::seq_lib::to_multiset_build(source.subrange(0, done), wt);
        }
        insert_sorted(&mut sorted, wt);
        proof {
            done = done + 1;
        }
    }
    sorted
}

/// Whether one of the texts is the same path as `needle`.
fn contains_text(texts: &Vec<String>, needle: &String) -> (b: bool)
    ensures
        b == has_text(texts@, needle@),
{
    let mut j: usize = 0;
    while j < texts.len()
        invariant
            j <= texts@.len(),
            forall|k: int| 0 <= k < j ==> !same_place((#[trigger] texts@[k])@, needle@),
        decreases texts@.len() - j,
    {
        if same_path(texts[j].as_str(), needle.as_str()) {
            return true;
        }
        j = j + 1;
    }
    false
}


/// One record of `git worktree list --porcelain`.
#[derive(Debug)]
pub struct RawWt {
    pub path: String,
    pub head: String,
    pub branch: Option<String>,
    pub detached: bool,
    pub bare: bool,
    pub locked: bool,
    pub prunable: bool,
}

/// The content of a porcelain record.
pub struct RawRecord {
    pub path: Seq<char>,
    pub head: Seq<char>,
    pub branch: Option<Seq<char>>,
    pub detached: bool,
    pub bare: bool,
    pub locked: bool,
    pub prunable: bool,
}

impl View for RawWt {
    type V = RawRecord;

    open spec fn view(&self) -> RawRecord {
        RawRecord {
            path: self.path@,
            head: self.head@,
            branch: match self.branch {
                Some(b) => Some(b@),
                None => None,
            },
            detached: self.detached,
            bare: self.bare,
            locked: self.locked,
            prunable: self.prunable,
        }
    }
}

/// A fresh record for the worktree at `path`.
pub open spec fn new_record(path: Seq<char>) -> RawRecord {
    RawRecord {
        path,
        head: Seq::empty(),
        branch: None,
        detached: false,
        bare: false,
        locked: false,
        prunable: false,
    }
}

/// The finished records, with the one being read added when there is one.
pub open spec fn flush(cur: Option<RawRecord>, out: Seq<RawRecord>) -> Seq<RawRecord> {
    match cur {
        Some(r) => out.push(r),
        None => out,
    }
}

/// What one line adds to a record: `HEAD`, `branch`, `detached`, `bare`,
/// `locked` and `prunable` (with or without a reason); other lines add nothing.
pub open spec fn record_line(r: RawRecord, line: Seq<char>) -> RawRecord {
    if starts_with(line, "HEAD "@) {
        RawRecord { head: line.skip("HEAD "@.len() as int), ..r }
    } else if starts_with(line, "branch "@) {
        RawRecord { branch: Some(line.skip("branch "@.len() as int)), ..r }
    } else if line == "detached"@ {
        RawRecord { detached: true, ..r }
    } else if line == "bare"@ {
        RawRecord { bare: true, ..r }
    } else if starts_with(line, "locked"@) {
        RawRecord { locked: true, ..r }
    } else if starts_with(line, "prunable"@) {
        RawRecord { prunable: true, ..r }
    } else {
        r
    }
}

/// A worktree locked with or without a reason is read as locked: any line
/// that begins with `locked` (the bare word too) sets the lock, and leaves the
/// rest of the record as it was.
pub proof fn lemma_lock_line(r: RawRecord, line: Seq<char>)
    requires
        line.len() >= 6,
        line.take(6) == seq!['l', 'o', 'c', 'k', 'e', 'd'],
    ensures
        record_line(r, line).locked,
        record_line(r, line) == (RawRecord { locked: true, ..r }),
{
    reveal_strlit("HEAD ");
    reveal_strlit("branch ");
    reveal_strlit("detached");
    reveal_strlit("bare");
    reveal_strlit("locked");
    assert(line[0] == 'l') by {
        assert(line.take(6)[0] == line[0]);
    }
    assert(!starts_with(line, "HEAD "@)) by {
        if starts_with(line, "HEAD "@) {
            assert(line.subrange(0, 5)[0] == line[0]);
        }
    }
    assert(!starts_with(line, "branch "@)) by {
        if starts_with(line, "branch "@) {
            assert(line.subrange(0, 7)[0] == line[0]);
        }
    }
    assert(line != "detached"@) by {
        if line == "detached"@ {
            assert(line[0] == 'd');
        }
    }
    assert(line != "bare"@) by {
        if line == "bare"@ {
            assert(line[0] == 'b');
        }
    }
    assert(line.subrange(0, 6) =~= line.take(6));
    assert(starts_with(line, "locked"@)) by {
        assert("locked"@ =~= seq!['l', 'o', 'c', 'k', 'e', 'd']);
    }
}

/// A `HEAD` line gives the record its commit, a `branch` line its branch, and
/// a line that begins with `prunable` marks it prunable; nothing else changes.
pub proof fn lemma_record_fields(r: RawRecord, line: Seq<char>)
    ensures
        line.len() >= 5 && line.take(5) == seq!['H', 'E', 'A', 'D', ' '] ==> record_line(r, line)
            == (RawRecord { head: line.skip(5), ..r }),
        line.len() >= 7 && line.take(7) == seq!['b', 'r', 'a', 'n', 'c', 'h', ' '] ==> record_line(
            r,
            line,
        ) == (RawRecord { branch: Some(line.skip(7)), ..r }),
        line.len() >= 8 && line.take(8) == seq!['p', 'r', 'u', 'n', 'a', 'b', 'l', 'e']
            ==> record_line(r, line) == (RawRecord { prunable: true, ..r }),
{
    reveal_strlit("HEAD ");
    reveal_strlit("branch ");
    reveal_strlit("detached");
    reveal_strlit("bare");
    reveal_strlit("locked");
    reveal_strlit("prunable");
    if line.len() >= 5 && line.take(5) == seq!['H', 'E', 'A', 'D', ' '] {
        assert(line.subrange(0, 5) =~= "HEAD "@);
    }
    if line.len() >= 7 && line.take(7) == seq!['b', 'r', 'a', 'n', 'c', 'h', ' '] {
        assert(line.take(7)[0] == line[0]);
        assert(!starts_with(line, "HEAD "@)) by {
            if starts_with(line, "HEAD "@) {
                assert(line.subrange(0, 5)[0] == line[0]);
            }
        }
        assert(line.subrange(0, 7) =~= "branch "@);
    }
    if line.len() >= 8 && line.take(8) == seq!['p', 'r', 'u', 'n', 'a', 'b', 'l', 'e'] {
        assert(line.take(8)[0] == line[0]);
        assert(!starts_with(line, "HEAD "@)) by {
            if starts_with(line, "HEAD "@) {
                assert(line.subrange(0, 5)[0] == line[0]);
            }
        }
        assert(!starts_with(line, "branch "@)) by {
            if starts_with(line, "branch "@) {
                assert(line.subrange(0, 7)[0] == line[0]);
            }
        }
        assert(line != "detached"@) by {
            if line == "detached"@ {
                assert(line[0] == 'd');
            }
        }
        assert(line != "bare"@) by {
            if line == "bare"@ {
                assert(line[0] == 'b');
            }
        }
        assert(!starts_with(line, "locked"@)) by {
            if starts_with(line, "locked"@) {
                assert(line.subrange(0, 6)[0] == line[0]);
            }
        }
        assert(line.subrange(0, 8) =~= "prunable"@);
    }
}

/// Once a record is locked, no later line of it unlocks it.
pub proof fn lemma_lock_stays(r: RawRecord, line: Seq<char>)
    requires
        r.locked,
    ensures
        record_line(r, line).locked,
{
}

/// One line of porcelain output: an empty line ends a record, a `worktree`
/// line starts one, other lines fill the record being read (or are ignored
/// when there is none).
pub open spec fn porcelain_step(line: Seq<char>, cur: Option<RawRecord>, out: Seq<RawRecord>) -> (
    Option<RawRecord>,
    Seq<RawRecord>,
) {
    if line.len() == 0 {
        (None, flush(cur, out))
    } else if starts_with(line, "worktree "@) {
        (Some(new_record(line.skip("worktree "@.len() as int))), flush(cur, out))
    } else {
        match cur {
            None => (None, out),
            Some(r) => (Some(record_line(r, line)), out),
        }
    }
}

/// The records read from the remaining lines.
pub open spec fn porcelain_records(
    ls: Seq<Seq<char>>,
    cur: Option<RawRecord>,
    out: Seq<RawRecord>,
) -> Seq<RawRecord>
    decreases ls.len(),
{
    if ls.len() == 0 {
        flush(cur, out)
    } else {
        let next = porcelain_step(ls[0], cur, out);
        porcelain_records(ls.drop_first(), next.0, next.1)
    }
}

/// The records of a porcelain listing.
pub open spec fn porcelain(text: Seq<char>) -> Seq<RawRecord> {
    porcelain_records(lines(text), None, Seq::empty())
}

/// The text after `prefix.len()` characters of a line.
fn rest_of(line: &Vec<char>, skip: usize) -> (s: String)
    requires
        skip <= line@.len(),
    ensures
        s@ == line@.skip(skip as int),
{
    assert(line@.skip(skip as int) == line@.subrange(skip as int, line@.len() as int));
    string_of_range(line, skip, line.len())
}

/// Whether the line starts with the literal.
fn line_starts(line: &Vec<char>, prefix: &str) -> (b: bool)
    ensures
        b == starts_with(line@, prefix@),
{
    let p = chars_of(prefix);
    starts_with_chars(line, &p)
}

/// Whether the line is the literal.
fn line_is(line: &Vec<char>, word: &str) -> (b: bool)
    ensures
        b == (line@ == word@),
{
    let w = chars_of(word);
    same_chars(line, &w)
}

/// Applies one line to the record being read.
fn apply_line(r: &mut RawWt, line: &Vec<char>)
    ensures
        final(r)@ == record_line(old(r)@, line@),
{
    if line_starts(line, "HEAD ") {
        r.head = rest_of(line, chars_of("HEAD ").len());
    } else if line_starts(line, "branch ") {
        r.branch = Some(rest_of(line, chars_of("branch ").len()));
    } else if line_is(line, "detached") {
        r.detached = true;
    } else if line_is(line, "bare") {
        r.bare = true;
    } else if line_starts(line, "locked") {
        r.locked = true;
    } else if line_starts(line, "prunable") {
        r.prunable = true;
    }
}

/// The views of the records.
pub open spec fn record_views(v: Seq<RawWt>) -> Seq<RawRecord> {
    v.map_values(|r: RawWt| r@)
}

/// The view of the record being read.
pub open spec fn cur_view(c: Option<RawWt>) -> Option<RawRecord> {
    match c {
        Some(r) => Some(r@),
        None => None,
    }
}

/// Reads the records of `git worktree list --porcelain`.
pub fn parse_porcelain(text: &str) -> (r: Vec<RawWt>)
    ensures
        record_views(r@) == porcelain(text@),
{
    let v = chars_of(text);
    let ls = split_lines(&v);
    let ghost all = lines(text@);
    assert(ls@.map_values(|l: Vec<char>| l@) =~= all);
    let mut out: Vec<RawWt> = Vec::new();
    let mut cur: Option<RawWt> = None;
    let mut i: usize = 0;
    proof {
        assert(all.skip(0) == all);
        assert(record_views(out@) =~= Seq::<RawRecord>::empty());
    }
    while i < ls.len()
        invariant
            i <= ls@.len(),
            ls@.len() == all.len(),
            forall|k: int| 0 <= k < ls@.len() ==> (#[trigger] ls@[k])@ == all[k],
            porcelain(text@) == porcelain_records(all.skip(i as int), cur_view(cur), record_views(out@)),
        decreases ls@.len() - i,
    {
        let line = &ls[i];
        let ghost before_out = record_views(out@);
        let ghost before_cur = cur_view(cur);
        proof {
            assert(all.skip(i as int)[0] == line@);
            assert(all.skip(i as int).drop_first() == all.skip(i + 1));
        }
        if line.len() == 0 {
            match cur.take() {
                Some(done) => {
                    out.push(done);
                },
                None => {},
            }
            proof {
                assert(record_views(out@) == flush(before_cur, before_out));
            }
        } else if line_starts(line, "worktree ") {
            let path = rest_of(line, chars_of("worktree ").len());
            match cur.take() {
                Some(done) => {
                    out.push(done);
                },
                None => {},
            }
            proof {
                assert(record_views(out@) == flush(before_cur, before_out));
            }
            cur = Some(
                RawWt {
                    path,
                    head: String::new(),
                    branch: None,
                    detached: false,
                    bare: false,
                    locked: false,
                    prunable: false,
                },
            );
            assert(cur_view(cur) == Some(new_record(line@.skip("worktree "@.len() as int))));
        } else {
            match &mut cur {
                Some(r) => {
                    apply_line(r, line);
                },
                None => {},
            }
        }
        i = i + 1;
    }
    match cur {
        Some(done) => {
            out.push(done);
        },
        None => {},
    }
    proof {
        assert(all.skip(i as int) =~= Seq::<Seq<char>>::empty());
    }
    out
}


/// `s` with every leading copy of `p` removed, as `str::trim_start_matches`
/// removes them.
pub open spec fn strip_prefixes(s: Seq<char>, p: Seq<char>) -> Seq<char>
    decreases s.len(),
{
    if p.len() > 0 && starts_with(s, p) {
        strip_prefixes(s.skip(p.len() as int), p)
    } else {
        s
    }
}

/// The branch shown for a record: `(bare)`, `(detached)`, or the branch
/// without its `refs/heads/` prefixes.
pub open spec fn branch_text(r: RawRecord) -> Seq<char> {
    if r.bare {
        "(bare)"@
    } else if r.detached || r.branch is None {
        "(detached)"@
    } else {
        strip_prefixes(r.branch->0, "refs/heads/"@)
    }
}

/// The branch shown for a record.
pub fn branch_label(raw: &RawWt) -> (s: String)
    ensures
        s@ == branch_text(raw@),
{
    if raw.bare {
        let mut s = String::new();
        push_str(&mut s, "(bare)");
        return s;
    }
    match &raw.branch {
        Some(b) if !raw.detached => {
            let v = chars_of(b.as_str());
            let p = chars_of("refs/heads/");
            let mut start: usize = 0;
            assert(v@.skip(0) == v@);
            while p.len() > 0 && p.len() <= v.len() - start && starts_with_chars(
                &slice_from(&v, start),
                &p,
            )
                invariant
                    start <= v@.len(),
                    strip_prefixes(v@, p@) == strip_prefixes(v@.skip(start as int), p@),
                decreases v@.len() - start,
            {
                assert(v@.skip(start as int).skip(p@.len() as int) == v@.skip(start + p@.len()));
                start = start + p.len();
            }
            proof {
                let rest = v@.skip(start as int);
                if p@.len() > 0 && starts_with(rest, p@) {
                    assert(start + p@.len() <= v@.len());
                }
            }
            let s = string_of(&slice_from(&v, start));
            s
        },
        _ => {
            let mut s = String::new();
            push_str(&mut s, "(detached)");
            s
        },
    }
}

/// The characters `v[from..]`.
fn slice_from(v: &Vec<char>, from: usize) -> (r: Vec<char>)
    requires
        from <= v@.len(),
    ensures
        r@ == v@.skip(from as int),
{
    assert(v@.skip(from as int) == v@.subrange(from as int, v@.len() as int));
    crate::text::slice_chars(v, from, v.len())
}

/// A worktree record with what its repository adds.
#[derive(Debug)]
pub struct Job {
    pub raw: RawWt,
    pub repo: String,
    pub repo_root: String,
    pub git_common_dir: String,
    pub main: bool,
}

/// The path of the first record that is not bare: the main checkout.
pub open spec fn main_path(rs: Seq<RawRecord>) -> Option<Seq<char>>
    decreases rs.len(),
{
    if rs.len() == 0 {
        None
    } else if !rs[0].bare {
        Some(rs[0].path)
    } else {
        main_path(rs.drop_first())
    }
}

/// Whether `p` is the path of the main checkout, component by component.
pub open spec fn is_main_path(rs: Seq<RawRecord>, p: Seq<char>) -> bool {
    match main_path(rs) {
        Some(m) => same_place(m, p),
        None => false,
    }
}

/// Whether a repository has a worktree besides its main checkout.
pub open spec fn has_extra(rs: Seq<RawRecord>) -> bool {
    exists|i: int| 0 <= i < rs.len() && !(#[trigger] rs[i]).bare && !is_main_path(rs, rs[i].path)
}

/// The root of the repository: the main checkout, else the directory above
/// the common git directory, else that directory itself.
pub open spec fn repo_root_of(rs: Seq<RawRecord>, common: Seq<char>) -> Seq<char> {
    match main_path(rs) {
        Some(p) => p,
        None => match parent_path(common) {
            Some(q) => q,
            None => common,
        },
    }
}

/// The name of a repository: the last component of its root, or `unknown`.
pub open spec fn repo_name_of(root: Seq<char>) -> Seq<char> {
    match file_name(root) {
        Some(n) => n,
        None => "unknown"@,
    }
}

/// Whether `jobs` are the records of the repository at `common`, each marked
/// with its repository and whether it is the main checkout.
pub open spec fn jobs_of(jobs: Seq<Job>, rs: Seq<RawRecord>, common: Seq<char>) -> bool {
    &&& jobs.len() == rs.len()
    &&& forall|i: int|
        #![trigger jobs[i]]
        0 <= i < jobs.len() ==> {
            &&& jobs[i].raw@ == rs[i]
            &&& jobs[i].repo@ == repo_name_of(repo_root_of(rs, common))
            &&& jobs[i].repo_root@ == repo_root_of(rs, common)
            &&& jobs[i].git_common_dir@ == common
            &&& jobs[i].main == (!rs[i].bare && is_main_path(rs, rs[i].path))
        }
}

proof fn lemma_main_path(rs: Seq<RawRecord>)
    ensures
        main_path(rs) is Some ==> exists|i: int|
            0 <= i < rs.len() && !rs[i].bare && main_path(rs) == Some(#[trigger] rs[i].path),
        main_path(rs) is None ==> forall|i: int| 0 <= i < rs.len() ==> #[trigger] rs[i].bare,
    decreases rs.len(),
{
    if rs.len() > 0 && rs[0].bare {
        lemma_main_path(rs.drop_first());
        if main_path(rs) is Some {
            let i = choose|i: int|
                0 <= i < rs.drop_first().len() && !rs.drop_first()[i].bare && main_path(
                    rs.drop_first(),
                ) == Some(#[trigger] rs.drop_first()[i].path);
            assert(rs[i + 1] == rs.drop_first()[i]);
        } else {
            assert forall|i: int| 0 <= i < rs.len() implies #[trigger] rs[i].bare by {
                if i > 0 {
                    assert(rs[i] == rs.drop_first()[i - 1]);
                }
            }
        }
    } else if rs.len() > 0 {
        assert(!rs[0].bare && main_path(rs) == Some(rs[0].path));
    }
}

/// Finds the main checkout among the records.
fn find_main(records: &Vec<RawWt>) -> (r: Option<String>)
    ensures
        match r {
            Some(p) => main_path(record_views(records@)) == Some(p@),
            None => main_path(record_views(records@)) is None,
        },
{
    let ghost rs = record_views(records@);
    let mut i: usize = 0;
    assert(rs.skip(0) == rs);
    while i < records.len()
        invariant
            i <= records@.len(),
            rs == record_views(records@),
            main_path(rs) == main_path(rs.skip(i as int)),
        decreases records@.len() - i,
    {
        assert(rs.skip(i as int)[0] == records@[i as int]@);
        if !records[i].bare {
            return Some(records[i].path.clone());
        }
        assert(rs.skip(i as int).drop_first() == rs.skip(i + 1));
        i = i + 1;
    }
    None
}

/// The worktrees of the repository whose common git directory is `common`,
/// from its porcelain records: none when it has no worktree besides the main
/// checkout, otherwise every record with the repository's name and root.
pub fn plan_jobs(common: &str, records: Vec<RawWt>) -> (r: Vec<Job>)
    ensures
        has_extra(record_views(records@)) ==> jobs_of(r@, record_views(records@), common@),
        !has_extra(record_views(records@)) ==> r@.len() == 0,
{
    let ghost rs = record_views(records@);
    let main = find_main(&records);
    proof {
        lemma_main_path(rs);
    }
    let mut extra = false;
    let mut i: usize = 0;
    while i < records.len()
        invariant
            i <= records@.len(),
            rs == record_views(records@),
            main_path(rs) == match main {
                Some(p) => Some(p@),
                None => None::<Seq<char>>,
            },
            extra == exists|j: int|
                0 <= j < i && !(#[trigger] rs[j]).bare && !is_main_path(rs, rs[j].path),
        decreases records@.len() - i,
    {
        assert(rs[i as int] == records@[i as int]@);
        let differs = match &main {
            Some(p) => !same_path(records[i].path.as_str(), p.as_str()),
            None => true,
        };
        assert(differs == !is_main_path(rs, rs[i as int].path));
        let ghost was = extra;
        if !records[i].bare && differs {
            extra = true;
        }
        proof {
            if !rs[i as int].bare && !is_main_path(rs, rs[i as int].path) {
                assert(extra);
            } else {
                assert(extra == was);
                if extra {
                    let j = choose|j: int|
                        0 <= j < i && !(#[trigger] rs[j]).bare && !is_main_path(rs, rs[j].path);
                    assert(0 <= j < i + 1);
                }
                assert(extra == exists|j: int|
                    0 <= j < i + 1 && !(#[trigger] rs[j]).bare && !is_main_path(rs, rs[j].path));
            }
        }
        i = i + 1;
    }
    if !extra {
        return Vec::new();
    }
    let root: String = match &main {
        Some(p) => p.clone(),
        None => match path_parent(common) {
            Some(q) => q,
            None => string_of(&chars_of(common)),
        },
    };
    let repo: String = match path_file_name(root.as_str()) {
        Some(n) => n,
        None => {
            let mut s = String::new();
            push_str(&mut s, "unknown");
            s
        },
    };
    let mut rest = records;
    let mut jobs: Vec<Job> = Vec::new();
    let ghost all = rest@;
    proof {
        assert(all.subrange(0, all.len() as int) == all);
    }
    while rest.len() > 0
        invariant
            all.len() == jobs@.len() + rest@.len(),
            rest@ == all.subrange(jobs@.len() as int, all.len() as int),
            rs == record_views(all),
            root@ == repo_root_of(rs, common@),
            repo@ == repo_name_of(root@),
            main_path(rs) == match main {
                Some(p) => Some(p@),
                None => None::<Seq<char>>,
            },
            forall|k: int|
                #![trigger jobs@[k]]
                0 <= k < jobs@.len() ==> {
                    &&& jobs@[k].raw@ == rs[k]
                    &&& jobs@[k].repo@ == repo_name_of(repo_root_of(rs, common@))
                    &&& jobs@[k].repo_root@ == repo_root_of(rs, common@)
                    &&& jobs@[k].git_common_dir@ == common@
                    &&& jobs@[k].main == (!rs[k].bare && is_main_path(rs, rs[k].path))
                },
        decreases rest@.len(),
    {
        let ghost k = jobs@.len() as int;
        let raw = rest.remove(0);
        assert(raw == all[k]);
        assert(rs[k] == raw@);
        let is_main = !raw.bare && match &main {
            Some(p) => same_path(raw.path.as_str(), p.as_str()),
            None => false,
        };
        jobs.push(
            Job {
                raw,
                repo: repo.clone(),
                repo_root: root.clone(),
                git_common_dir: string_of(&chars_of(common)),
                main: is_main,
            },
        );
    }
    jobs
}

/// The latest of the known times, if any is known.
pub open spec fn latest(a: Option<i64>, b: Option<i64>, c: Option<i64>) -> Option<i64> {
    let ab = match (a, b) {
        (Some(x), Some(y)) => Some(if x >= y {
            x
        } else {
            y
        }),
        (Some(x), None) => Some(x),
        (None, y) => y,
    };
    match (ab, c) {
        (Some(x), Some(y)) => Some(if x >= y {
            x
        } else {
            y
        }),
        (Some(x), None) => Some(x),
        (None, y) => y,
    }
}

/// The latest time is the newest of the known ones: it is none exactly when
/// no time is known; otherwise it is one of the known times, and no known time
/// is later.
pub proof fn lemma_latest_is_newest(a: Option<i64>, b: Option<i64>, c: Option<i64>)
    ensures
        (latest(a, b, c) is None) == (a is None && b is None && c is None),
        latest(a, b, c) matches Some(m) ==> {
            &&& a == Some(m) || b == Some(m) || c == Some(m)
            &&& a matches Some(x) ==> x <= m
            &&& b matches Some(x) ==> x <= m
            &&& c matches Some(x) ==> x <= m
        },
{
}

fn later(a: Option<i64>, b: Option<i64>) -> (r: Option<i64>)
    ensures
        r == latest(a, b, None),
{
    match (a, b) {
        (Some(x), Some(y)) => Some(
            if x >= y {
                x
            } else {
                y
            },
        ),
        (Some(x), None) => Some(x),
        (None, y) => y,
    }
}

/// Whether a record needs its status, last commit and times read: not for a
/// bare repository nor a missing directory.
pub fn wants_details(raw: &RawWt, missing: bool) -> (b: bool)
    ensures
        b == (!raw.bare && !missing),
{
    !raw.bare && !missing
}

/// The worktree a job describes, given what was read of it: whether its
/// directory is missing, the output of `git status --porcelain` and of
/// `git log -1 --format=%ct` (when they ran), and the modification times of
/// its directory and of its index. Its activity is the latest of the last
/// commit and those two times.
pub fn build_worktree(
    job: Job,
    missing: bool,
    status: Option<String>,
    log: Option<String>,
    dir_mtime: Option<i64>,
    index_mtime: Option<i64>,
) -> (wt: Worktree)
    ensures
        wt.path@ == job.raw.path@,
        wt.parent@ == match parent_path(job.raw.path@) {
            Some(q) => q,
            None => Seq::<char>::empty(),
        },
        wt.repo == job.repo,
        wt.repo_root == job.repo_root,
        wt.git_common_dir == job.git_common_dir,
        wt.branch@ == branch_text(job.raw@),
        wt.head == job.raw.head,
        wt.main == job.main,
        wt.bare == job.raw.bare,
        wt.locked == job.raw.locked,
        wt.prunable == job.raw.prunable,
        wt.missing == missing,
        job.raw.bare || missing ==> wt.dirty is None && wt.last_commit is None
            && wt.last_active is None && wt.last_active_utc is None,
        !(job.raw.bare || missing) ==> {
            &&& wt.dirty == match status {
                Some(t) => Some(trim(t@).len() > 0),
                None => None,
            }
            &&& wt.last_commit == match log {
                Some(t) => i64_value(trim(t@)),
                None => None,
            }
            &&& wt.last_active == latest(wt.last_commit, dir_mtime, index_mtime)
            &&& match wt.last_active {
                Some(ts) => wt.last_active_utc is Some && wt.last_active_utc->0@ == utc_text(
                    ts as int,
                ),
                None => wt.last_active_utc is None,
            }
        },
{
    let branch = branch_label(&job.raw);
    let parent = match path_parent(job.raw.path.as_str()) {
        Some(q) => q,
        None => String::new(),
    };
    let (dirty, last_commit, last_active) = if job.raw.bare || missing {
        (None, None, None)
    } else {
        let dirty = match &status {
            Some(t) => {
                let v = chars_of(t.as_str());
                let (a, b) = trim_bounds(&v);
                Some(b > a)
            },
            None => None,
        };
        let last_commit = match &log {
            Some(t) => {
                let v = chars_of(t.as_str());
                let (a, b) = trim_bounds(&v);
                let w = crate::text::slice_chars(&v, a, b);
                parse_i64(&w)
            },
            None => None,
        };
        let last_active = later(later(last_commit, dir_mtime), index_mtime);
        (dirty, last_commit, last_active)
    };
    let last_active_utc = match last_active {
        Some(ts) => Some(format_utc(ts)),
        None => None,
    };
    Worktree {
        path: job.raw.path,
        parent,
        repo: job.repo,
        repo_root: job.repo_root,
        git_common_dir: job.git_common_dir,
        branch,
        head: job.raw.head,
        main: job.main,
        bare: job.raw.bare,
        locked: job.raw.locked,
        prunable: job.raw.prunable,
        missing,
        dirty,
        last_commit,
        last_active,
        last_active_utc,
    }
}


/// The path a `.git` file points to: its first line, trimmed, must begin with
/// `gitdir:`; what follows, trimmed, is the path, taken relative to the
/// directory of the `.git` file unless it is absolute.
pub open spec fn gitdir_target(dot_git_file: Seq<char>, text: Seq<char>) -> Option<Seq<char>> {
    let ls = lines(text);
    if ls.len() == 0 {
        None
    } else {
        let line = trim(ls[0]);
        if !starts_with(line, "gitdir:"@) {
            None
        } else {
            let rest = trim(line.skip("gitdir:"@.len() as int));
            if rest.len() > 0 && rest[0] == '/' {
                Some(rest)
            } else {
                match parent_path(dot_git_file) {
                    Some(dir) => Some(join_path(dir, rest)),
                    None => None,
                }
            }
        }
    }
}

/// Reads the target of a `.git` file (before it is made canonical).
pub fn gitdir_of(dot_git_file: &str, text: &str) -> (r: Option<String>)
    ensures
        match r {
            Some(p) => gitdir_target(dot_git_file@, text@) == Some(p@),
            None => gitdir_target(dot_git_file@, text@) is None,
        },
{
    let v = chars_of(text);
    let ls = split_lines(&v);
    if ls.len() == 0 {
        return None;
    }
    let first = &ls[0];
    let (a, b) = trim_bounds(first);
    let line = crate::text::slice_chars(first, a, b);
    let prefix = chars_of("gitdir:");
    if !starts_with_chars(&line, &prefix) {
        return None;
    }
    let after = slice_from(&line, prefix.len());
    let (c, d) = trim_bounds(&after);
    let rest = string_of_range(&after, c, d);
    let rv = chars_of(rest.as_str());
    if rv.len() > 0 && rv[0] == '/' {
        return Some(rest);
    }
    match path_parent(dot_git_file) {
        Some(dir) => Some(path_join(dir.as_str(), rest.as_str())),
        None => None,
    }
}

/// The common git directory named by a `commondir` file (read or not): the
/// git directory itself when there is no such file or it is blank, otherwise
/// the trimmed text joined onto the git directory.
pub open spec fn common_dir(git_dir: Seq<char>, commondir: Option<Seq<char>>) -> Seq<char> {
    match commondir {
        None => git_dir,
        Some(t) => if trim(t).len() == 0 {
            git_dir
        } else {
            join_path(git_dir, trim(t))
        },
    }
}

/// The common git directory of a git directory (before it is made canonical).
pub fn common_dir_of(git_dir: &str, commondir: Option<String>) -> (r: String)
    ensures
        r@ == common_dir(git_dir@, match commondir {
            Some(t) => Some(t@),
            None => None,
        }),
{
    match commondir {
        None => string_of(&chars_of(git_dir)),
        Some(t) => {
            let v = chars_of(t.as_str());
            let (a, b) = trim_bounds(&v);
            if a == b {
                string_of(&chars_of(git_dir))
            } else {
                let rel = string_of_range(&v, a, b);
                path_join(git_dir, rel.as_str())
            }
        },
    }
}

/// The directory names the search for repositories does not enter:
/// dependencies, build output, caches and the large folders of a home directory.
pub open spec fn skipped_names() -> Seq<Seq<char>> {
    seq![
        "node_modules"@,
        "target"@,
        "dist"@,
        ".next"@,
        "vendor"@,
        ".venv"@,
        "venv"@,
        "__pycache__"@,
        "Library"@,
        ".Trash"@,
        "Applications"@,
        "Pods"@,
        ".gradle"@,
        "DerivedData"@,
        ".cache"@,
        ".npm"@,
        ".cargo"@,
        ".rustup"@,
        "Pictures"@,
        "Movies"@,
        "Music"@,
    ]
}

/// Whether the search for repositories skips a directory of this name.
pub fn is_skipped_dir(name: &str) -> (b: bool)
    ensures
        b == skipped_names().contains(name@),
{
    let names: [&str; 21] = [
        "node_modules",
        "target",
        "dist",
        ".next",
        "vendor",
        ".venv",
        "venv",
        "__pycache__",
        "Library",
        ".Trash",
        "Applications",
        "Pods",
        ".gradle",
        "DerivedData",
        ".cache",
        ".npm",
        ".cargo",
        ".rustup",
        "Pictures",
        "Movies",
        "Music",
    ];
    let ghost views = names@.map_values(|n: &str| n@);
    assert(views =~= skipped_names());
    let mut i: usize = 0;
    while i < 21
        invariant
            i <= 21,
            names@.len() == 21,
            views == names@.map_values(|n: &str| n@),
            views == skipped_names(),
            forall|j: int| 0 <= j < i ==> views[j] != name@,
        decreases 21 - i,
    {
        if crate::text::same_text(names[i], name) {
            assert(views[i as int] == name@);
            return true;
        }
        i = i + 1;
    }
    false
}

/// Whether the search descends into a directory found at `depth`.
pub fn within_depth(depth: u8, max_depth: u8) -> (b: bool)
    ensures
        b == (depth < max_depth),
{
    depth < max_depth
}

/// The directories still to visit in a search, with their depths.
pub open spec fn pending_view(stack: Seq<(String, u8)>) -> Seq<(Seq<char>, u8)> {
    stack.map_values(|d: (String, u8)| (d.0@, d.1))
}

/// Whether `d` is, component by component, one of the directories `seen`.
pub open spec fn seen_place(seen: Seq<Seq<char>>, d: Seq<char>) -> bool {
    exists|j: int| 0 <= j < seen.len() && same_place(#[trigger] seen[j], d)
}

/// Where a search goes next: the last pending directory not visited yet (those
/// visited already, compared component by component, are dropped on the way),
/// and what is then left pending.
pub open spec fn next_visit(pending: Seq<(Seq<char>, u8)>, seen: Seq<Seq<char>>) -> (
    Option<(Seq<char>, u8)>,
    Seq<(Seq<char>, u8)>,
)
    decreases pending.len(),
{
    if pending.len() == 0 {
        (None, pending)
    } else if seen_place(seen, pending.last().0) {
        next_visit(pending.drop_last(), seen)
    } else {
        (Some(pending.last()), pending.drop_last())
    }
}

/// The subdirectories of `dir` that a search visits, from its listing: every
/// directory but those skipped by name, each at depth `depth` (one level
/// below `dir`).
pub open spec fn children(dir: Seq<char>, depth: u8, es: Seq<Entry>) -> Seq<(Seq<char>, u8)>
    decreases es.len(),
{
    if es.len() == 0 {
        Seq::empty()
    } else {
        children(dir, depth, es.drop_last()) + if es.last().is_dir && !skipped_names().contains(
            es.last().name@,
        ) {
            seq![(join_path(dir, es.last().name@), depth)]
        } else {
            Seq::<(Seq<char>, u8)>::empty()
        }
    }
}

/// Every subdirectory found in a listing is given the same depth.
pub proof fn lemma_children_depth(dir: Seq<char>, depth: u8, es: Seq<Entry>)
    ensures
        forall|i: int|
            0 <= i < children(dir, depth, es).len() ==> #[trigger] children(dir, depth, es)[i].1
                == depth,
    decreases es.len(),
{
    if es.len() > 0 {
        lemma_children_depth(dir, depth, es.drop_last());
        let pre = children(dir, depth, es.drop_last());
        let all = children(dir, depth, es);
        assert forall|i: int| 0 <= i < all.len() implies #[trigger] all[i].1 == depth by {
            if i < pre.len() {
                assert(all[i] == pre[i]);
            }
        }
    }
}

/// A search never goes below its maximum depth: when every pending directory
/// is within it and the subdirectories added are within it too, the same
/// holds after.
pub proof fn lemma_search_depth(
    pending: Seq<(Seq<char>, u8)>,
    dir: Seq<char>,
    depth: u8,
    max_depth: u8,
    es: Seq<Entry>,
)
    requires
        forall|i: int| 0 <= i < pending.len() ==> #[trigger] pending[i].1 <= max_depth,
        depth <= max_depth,
    ensures
        forall|i: int|
            0 <= i < (pending + children(dir, depth, es)).len() ==> #[trigger] (pending + children(
                dir,
                depth,
                es,
            ))[i].1 <= max_depth,
{
    lemma_children_depth(dir, depth, es);
    let all = pending + children(dir, depth, es);
    assert forall|i: int| 0 <= i < all.len() implies #[trigger] all[i].1 <= max_depth by {
        if i < pending.len() {
            assert(all[i] == pending[i]);
        } else {
            assert(all[i] == children(dir, depth, es)[i - pending.len()]);
        }
    }
}

/// What a search leaves pending after its next visit keeps the first
/// pending directories as they were.
proof fn lemma_next_visit_prefix(pending: Seq<(Seq<char>, u8)>, seen: Seq<Seq<char>>)
    ensures
        next_visit(pending, seen).1.len() <= pending.len(),
        forall|i: int|
            0 <= i < next_visit(pending, seen).1.len() ==> #[trigger] next_visit(pending, seen).1[i]
                == pending[i],
    decreases pending.len(),
{
    if pending.len() > 0 && seen_place(seen, pending.last().0) {
        lemma_next_visit_prefix(pending.drop_last(), seen);
    }
}

proof fn lemma_prefix_within(p: Seq<(Seq<char>, u8)>, q: Seq<(Seq<char>, u8)>, m: u8)
    requires
        q.len() <= p.len(),
        forall|i: int| 0 <= i < q.len() ==> #[trigger] q[i] == p[i],
        forall|i: int| 0 <= i < p.len() ==> #[trigger] p[i].1 <= m,
    ensures
        forall|i: int| 0 <= i < q.len() ==> #[trigger] q[i].1 <= m,
{
    assert forall|i: int| 0 <= i < q.len() implies #[trigger] q[i].1 <= m by {
        assert(q[i] == p[i]);
    }
}

/// The error of a scan root that does not exist: `不存在: <root>`.
pub fn missing_root(root: &str) -> (e: String)
    ensures
        e@ == "不存在: "@ + root@,
{
    let mut e = String::new();
    push_str(&mut e, "不存在: ");
    push_str(&mut e, root);
    e
}

/// What a search does at a directory it visits.
#[derive(Debug, Clone, Copy, PartialEq, Eq, Structural)]
pub enum VisitAction {
    /// The directory holds `.git`: its repository is recorded, and the search
    /// does not go into it.
    Record,
    /// The directory is listed, and its subdirectories are visited.
    List,
    /// The directory is at the maximum depth: nothing more is done there.
    Skip,
}

/// What to do at a directory visited at `depth`, given whether it holds `.git`.
pub fn visit_action(has_git: bool, depth: u8, max_depth: u8) -> (a: VisitAction)
    ensures
        a == if has_git {
            VisitAction::Record
        } else if depth < max_depth {
            VisitAction::List
        } else {
            VisitAction::Skip
        },
{
    if has_git {
        VisitAction::Record
    } else if within_depth(depth, max_depth) {
        VisitAction::List
    } else {
        VisitAction::Skip
    }
}

/// The search for repositories below one root, depth first: the directories
/// still to visit, each with its depth below the root; the directories
/// visited already; and the directory whose listing is awaited, with the
/// depth its subdirectories get.
pub struct DirWalk {
    pub stack: Vec<(String, u8)>,
    pub seen: Vec<String>,
    pub opened: Option<(String, u8)>,
}

impl DirWalk {
    /// The directories still to visit.
    pub open spec fn pending(&self) -> Seq<(Seq<char>, u8)> {
        pending_view(self.stack@)
    }

    /// The directories visited already.
    pub open spec fn visited(&self) -> Seq<Seq<char>> {
        self.seen@.map_values(|d: String| d@)
    }

    /// The directory whose listing is awaited, with the depth of its subdirectories.
    pub open spec fn awaiting(&self) -> Option<(Seq<char>, u8)> {
        match self.opened {
            Some(d) => Some((d.0@, d.1)),
            None => None,
        }
    }

    /// Whether nothing pending or awaited lies below `max_depth`.
    pub open spec fn within(&self, max_depth: u8) -> bool {
        &&& forall|i: int|
            0 <= i < self.pending().len() ==> #[trigger] self.pending()[i].1 <= max_depth
        &&& match self.awaiting() {
            Some(d) => d.1 <= max_depth,
            None => true,
        }
    }

    /// A search that starts at `root`, at depth 0.
    pub fn new(root: &str) -> (w: DirWalk)
        ensures
            w.pending() == seq![(root@, 0u8)],
            w.visited() == Seq::<Seq<char>>::empty(),
            w.awaiting() is None,
    {
        let mut stack: Vec<(String, u8)> = Vec::new();
        stack.push((string_of(&chars_of(root)), 0u8));
        let w = DirWalk { stack, seen: Vec::new(), opened: None };
        assert(w.pending() =~= seq![(root@, 0u8)]);
        assert(w.visited() =~= Seq::<Seq<char>>::empty());
        w
    }

    fn was_visited(&self, dir: &String) -> (b: bool)
        ensures
            b == seen_place(self.visited(), dir@),
    {
        let mut i: usize = 0;
        while i < self.seen.len()
            invariant
                i <= self.seen@.len(),
                forall|j: int| 0 <= j < i ==> !same_place(self.seen@[j]@, dir@),
            decreases self.seen@.len() - i,
        {
            if same_path(self.seen[i].as_str(), dir.as_str()) {
                assert(same_place(self.visited()[i as int], dir@));
                return true;
            }
            i = i + 1;
        }
        proof {
            if seen_place(self.visited(), dir@) {
                let j = choose|j: int|
                    0 <= j < self.visited().len() && same_place(#[trigger] self.visited()[j], dir@);
                assert(self.visited()[j] == self.seen@[j]@);
            }
        }
        false
    }

    /// The next directory to visit, marked visited; `None` when the search
    /// is over. A directory is visited at most once, its paths compared
    /// component by component.
    pub fn next(&mut self) -> (r: Option<(String, u8)>)
        ensures
            next_visit(old(self).pending(), old(self).visited()).1 == final(self).pending(),
            final(self).awaiting() == old(self).awaiting(),
            forall|m: u8| old(self).within(m) ==> #[trigger] final(self).within(m),
            match r {
                Some(d) => {
                    &&& next_visit(old(self).pending(), old(self).visited()).0 == Some((d.0@, d.1))
                    &&& !seen_place(old(self).visited(), d.0@)
                    &&& final(self).visited() == old(self).visited().push(d.0@)
                },
                None => {
                    &&& next_visit(old(self).pending(), old(self).visited()).0 is None
                    &&& final(self).visited() == old(self).visited()
                },
            },
    {
        let ghost start = next_visit(self.pending(), self.visited());
        let ghost seen0 = self.visited();
        proof {
            lemma_next_visit_prefix(self.pending(), self.visited());
        }
        while self.stack.len() > 0
            invariant
                next_visit(self.pending(), self.visited()) == start,
                self.visited() == seen0,
                seen0 == old(self).visited(),
                self.opened == old(self).opened,
                start == next_visit(old(self).pending(), old(self).visited()),
                start.1.len() <= old(self).pending().len(),
                forall|i: int| 0 <= i < start.1.len() ==> #[trigger] start.1[i] == old(self).pending()[i],
            decreases self.stack@.len(),
        {
            let ghost before = self.stack@;
            let top = self.stack.pop().unwrap();
            assert(self.stack@ == before.drop_last());
            assert(self.pending() =~= pending_view(before).drop_last());
            assert(pending_view(before).last() == (top.0@, top.1));
            if !self.was_visited(&top.0) {
                let d = top.0.clone();
                self.seen.push(d);
                assert(self.visited() =~= seen0.push(top.0@));
                assert(self.pending() == start.1);
                assert forall|m: u8| old(self).within(m) implies #[trigger] self.within(m) by {
                    lemma_prefix_within(old(self).pending(), self.pending(), m);
                }
                return Some(top);
            }
        }
        assert(self.pending() =~= Seq::<(Seq<char>, u8)>::empty());
        assert(self.pending() == start.1);
        assert forall|m: u8| old(self).within(m) implies #[trigger] self.within(m) by {
            lemma_prefix_within(old(self).pending(), self.pending(), m);
        }
        None
    }

    /// Decides what to do at `dir`, just visited at `depth`, given whether it
    /// holds `.git`. Only a directory to list is opened for its listing: the
    /// search never goes into a repository, nor below `max_depth`.
    pub fn visit(&mut self, dir: &str, depth: u8, max_depth: u8, has_git: bool) -> (a: VisitAction)
        ensures
            a == if has_git {
                VisitAction::Record
            } else if depth < max_depth {
                VisitAction::List
            } else {
                VisitAction::Skip
            },
            final(self).pending() == old(self).pending(),
            final(self).visited() == old(self).visited(),
            final(self).awaiting() == if a == VisitAction::List {
                Some((dir@, (depth + 1) as u8))
            } else {
                None
            },
            a == VisitAction::List ==> depth + 1 <= max_depth,
            old(self).within(max_depth) ==> final(self).within(max_depth),
    {
        let a = visit_action(has_git, depth, max_depth);
        if a == VisitAction::List {
            self.opened = Some((string_of(&chars_of(dir)), depth + 1));
        } else {
            self.opened = None;
        }
        assert(self.pending() == old(self).pending());
        a
    }

    /// Adds the subdirectories of the directory opened by `visit`, from its
    /// listing: every directory that is not skipped by name, in the order of
    /// the listing (they are visited last first); nothing when no directory
    /// is open. The directory is closed after.
    pub fn expand(&mut self, entries: &Vec<Entry>)
        ensures
            final(self).visited() == old(self).visited(),
            final(self).awaiting() is None,
            final(self).pending() == old(self).pending() + match old(self).awaiting() {
                Some(d) => children(d.0, d.1, entries@),
                None => Seq::<(Seq<char>, u8)>::empty(),
            },
            forall|m: u8| old(self).within(m) ==> #[trigger] final(self).within(m),
    {
        let (dir, depth) = match self.opened.take() {
            Some(d) => d,
            None => {
                assert(self.pending() =~= old(self).pending() + Seq::<(Seq<char>, u8)>::empty());
                return;
            },
        };
        let ghost base = self.pending();
        let mut i: usize = 0;
        assert(entries@.take(0) =~= Seq::<Entry>::empty());
        assert(self.pending() =~= base + children(dir@, depth, entries@.take(0)));
        while i < entries.len()
            invariant
                i <= entries@.len(),
                self.visited() == old(self).visited(),
                self.opened is None,
                base == old(self).pending(),
                self.pending() == base + children(dir@, depth, entries@.take(i as int)),
            decreases entries@.len() - i,
        {
            let e = &entries[i];
            proof {
                assert(entries@.take(i + 1).drop_last() =~= entries@.take(i as int));
                assert(entries@.take(i + 1).last() == entries@[i as int]);
            }
            if e.is_dir && !is_skipped_dir(e.name.as_str()) {
                let p = path_join(dir.as_str(), e.name.as_str());
                let ghost before = self.stack@;
                self.stack.push((p, depth));
                assert(self.pending() =~= pending_view(before).push((p@, depth)));
            }
            i = i + 1;
        }
        assert(entries@.take(entries@.len() as int) =~= entries@);
        assert forall|m: u8| old(self).within(m) implies #[trigger] self.within(m) by {
            lemma_search_depth(base, dir@, depth, m, entries@);
        }
    }
}

/// The message of a failed git command: its trimmed error output, or
/// `git <args> 失败` when that is empty.
pub open spec fn git_failure_text(stderr: Seq<char>, args: Seq<Seq<char>>) -> Seq<char> {
    if trim(stderr).len() > 0 {
        trim(stderr)
    } else {
        "git "@ + crate::text::joined(args, " "@) + " 失败"@
    }
}

/// Describes a failed git command.
pub fn git_failure(stderr: &str, args: &Vec<String>) -> (r: String)
    ensures
        r@ == git_failure_text(stderr@, args@.map_values(|a: String| a@)),
{
    let v = chars_of(stderr);
    let (a, b) = trim_bounds(&v);
    if b > a {
        return string_of_range(&v, a, b);
    }
    let mut out = String::new();
    push_str(&mut out, "git ");
    crate::text::push_joined(&mut out, args, " ");
    push_str(&mut out, " 失败");
    out
}

/// `s` without the line feeds and carriage returns at its end.
pub open spec fn trim_newlines(s: Seq<char>) -> Seq<char>
    decreases s.len(),
{
    if s.len() > 0 && (s.last() == '\n' || s.last() == '\r') {
        trim_newlines(s.drop_last())
    } else {
        s
    }
}

/// The output of a git command without its final line breaks.
pub fn git_stdout(text: &str) -> (r: String)
    ensures
        r@ == trim_newlines(text@),
{
    let v = chars_of(text);
    let mut n = v.len();
    assert(v@.take(n as int) == v@);
    while n > 0 && (v[n - 1] == '\n' || v[n - 1] == '\r')
        invariant
            n <= v@.len(),
            trim_newlines(v@) == trim_newlines(v@.take(n as int)),
        decreases n,
    {
        assert(v@.take(n as int).drop_last() == v@.take(n - 1));
        n = n - 1;
    }
    string_of_range(&v, 0, n)
}

/// The number of repositories among worktrees: their distinct common git
/// directories, compared component by component.
pub open spec fn repo_count(ws: Seq<Worktree>) -> nat {
    ws.map_values(|w: Worktree| path_key(w.git_common_dir@)).to_set().len()
}

/// Counts the repositories of the worktrees.
pub fn count_repos(ws: &Vec<Worktree>) -> (n: usize)
    ensures
        n == repo_count(ws@),
{
    let ghost dirs = ws@.map_values(|w: Worktree| path_key(w.git_common_dir@));
    let mut seen: Vec<String> = Vec::new();
    let mut i: usize = 0;
    proof {
        assert(dirs.take(0).to_set() =~= Set::<(bool, bool, Seq<Seq<char>>)>::empty());
        assert(seen@.map_values(|s: String| path_key(s@)).to_set() =~= Set::<
            (bool, bool, Seq<Seq<char>>),
        >::empty());
    }
    while i < ws.len()
        invariant
            i <= ws@.len(),
            dirs == ws@.map_values(|w: Worktree| path_key(w.git_common_dir@)),
            seen@.map_values(|s: String| path_key(s@)).to_set() == dirs.take(i as int).to_set(),
            seen@.map_values(|s: String| path_key(s@)).no_duplicates(),
            seen@.len() <= i,
        decreases ws@.len() - i,
    {
        let ghost before = seen@.map_values(|s: String| path_key(s@));
        let d = &ws[i].git_common_dir;
        let found = contains_text(&seen, d);
        assert(dirs.take(i + 1) == dirs.take(i as int).push(path_key(d@)));
        assert(dirs.take(i + 1).to_set() == dirs.take(i as int).to_set().insert(path_key(d@))) by {
            dirs.take(i as int).lemma_push_to_set_commute(path_key(d@));
        }
        if !found {
            seen.push(d.clone());
            proof {
                assert(seen@.map_values(|s: String| path_key(s@)) == before.push(path_key(d@)));
                assert(!before.contains(path_key(d@))) by {
                    if before.contains(path_key(d@)) {
                        let j = choose|j: int| 0 <= j < before.len() && before[j] == path_key(d@);
                        assert(same_place(seen@[j]@, d@));
                    }
                }
                assert(before.push(path_key(d@)).to_set() =~= before.to_set().insert(path_key(d@))) by {
                    before.lemma_push_to_set_commute(path_key(d@));
                }
            }
        } else {
            proof {
                let j = choose|j: int| 0 <= j < seen@.len() && same_place((#[trigger] seen@[j])@, d@);
                assert(before[j] == path_key(d@));
                assert(before.to_set().contains(path_key(d@)));
                assert(before.to_set().insert(path_key(d@)) =~= before.to_set());
            }
        }
        i = i + 1;
    }
    proof {
        assert(dirs.take(ws@.len() as int) == dirs);
        let sv = seen@.map_values(|s: String| path_key(s@));
        sv.unique_seq_to_set();
    }
    seen.len()
}

/// What a scan found: the number of repositories, their worktrees, and the
/// errors met on the way.
#[derive(Debug)]
pub struct ScanResult {
    pub repos: usize,
    pub worktrees: Vec<Worktree>,
    pub errors: Vec<String>,
}

/// A scan made into a view: its worktrees filtered and sorted by
/// `apply_view`, and the repositories counted among those shown.
pub fn view_scan(result: ScanResult, older_than_secs: Option<i64>, now: i64) -> (r: ScanResult)
    ensures
        r.worktrees@.to_multiset() == view_kept(result.worktrees@, older_than_secs, now).to_multiset(),
        view_sorted(r.worktrees@),
        r.repos == repo_count(r.worktrees@),
        r.errors == result.errors,
{
    let worktrees = apply_view(result.worktrees, older_than_secs, now);
    let repos = count_repos(&worktrees);
    ScanResult { repos, worktrees, errors: result.errors }
}

/// A linked or main worktree of `/repos/<repo>` for examples and tests: clean,
/// on branch `main` (the main checkout) or `feature`, last active at `last_active`.
pub fn fixture(path: &str, repo: &str, main: bool, last_active: Option<i64>) -> (wt: Worktree)
    ensures
        wt.path@ == path@,
        wt.parent@ == match parent_path(path@) {
            Some(q) => q,
            None => Seq::<char>::empty(),
        },
        wt.repo@ == repo@,
        wt.repo_root@ == "/repos/"@ + repo@,
        wt.git_common_dir@ == "/repos/"@ + repo@ + "/.git"@,
        wt.branch@ == if main {
            "main"@
        } else {
            "feature"@
        },
        wt.head@ == "abc"@,
        wt.main == main,
        !wt.bare && !wt.locked && !wt.prunable && !wt.missing,
        wt.dirty == Some(false),
        wt.last_commit == last_active,
        wt.last_active == last_active,
        match last_active {
            Some(ts) => wt.last_active_utc is Some && wt.last_active_utc->0@ == utc_text(ts as int),
            None => wt.last_active_utc is None,
        },
{
    let mut root = String::new();
    push_str(&mut root, "/repos/");
    push_str(&mut root, repo);
    let mut common = String::new();
    push_str(&mut common, "/repos/");
    push_str(&mut common, repo);
    push_str(&mut common, "/.git");
    let mut branch = String::new();
    if main {
        push_str(&mut branch, "main");
    } else {
        push_str(&mut branch, "feature");
    }
    let mut head = String::new();
    push_str(&mut head, "abc");
    Worktree {
        path: string_of(&chars_of(path)),
        parent: match path_parent(path) {
            Some(q) => q,
            None => String::new(),
        },
        repo: string_of(&chars_of(repo)),
        repo_root: root,
        git_common_dir: common,
        branch,
        head,
        main,
        bare: false,
        locked: false,
        prunable: false,
        missing: false,
        dirty: Some(false),
        last_commit: last_active,
        last_active,
        last_active_utc: match last_active {
            Some(ts) => Some(format_utc(ts)),
            None => None,
        },
    }
}

} // verus!
