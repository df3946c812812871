use vstd::prelude::*;

use crate::paths::{
    join_path, lemma_path_views_push, path_join, path_views, same_path, same_place, Entry,
};
use crate::scan::{is_deletable, Worktree};
use crate::text::{
    owned,
    after_first_word, chars_of, contains_chars, contains_seq, first_word, joined, lines,
    next_word, push_decimal, push_joined, push_str, same_chars, split_lines, string_of,
    string_of_range, trim, trim_bounds, dec,
};

verus! {

/// What becomes of the branches of deleted worktrees.
#[derive(Debug, Clone, Copy, PartialEq, Eq, Structural)]
pub enum BranchScope {
    Keep,
    Local,
    GitHub,
}

/// The scope that follows `s` in the cycle keep, local, local and GitHub.
pub open spec fn scope_after(s: BranchScope) -> BranchScope {
    match s {
        BranchScope::Keep => BranchScope::Local,
        BranchScope::Local => BranchScope::GitHub,
        BranchScope::GitHub => BranchScope::Keep,
    }
}

/// The label of a scope.
pub open spec fn scope_label(s: BranchScope) -> Seq<char> {
    match s {
        BranchScope::Keep => "keep"@,
        BranchScope::Local => "local"@,
        BranchScope::GitHub => "local+GitHub"@,
    }
}

impl BranchScope {
    /// The label shown for the scope.
    pub fn label(self) -> (s: &'static str)
        ensures
            s@ == scope_label(self),
    {
        match self {
            BranchScope::Keep => "keep",
            BranchScope::Local => "local",
            BranchScope::GitHub => "local+GitHub",
        }
    }

    /// The next scope in the cycle.
    pub fn next(self) -> (r: Self)
        ensures
            r == scope_after(self),
    {
        match self {
            BranchScope::Keep => BranchScope::Local,
            BranchScope::Local => BranchScope::GitHub,
            BranchScope::GitHub => BranchScope::Keep,
        }
    }
}

impl Default for BranchScope {
    /// Branches are kept unless asked otherwise.
    fn default() -> (r: Self)
        ensures
            r == BranchScope::Keep,
    {
        BranchScope::Keep
    }
}

/// Stepping through the scopes comes back to the start after three steps, and
/// passes through three different scopes.
pub proof fn lemma_scope_cycle(s: BranchScope)
    ensures
        scope_after(scope_after(scope_after(s))) == s,
        scope_after(s) != s,
        scope_after(scope_after(s)) != s,
{
}

/// What became of one worktree asked to be deleted.
#[derive(Debug)]
pub struct DeleteOutcome {
    pub path: String,
    pub error: Option<String>,
}

/// What a deletion did: each worktree, then notes on their branches.
#[derive(Debug)]
pub struct DeleteReport {
    pub worktrees: Vec<DeleteOutcome>,
    pub branch_notes: Vec<String>,
}

/// What a clean-up of dependency directories did.
#[derive(Debug)]
pub struct CleanOutcome {
    pub removed: Vec<String>,
    pub errors: Vec<String>,
}

/// The message refusing to delete a main checkout.
pub open spec fn main_checkout_refusal() -> Seq<char> {
    "refusing to delete the main checkout"@
}

/// Why a worktree may not be deleted, if it may not: the main checkout (or a
/// bare repository, or a worktree at the repository root) never; without
/// `force`, a locked worktree, or one that is present and not known to be clean.
pub open spec fn delete_refusal(wt: Worktree, force: bool) -> Option<Seq<char>> {
    if wt.main || wt.bare || same_place(wt.path@, wt.repo_root@) {
        Some(main_checkout_refusal())
    } else if !force && wt.locked {
        Some("locked; press f to force"@)
    } else if !force && !wt.missing && wt.dirty != Some(false) {
        Some("not a clean worktree (不干净); press f to force"@)
    } else {
        None
    }
}

/// What a deletion refuses, stated rule by rule: the main checkout, a bare
/// repository and a worktree at the repository root always, with the same
/// message; without force, a locked worktree (whatever its state), and a
/// present worktree not known to be clean; with force, nothing else. A
/// worktree that is none of these is deleted.
pub proof fn lemma_refusal_rules(wt: Worktree, force: bool)
    ensures
        wt.main || wt.bare || same_place(wt.path@, wt.repo_root@) ==> delete_refusal(wt, force)
            == Some(main_checkout_refusal()),
        !force && wt.locked ==> delete_refusal(wt, force) is Some,
        !force && wt.locked && !(wt.main || wt.bare || same_place(wt.path@, wt.repo_root@))
            ==> delete_refusal(wt, force) == Some("locked; press f to force"@),
        !force && !wt.missing && wt.dirty != Some(false) ==> delete_refusal(wt, force) is Some,
        force && !(wt.main || wt.bare || same_place(wt.path@, wt.repo_root@)) ==> delete_refusal(
            wt,
            force,
        ) is None,
        !(wt.main || wt.bare || same_place(wt.path@, wt.repo_root@)) && !wt.locked && (wt.missing
            || wt.dirty == Some(false)) ==> delete_refusal(wt, force) is None,
{
}

/// The arguments of `git worktree remove` for a worktree.
pub open spec fn remove_args(wt: Worktree, force: bool) -> Seq<Seq<char>> {
    if force {
        seq!["worktree"@, "remove"@, "--force"@, "--force"@, wt.path@]
    } else {
        seq!["worktree"@, "remove"@, wt.path@]
    }
}

/// Decides whether a worktree may be deleted: the refusal, or the arguments
/// of the `git worktree remove` that deletes it (`--force` twice when forced,
/// which removes dirty and locked worktrees too).
pub fn delete_one(wt: &Worktree, force: bool) -> (r: Result<Vec<String>, String>)
    ensures
        match r {
            Err(e) => delete_refusal(*wt, force) == Some(e@),
            Ok(args) => delete_refusal(*wt, force) is None && args@.map_values(|a: String| a@)
                == remove_args(*wt, force),
        },
{
    if wt.main || wt.bare || same_path(wt.path.as_str(), wt.repo_root.as_str()) {
        return Err(owned("refusing to delete the main checkout"));
    }
    if !force {
        if wt.locked {
            return Err(owned("locked; press f to force"));
        }
        if !wt.missing && wt.dirty != Some(false) {
            return Err(owned("not a clean worktree (不干净); press f to force"));
        }
    }
    let mut args: Vec<String> = Vec::new();
    args.push(owned("worktree"));
    args.push(owned("remove"));
    if force {
        args.push(owned("--force"));
        args.push(owned("--force"));
    }
    args.push(wt.path.clone());
    assert(args@.map_values(|a: String| a@) =~= remove_args(*wt, force));
    Ok(args)
}

/// The arguments that point git at the repository of `wt`: `-C` and its root
/// when the root exists, else `--git-dir` and its common git directory.
pub open spec fn repo_args(wt: Worktree, root_exists: bool) -> Seq<Seq<char>> {
    if root_exists {
        seq!["-C"@, wt.repo_root@]
    } else {
        seq!["--git-dir"@, wt.git_common_dir@]
    }
}

/// The arguments that point git at the repository of a worktree.
pub fn git_target_args(wt: &Worktree, root_exists: bool) -> (r: Vec<String>)
    ensures
        path_views(r@) == repo_args(*wt, root_exists),
{
    let mut r: Vec<String> = Vec::new();
    if root_exists {
        r.push(owned("-C"));
        r.push(wt.repo_root.clone());
    } else {
        r.push(owned("--git-dir"));
        r.push(wt.git_common_dir.clone());
    }
    assert(path_views(r@) =~= repo_args(*wt, root_exists));
    r
}

/// The whole git command line that deletes a worktree, or the refusal: the
/// repository arguments, then those of `git worktree remove`.
pub fn removal_command(wt: &Worktree, force: bool, root_exists: bool) -> (r: Result<
    Vec<String>,
    String,
>)
    ensures
        match r {
            Err(e) => delete_refusal(*wt, force) == Some(e@),
            Ok(args) => delete_refusal(*wt, force) is None && path_views(args@) == repo_args(
                *wt,
                root_exists,
            ) + remove_args(*wt, force),
        },
{
    let rest = match delete_one(wt, force) {
        Err(e) => {
            return Err(e);
        },
        Ok(args) => args,
    };
    let mut all = git_target_args(wt, root_exists);
    let mut i: usize = 0;
    let ghost start = path_views(all@);
    while i < rest.len()
        invariant
            i <= rest@.len(),
            path_views(all@) == start + path_views(rest@).take(i as int),
        decreases rest@.len() - i,
    {
        proof {
            lemma_path_views_push(all@, rest@[i as int]);
            assert(path_views(rest@).take(i + 1) =~= path_views(rest@).take(i as int).push(
                rest@[i as int]@,
            ));
        }
        all.push(rest[i].clone());
        i = i + 1;
    }
    assert(path_views(rest@).take(rest@.len() as int) =~= path_views(rest@));
    assert(path_views(rest@) == rest@.map_values(|a: String| a@));
    Ok(all)
}

/// What a git command came to: nothing when it succeeded, else its error
/// text (its trimmed error output, or `fallback` when that is empty).
pub fn git_outcome(success: bool, stderr: &str, fallback: &str) -> (r: Result<(), String>)
    ensures
        success ==> r is Ok,
        !success ==> r is Err && r->Err_0@ == git_error_text(stderr@, fallback@),
{
    if success {
        Ok(())
    } else {
        Err(git_err(stderr, fallback))
    }
}

/// The index of the first worktree at `path`, if any.
pub open spec fn first_at(items: Seq<Worktree>, path: Seq<char>) -> Option<int> {
    if exists|k: int| 0 <= k < items.len() && same_place((#[trigger] items[k]).path@, path) {
        Some(
            choose|k: int|
                0 <= k < items.len() && same_place((#[trigger] items[k]).path@, path) && forall|j: int|
                    0 <= j < k ==> !same_place(items[j].path@, path),
        )
    } else {
        None
    }
}

proof fn lemma_first_at(items: Seq<Worktree>, path: Seq<char>, k: int)
    requires
        0 <= k < items.len(),
        same_place(items[k].path@, path),
        forall|j: int| 0 <= j < k ==> !same_place(items[j].path@, path),
    ensures
        first_at(items, path) == Some(k),
{
    let c = choose|c: int|
        0 <= c < items.len() && same_place((#[trigger] items[c]).path@, path) && forall|j: int|
            0 <= j < c ==> !same_place(items[j].path@, path);
    assert(0 <= c < items.len() && same_place(items[c].path@, path) && forall|j: int|
        0 <= j < c ==> !same_place(items[j].path@, path));
    if c < k {
        assert(!same_place(items[c].path@, path));
    } else if c > k {
        assert(!same_place(items[k].path@, path));
    }
}

/// The first worktree at a path is at that path, and is the first there.
pub proof fn lemma_first_at_found(items: Seq<Worktree>, path: Seq<char>)
    ensures
        match first_at(items, path) {
            Some(k) => 0 <= k < items.len() && same_place(items[k].path@, path),
            None => forall|k: int| 0 <= k < items.len() ==> !same_place(items[k].path@, path),
        },
{
    if exists|k: int| 0 <= k < items.len() && same_place((#[trigger] items[k]).path@, path) {
        let w = choose|k: int| 0 <= k < items.len() && same_place((#[trigger] items[k]).path@, path);
        lemma_least_at(items, path, w);
    }
}

proof fn lemma_least_at(items: Seq<Worktree>, path: Seq<char>, w: int)
    requires
        0 <= w < items.len(),
        same_place(items[w].path@, path),
    ensures
        exists|k: int|
            0 <= k < items.len() && same_place((#[trigger] items[k]).path@, path) && forall|j: int|
                0 <= j < k ==> !same_place(items[j].path@, path),
    decreases w,
{
    if exists|j: int| 0 <= j < w && same_place(items[j].path@, path) {
        let j = choose|j: int| 0 <= j < w && same_place(items[j].path@, path);
        lemma_least_at(items, path, j);
    } else {
        assert(same_place(items[w].path@, path) && forall|j: int| 0 <= j < w ==> !same_place(items[j].path@, path));
    }
}

/// Finds the first worktree at `path`.
pub fn find_item(items: &Vec<Worktree>, path: &String) -> (r: Option<usize>)
    ensures
        match r {
            Some(k) => k < items@.len() && same_place(items@[k as int].path@, path@) && first_at(items@, path@)
                == Some(k as int),
            None => first_at(items@, path@) is None,
        },
{
    let mut k: usize = 0;
    while k < items.len()
        invariant
            k <= items@.len(),
            forall|j: int| 0 <= j < k ==> !same_place(items@[j].path@, path@),
        decreases items@.len() - k,
    {
        if same_path(items[k].path.as_str(), path.as_str()) {
            proof {
                lemma_first_at(items@, path@, k as int);
            }
            return Some(k);
        }
        k = k + 1;
    }
    None
}

/// The worktrees asked for, in the order asked: for each path the first
/// worktree there; paths that match none are passed over.
pub open spec fn targets(items: Seq<Worktree>, paths: Seq<Seq<char>>) -> Seq<int>
    decreases paths.len(),
{
    if paths.len() == 0 {
        Seq::empty()
    } else {
        targets(items, paths.drop_last()) + match first_at(items, paths.last()) {
            Some(k) => seq![k],
            None => Seq::<int>::empty(),
        }
    }
}

proof fn lemma_targets_step(items: Seq<Worktree>, ps: Seq<Seq<char>>, i: int)
    requires
        0 <= i < ps.len(),
    ensures
        targets(items, ps.take(i + 1)) == targets(items, ps.take(i)) + match first_at(
            items,
            ps[i],
        ) {
            Some(k) => seq![k],
            None => Seq::<int>::empty(),
        },
{
    assert(ps.take(i + 1).drop_last() =~= ps.take(i));
    assert(ps.take(i + 1).last() == ps[i]);
}

proof fn lemma_push_index(before: Seq<usize>, k: usize)
    ensures
        before.push(k).map_values(|x: usize| x as int) =~= before.map_values(|x: usize| x as int).push(
            k as int,
        ),
{
}

/// The indices of the worktrees to delete or clean, one per path asked for.
pub fn delete_targets(items: &Vec<Worktree>, paths: &Vec<String>) -> (r: Vec<usize>)
    ensures
        r@.map_values(|k: usize| k as int) == targets(items@, paths@.map_values(|p: String| p@)),
        forall|i: int| 0 <= i < r@.len() ==> #[trigger] r@[i] < items@.len(),
{
    let ghost ps = paths@.map_values(|p: String| p@);
    let mut r: Vec<usize> = Vec::new();
    let mut i: usize = 0;
    proof {
        assert(ps.take(0) =~= Seq::<Seq<char>>::empty());
        assert(r@.map_values(|k: usize| k as int) =~= Seq::<int>::empty());
    }
    while i < paths.len()
        invariant
            i <= paths@.len(),
            ps == paths@.map_values(|p: String| p@),
            r@.map_values(|k: usize| k as int) == targets(items@, ps.take(i as int)),
            forall|j: int| 0 <= j < r@.len() ==> #[trigger] r@[j] < items@.len(),
        decreases paths@.len() - i,
    {
        let ghost before = r@;
        let found = find_item(items, &paths[i]);
        proof {
            lemma_targets_step(items@, ps, i as int);
        }
        match found {
            Some(k) => {
                r.push(k);
                proof {
                    lemma_push_index(before, k);
                }
            },
            None => {},
        }
        i = i + 1;
    }
    assert(ps.take(paths@.len() as int) =~= ps);
    r
}

/// The error text of an outcome, if any.
pub open spec fn error_view(e: Option<String>) -> Option<Seq<char>> {
    match e {
        Some(t) => Some(t@),
        None => None,
    }
}

/// The targets whose deletion succeeded (no error), in order.
pub open spec fn succeeded(targets: Seq<usize>, errors: Seq<Option<String>>) -> Seq<usize>
    decreases targets.len(),
{
    if targets.len() == 0 {
        Seq::empty()
    } else {
        succeeded(targets.drop_last(), errors) + if errors[targets.len() - 1] is None {
            seq![targets.last()]
        } else {
            Seq::<usize>::empty()
        }
    }
}

/// The paths asked for that match a worktree, in order: those that
/// `targets` finds a worktree for.
pub open spec fn matched(items: Seq<Worktree>, paths: Seq<Seq<char>>) -> Seq<Seq<char>>
    decreases paths.len(),
{
    if paths.len() == 0 {
        Seq::empty()
    } else {
        matched(items, paths.drop_last()) + if first_at(items, paths.last()) is Some {
            seq![paths.last()]
        } else {
            Seq::<Seq<char>>::empty()
        }
    }
}

/// The paths asked for that match a worktree, in order, one per target.
pub fn matched_paths(items: &Vec<Worktree>, paths: &Vec<String>) -> (r: Vec<String>)
    ensures
        path_views(r@) == matched(items@, path_views(paths@)),
{
    let ghost ps = path_views(paths@);
    let mut r: Vec<String> = Vec::new();
    let mut i: usize = 0;
    proof {
        assert(ps.take(0) =~= Seq::<Seq<char>>::empty());
        assert(path_views(r@) =~= Seq::<Seq<char>>::empty());
    }
    while i < paths.len()
        invariant
            i <= paths@.len(),
            ps == path_views(paths@),
            path_views(r@) == matched(items@, ps.take(i as int)),
        decreases paths@.len() - i,
    {
        proof {
            assert(ps.take(i + 1).drop_last() =~= ps.take(i as int));
            assert(ps.take(i + 1).last() == paths@[i as int]@);
        }
        let found = find_item(items, &paths[i]);
        if found.is_some() {
            proof {
                lemma_path_views_push(r@, paths@[i as int]);
            }
            r.push(paths[i].clone());
        } else {
            assert(path_views(r@) + Seq::<Seq<char>>::empty() =~= path_views(r@));
        }
        i = i + 1;
    }
    assert(ps.take(paths@.len() as int) =~= ps);
    r
}

/// There is one matched path per target.
pub proof fn lemma_matched_targets(items: Seq<Worktree>, paths: Seq<Seq<char>>)
    ensures
        matched(items, paths).len() == targets(items, paths).len(),
    decreases paths.len(),
{
    if paths.len() > 0 {
        lemma_matched_targets(items, paths.drop_last());
    }
}

/// The outcomes of deleting the worktrees `targets`, asked for as `asked`,
/// given the error of each attempt (`None` when it went): one outcome per
/// target, with the path asked for and the error; and the targets that went,
/// whose branches are then handled.
pub fn delete_outcomes(
    items: &Vec<Worktree>,
    targets: &Vec<usize>,
    asked: &Vec<String>,
    errors: &Vec<Option<String>>,
) -> (r: (Vec<DeleteOutcome>, Vec<usize>))
    requires
        forall|i: int| 0 <= i < targets@.len() ==> #[trigger] targets@[i] < items@.len(),
        errors@.len() == targets@.len(),
        asked@.len() == targets@.len(),
    ensures
        r.0@.len() == targets@.len(),
        forall|i: int|
            0 <= i < targets@.len() ==> (#[trigger] r.0@[i]).path@ == asked@[i]@
                && error_view(r.0@[i].error) == error_view(errors@[i]),
        r.1@ == succeeded(targets@, errors@),
        forall|i: int| 0 <= i < r.1@.len() ==> #[trigger] r.1@[i] < items@.len(),
{
    let mut outcomes: Vec<DeleteOutcome> = Vec::new();
    let mut removed: Vec<usize> = Vec::new();
    let mut i: usize = 0;
    while i < targets.len()
        invariant
            i <= targets@.len(),
            errors@.len() == targets@.len(),
            asked@.len() == targets@.len(),
            forall|j: int| 0 <= j < targets@.len() ==> #[trigger] targets@[j] < items@.len(),
            outcomes@.len() == i,
            forall|j: int|
                0 <= j < i ==> (#[trigger] outcomes@[j]).path@ == asked@[j]@
                    && error_view(outcomes@[j].error) == error_view(errors@[j]),
            removed@ == succeeded(targets@.take(i as int), errors@),
            forall|j: int| 0 <= j < removed@.len() ==> #[trigger] removed@[j] < items@.len(),
        decreases targets@.len() - i,
    {
        proof {
            assert(targets@.take(i + 1).drop_last() =~= targets@.take(i as int));
            assert(targets@.take(i + 1).last() == targets@[i as int]);
        }
        let k = targets[i];
        let error = match &errors[i] {
            Some(e) => Some(e.clone()),
            None => None,
        };
        if error.is_none() {
            removed.push(k);
        }
        outcomes.push(DeleteOutcome { path: asked[i].clone(), error });
        i = i + 1;
    }
    assert(targets@.take(targets@.len() as int) =~= targets@);
    (outcomes, removed)
}

/// Whether a branch is deleted on GitHub too: only when that was asked for
/// and the local branch was deleted.
pub fn deletes_remote(scope: BranchScope, local_error: &Option<String>) -> (b: bool)
    ensures
        b == (scope == BranchScope::GitHub && local_error is None),
{
    scope == BranchScope::GitHub && local_error.is_none()
}

/// The message of a deletion: how many worktrees went, how many failed with
/// the first failure, then the branch notes.
pub open spec fn summary_text(report: DeleteReport) -> Seq<char> {
    let outcomes = report.worktrees@;
    let ok = outcomes.filter(|o: DeleteOutcome| o.error is None).len();
    let failed = outcomes.filter(|o: DeleteOutcome| o.error is Some);
    let head = if failed.len() == 0 {
        "deleted "@ + dec(ok) + " worktrees"@
    } else {
        "deleted "@ + dec(ok) + ", "@ + dec(failed.len()) + " failed: "@ + failed[0].path@ + " ("@
            + failed[0].error->0@ + ")"@
    };
    if report.branch_notes@.len() == 0 {
        head
    } else {
        head + ". "@ + joined(report.branch_notes@.map_values(|n: String| n@), "; "@)
    }
}

/// Writes the message of a deletion.
pub fn summarize(report: &DeleteReport) -> (s: String)
    ensures
        s@ == summary_text(*report),
{
    let ghost outcomes = report.worktrees@;
    let ghost okp = |o: DeleteOutcome| o.error is None;
    let ghost failp = |o: DeleteOutcome| o.error is Some;
    let mut ok: u64 = 0;
    let mut failed: u64 = 0;
    let mut first: Option<usize> = None;
    let mut i: usize = 0;
    proof {
        assert(outcomes.take(0).filter(okp) =~= Seq::<DeleteOutcome>::empty());
        assert(outcomes.take(0).filter(failp) =~= Seq::<DeleteOutcome>::empty());
    }
    while i < report.worktrees.len()
        invariant
            i <= outcomes.len(),
            outcomes == report.worktrees@,
            okp == (|o: DeleteOutcome| o.error is None),
            failp == (|o: DeleteOutcome| o.error is Some),
            ok == outcomes.take(i as int).filter(okp).len(),
            failed == outcomes.take(i as int).filter(failp).len(),
            ok + failed == i,
            match first {
                None => failed == 0,
                Some(k) => k < i && failed > 0 && outcomes.take(i as int).filter(failp)[0]
                    == outcomes[k as int],
            },
        decreases outcomes.len() - i,
    {
        proof {
            assert(outcomes.take(i + 1) == outcomes.take(i as int).push(outcomes[i as int]));
            outcomes.take(i as int).lemma_filter_push(outcomes[i as int], okp);
            outcomes.take(i as int).lemma_filter_push(outcomes[i as int], failp);
        }
        if report.worktrees[i].error.is_none() {
            ok = ok + 1;
        } else {
            if first.is_none() {
                first = Some(i);
                assert(outcomes.take(i + 1).filter(failp) == seq![outcomes[i as int]]);
            }
            failed = failed + 1;
        }
        i = i + 1;
    }
    assert(outcomes.take(outcomes.len() as int) == outcomes);
    let mut out = String::new();
    push_str(&mut out, "deleted ");
    push_decimal(&mut out, ok);
    match first {
        None => {
            push_str(&mut out, " worktrees");
        },
        Some(k) => {
            let item = &report.worktrees[k];
            push_str(&mut out, ", ");
            push_decimal(&mut out, failed);
            push_str(&mut out, " failed: ");
            push_str(&mut out, item.path.as_str());
            push_str(&mut out, " (");
            match &item.error {
                Some(e) => push_str(&mut out, e.as_str()),
                None => {},
            }
            push_str(&mut out, ")");
        },
    }
    if report.branch_notes.len() > 0 {
        push_str(&mut out, ". ");
        push_joined(&mut out, &report.branch_notes, "; ");
    }
    out
}

/// The message of a clean-up: how many directories went, and how many
/// failures with the first one.
pub open spec fn clean_summary_text(outcome: CleanOutcome) -> Seq<char> {
    if outcome.errors@.len() == 0 {
        "cleaned "@ + dec(outcome.removed@.len()) + " dependency directories"@
    } else {
        "cleaned "@ + dec(outcome.removed@.len()) + " dependency directories, "@ + dec(
            outcome.errors@.len(),
        ) + " failed: "@ + outcome.errors@[0]@
    }
}

/// Writes the message of a clean-up.
pub fn summarize_clean(outcome: &CleanOutcome) -> (s: String)
    ensures
        s@ == clean_summary_text(*outcome),
{
    let mut out = String::new();
    push_str(&mut out, "cleaned ");
    push_decimal(&mut out, outcome.removed.len() as u64);
    if outcome.errors.len() == 0 {
        push_str(&mut out, " dependency directories");
    } else {
        push_str(&mut out, " dependency directories, ");
        push_decimal(&mut out, outcome.errors.len() as u64);
        push_str(&mut out, " failed: ");
        push_str(&mut out, outcome.errors[0].as_str());
    }
    out
}


/// The local branch of a worktree: none for an empty name, a detached head or
/// a bare repository.
pub open spec fn branch_of(wt: Worktree) -> Option<Seq<char>> {
    if wt.branch@ == Seq::<char>::empty() || wt.branch@ == "(detached)"@ || wt.branch@
        == "(bare)"@ {
        None
    } else {
        Some(wt.branch@)
    }
}

/// The local branch of a worktree.
pub fn branch_name(wt: &Worktree) -> (r: Option<String>)
    ensures
        match r {
            Some(n) => branch_of(*wt) == Some(n@),
            None => branch_of(*wt) is None,
        },
{
    let v = chars_of(wt.branch.as_str());
    assert(v@.len() == 0 ==> v@ =~= Seq::<char>::empty());
    if v.len() == 0 || same_chars(&v, &chars_of("(detached)")) || same_chars(
        &v,
        &chars_of("(bare)"),
    ) {
        None
    } else {
        Some(wt.branch.clone())
    }
}

/// Whether branch `name` of the repository of `wt` stays checked out in a
/// worktree other than `wt` that is not among those removed.
pub open spec fn still_used(
    items: Seq<Worktree>,
    removed: Seq<usize>,
    wt: Worktree,
    name: Seq<char>,
) -> bool {
    exists|k: int|
        0 <= k < items.len() && same_place((#[trigger] items[k]).repo_root@, wt.repo_root@)
            && items[k].branch@ == name && !same_place(items[k].path@, wt.path@) && !(exists|j: int|
            0 <= j < removed.len() && same_place(items[removed[j] as int].path@, items[k].path@))
}

/// Whether a worktree's path is among those of the removed ones.
fn is_removed(items: &Vec<Worktree>, removed: &Vec<usize>, path: &String) -> (b: bool)
    requires
        forall|j: int| 0 <= j < removed@.len() ==> #[trigger] removed@[j] < items@.len(),
    ensures
        b == exists|j: int|
            0 <= j < removed@.len() && same_place(items@[removed@[j] as int].path@, path@),
{
    let mut j: usize = 0;
    while j < removed.len()
        invariant
            j <= removed@.len(),
            forall|q: int| 0 <= q < removed@.len() ==> #[trigger] removed@[q] < items@.len(),
            forall|q: int| 0 <= q < j ==> !same_place(items@[removed@[q] as int].path@, path@),
        decreases removed@.len() - j,
    {
        if same_path(items[removed[j]].path.as_str(), path.as_str()) {
            return true;
        }
        j = j + 1;
    }
    false
}

/// Whether branch `name` of `wt`'s repository is still checked out elsewhere.
pub fn branch_still_used(
    wt: &Worktree,
    name: &String,
    items: &Vec<Worktree>,
    removed: &Vec<usize>,
) -> (b: bool)
    requires
        forall|j: int| 0 <= j < removed@.len() ==> #[trigger] removed@[j] < items@.len(),
    ensures
        b == still_used(items@, removed@, *wt, name@),
{
    let mut k: usize = 0;
    while k < items.len()
        invariant
            k <= items@.len(),
            forall|q: int| 0 <= q < removed@.len() ==> #[trigger] removed@[q] < items@.len(),
            forall|q: int|
                0 <= q < k ==> !(same_place((#[trigger] items@[q]).repo_root@, wt.repo_root@)
                    && items@[q].branch@ == name@ && !same_place(items@[q].path@, wt.path@) && !(exists|j: int|
                    0 <= j < removed@.len() && same_place(
                        items@[removed@[j] as int].path@,
                        items@[q].path@,
                    ))),
        decreases items@.len() - k,
    {
        let other = &items[k];
        if same_path(other.repo_root.as_str(), wt.repo_root.as_str()) && other.branch == *name
            && !same_path(other.path.as_str(), wt.path.as_str()) && !is_removed(
            items,
            removed,
            &other.path,
        ) {
            return true;
        }
        k = k + 1;
    }
    false
}

/// One step of the handling of branches after a deletion.
#[derive(Debug)]
pub enum BranchStep {
    /// The worktree had no local branch.
    NoBranch { path: String },
    /// The branch stays: another worktree still has it checked out.
    Kept { name: String },
    /// The branch of worktree `item` is to be deleted.
    Delete { item: usize, name: String },
}

/// The content of a branch step.
pub enum StepPlan {
    NoBranch(Seq<char>),
    Kept(Seq<char>),
    Delete(int, Seq<char>),
}

impl View for BranchStep {
    type V = StepPlan;

    open spec fn view(&self) -> StepPlan {
        match self {
            BranchStep::NoBranch { path } => StepPlan::NoBranch(path@),
            BranchStep::Kept { name } => StepPlan::Kept(name@),
            BranchStep::Delete { item, name } => StepPlan::Delete(*item as int, name@),
        }
    }
}

/// Whether an earlier removed worktree had the same branch of the same repository.
pub open spec fn seen_before(items: Seq<Worktree>, removed: Seq<usize>, i: int) -> bool {
    exists|j: int|
        0 <= j < i && branch_of(items[removed[j] as int]) is Some && branch_of(
            #[trigger] items[removed[j] as int],
        ) == branch_of(items[removed[i] as int]) && same_place(
            items[removed[j] as int].repo_root@,
            items[removed[i] as int].repo_root@,
        )
}

/// The step for the `i`-th removed worktree, if it has one: a worktree with no
/// branch is noted, a branch already handled is passed over, a branch still
/// checked out elsewhere is kept, any other is deleted.
pub open spec fn step_for(items: Seq<Worktree>, removed: Seq<usize>, i: int) -> Option<StepPlan> {
    let wt = items[removed[i] as int];
    match branch_of(wt) {
        None => Some(StepPlan::NoBranch(wt.path@)),
        Some(name) => if seen_before(items, removed, i) {
            None
        } else if still_used(items, removed, wt, name) {
            Some(StepPlan::Kept(name))
        } else {
            Some(StepPlan::Delete(removed[i] as int, name))
        },
    }
}

/// The steps for the first `n` removed worktrees.
pub open spec fn branch_plan(items: Seq<Worktree>, removed: Seq<usize>, n: int) -> Seq<StepPlan>
    decreases n,
{
    if n <= 0 {
        Seq::empty()
    } else {
        branch_plan(items, removed, n - 1) + match step_for(items, removed, n - 1) {
            Some(p) => seq![p],
            None => Seq::<StepPlan>::empty(),
        }
    }
}

/// Whether a removed worktree before the `i`-th had the same branch of the
/// same repository.
fn handled_before(items: &Vec<Worktree>, removed: &Vec<usize>, i: usize, name: &String) -> (b:
    bool)
    requires
        forall|j: int| 0 <= j < removed@.len() ==> #[trigger] removed@[j] < items@.len(),
        i < removed@.len(),
        branch_of(items@[removed@[i as int] as int]) == Some(name@),
    ensures
        b == seen_before(items@, removed@, i as int),
{
    let wt = &items[removed[i]];
    let mut j: usize = 0;
    while j < i
        invariant
            j <= i < removed@.len(),
            forall|q: int| 0 <= q < removed@.len() ==> #[trigger] removed@[q] < items@.len(),
            wt == items@[removed@[i as int] as int],
            branch_of(*wt) == Some(name@),
            forall|q: int|
                0 <= q < j ==> !(branch_of(items@[removed@[q] as int]) is Some && branch_of(
                    #[trigger] items@[removed@[q] as int],
                ) == branch_of(*wt) && same_place(items@[removed@[q] as int].repo_root@, wt.repo_root@)),
        decreases i - j,
    {
        let other = &items[removed[j]];
        match branch_name(other) {
            Some(n) => {
                if n == *name && same_path(other.repo_root.as_str(), wt.repo_root.as_str()) {
                    return true;
                }
            },
            None => {},
        }
        j = j + 1;
    }
    false
}

/// The step for the `i`-th removed worktree, if it has one.
fn plan_step(items: &Vec<Worktree>, removed: &Vec<usize>, i: usize) -> (r: Option<BranchStep>)
    requires
        forall|j: int| 0 <= j < removed@.len() ==> #[trigger] removed@[j] < items@.len(),
        i < removed@.len(),
    ensures
        match r {
            Some(s) => step_for(items@, removed@, i as int) == Some(s@),
            None => step_for(items@, removed@, i as int) is None,
        },
{
    let wt = &items[removed[i]];
    match branch_name(wt) {
        None => Some(BranchStep::NoBranch { path: wt.path.clone() }),
        Some(name) => {
            if handled_before(items, removed, i, &name) {
                None
            } else if branch_still_used(wt, &name, items, removed) {
                Some(BranchStep::Kept { name })
            } else {
                Some(BranchStep::Delete { item: removed[i], name })
            }
        },
    }
}

/// Plans what happens to the branches of the removed worktrees: nothing when
/// branches are kept, otherwise one step per distinct branch (and per
/// worktree without one), in the order of removal.
pub fn plan_branches(items: &Vec<Worktree>, removed: &Vec<usize>, scope: BranchScope) -> (r: Vec<
    BranchStep,
>)
    requires
        forall|j: int| 0 <= j < removed@.len() ==> #[trigger] removed@[j] < items@.len(),
    ensures
        scope == BranchScope::Keep ==> r@.len() == 0,
        scope != BranchScope::Keep ==> r@.map_values(|s: BranchStep| s@) == branch_plan(
            items@,
            removed@,
            removed@.len() as int,
        ),
{
    let mut steps: Vec<BranchStep> = Vec::new();
    if scope == BranchScope::Keep {
        return steps;
    }
    let mut i: usize = 0;
    proof {
        assert(steps@.map_values(|s: BranchStep| s@) =~= Seq::<StepPlan>::empty());
    }
    while i < removed.len()
        invariant
            i <= removed@.len(),
            forall|j: int| 0 <= j < removed@.len() ==> #[trigger] removed@[j] < items@.len(),
            steps@.map_values(|s: BranchStep| s@) == branch_plan(items@, removed@, i as int),
        decreases removed@.len() - i,
    {
        let ghost before = steps@.map_values(|s: BranchStep| s@);
        match plan_step(items, removed, i) {
            Some(s) => {
                steps.push(s);
                assert(steps@.map_values(|s: BranchStep| s@) =~= before + seq![
                    step_for(items@, removed@, i as int)->0,
                ]);
            },
            None => {
                assert(before + Seq::<StepPlan>::empty() =~= before);
            },
        }
        i = i + 1;
    }
    steps
}

/// Whether two steps both delete the same branch of the same repository.
pub open spec fn same_branch_deleted(items: Seq<Worktree>, a: StepPlan, b: StepPlan) -> bool {
    match (a, b) {
        (StepPlan::Delete(k1, n1), StepPlan::Delete(k2, n2)) => n1 == n2 && same_place(
            items[k1].repo_root@,
            items[k2].repo_root@,
        ),
        _ => false,
    }
}

/// Whether a deletion step deletes the branch of one of the first `n` removed worktrees.
spec fn from_removed(items: Seq<Worktree>, removed: Seq<usize>, n: int, s: StepPlan) -> bool {
    match s {
        StepPlan::Delete(k, name) => (exists|q: int|
            0 <= q < n && removed[q] as int == k && #[trigger] branch_of(items[removed[q] as int])
                == Some(name)) && !still_used(items, removed, items[k], name),
        _ => true,
    }
}

proof fn lemma_plan_deletes(items: Seq<Worktree>, removed: Seq<usize>, n: int)
    requires
        forall|j: int| 0 <= j < removed.len() ==> #[trigger] removed[j] < items.len(),
        0 <= n <= removed.len(),
    ensures
        forall|i: int|
            0 <= i < branch_plan(items, removed, n).len() ==> from_removed(
                items,
                removed,
                n,
                #[trigger] branch_plan(items, removed, n)[i],
            ),
        forall|i: int, j: int|
            0 <= i < j < branch_plan(items, removed, n).len() ==> !same_branch_deleted(
                items,
                #[trigger] branch_plan(items, removed, n)[i],
                #[trigger] branch_plan(items, removed, n)[j],
            ),
    decreases n,
{
    if n > 0 {
        lemma_plan_deletes(items, removed, n - 1);
        let pre = branch_plan(items, removed, n - 1);
        let all = branch_plan(items, removed, n);
        assert forall|i: int| 0 <= i < all.len() implies from_removed(
            items,
            removed,
            n,
            #[trigger] all[i],
        ) by {
            if i < pre.len() {
                assert(all[i] == pre[i]);
                assert(from_removed(items, removed, n - 1, pre[i]));
                if let StepPlan::Delete(k, name) = pre[i] {
                    let q = choose|q: int|
                        0 <= q < n - 1 && removed[q] as int == k && #[trigger] branch_of(
                            items[removed[q] as int],
                        ) == Some(name);
                    assert(0 <= q < n && removed[q] as int == k && branch_of(items[removed[q] as int])
                        == Some(name));
                }
            } else {
                assert(all[i] == step_for(items, removed, n - 1)->0);
                if let StepPlan::Delete(k, name) = all[i] {
                    assert(removed[n - 1] as int == k && branch_of(items[removed[n - 1] as int])
                        == Some(name));
                }
            }
        }
        assert forall|i: int, j: int| 0 <= i < j < all.len() implies !same_branch_deleted(
            items,
            #[trigger] all[i],
            #[trigger] all[j],
        ) by {
            assert(all[i] == pre[i]);
            if j < pre.len() {
                assert(all[j] == pre[j]);
            } else if let StepPlan::Delete(k2, n2) = all[j] {
                assert(all[j] == step_for(items, removed, n - 1)->0);
                assert(!seen_before(items, removed, n - 1));
                if let StepPlan::Delete(k1, n1) = all[i] {
                    assert(from_removed(items, removed, n - 1, pre[i]));
                    let q = choose|q: int|
                        0 <= q < n - 1 && removed[q] as int == k1 && #[trigger] branch_of(
                            items[removed[q] as int],
                        ) == Some(n1);
                    if n1 == n2 && same_place(items[k1].repo_root@, items[k2].repo_root@) {
                        assert(branch_of(items[removed[q] as int]) is Some && branch_of(
                            items[removed[q] as int],
                        ) == branch_of(items[removed[n - 1] as int]) && same_place(
                            items[removed[q] as int].repo_root@,
                            items[removed[n - 1] as int].repo_root@,
                        ));
                        assert(seen_before(items, removed, n - 1));
                    }
                }
            }
        }
    }
}

/// A branch that another worktree still has checked out is never deleted: of
/// each deletion step, no listed worktree left after the removal is on it.
pub proof fn lemma_deleted_branch_unused(items: Seq<Worktree>, removed: Seq<usize>)
    requires
        forall|j: int| 0 <= j < removed.len() ==> #[trigger] removed[j] < items.len(),
    ensures
        forall|i: int|
            0 <= i < branch_plan(items, removed, removed.len() as int).len() ==> (#[trigger] branch_plan(
                items,
                removed,
                removed.len() as int,
            )[i] matches StepPlan::Delete(k, name) ==> !still_used(items, removed, items[k], name)),
{
    lemma_plan_deletes(items, removed, removed.len() as int);
    let plan = branch_plan(items, removed, removed.len() as int);
    assert forall|i: int| 0 <= i < plan.len() implies (#[trigger] plan[i] matches StepPlan::Delete(
        k,
        name,
    ) ==> !still_used(items, removed, items[k], name)) by {
        assert(from_removed(items, removed, removed.len() as int, plan[i]));
    }
}

/// A branch is deleted at most once: no two steps of a plan delete the same
/// branch of the same repository.
pub proof fn lemma_branch_deleted_once(items: Seq<Worktree>, removed: Seq<usize>)
    requires
        forall|j: int| 0 <= j < removed.len() ==> #[trigger] removed[j] < items.len(),
    ensures
        forall|i: int, j: int|
            0 <= i < j < branch_plan(items, removed, removed.len() as int).len() ==> !same_branch_deleted(
                items,
                #[trigger] branch_plan(items, removed, removed.len() as int)[i],
                #[trigger] branch_plan(items, removed, removed.len() as int)[j],
            ),
{
    lemma_plan_deletes(items, removed, removed.len() as int);
}

/// The note for a branch step that runs no git command.
pub open spec fn step_note_text(step: StepPlan) -> Seq<char> {
    match step {
        StepPlan::NoBranch(path) => path + ": no local branch"@,
        StepPlan::Kept(name) => name + ": kept, still checked out"@,
        StepPlan::Delete(_, name) => name,
    }
}

/// The note for a step without a git command (for a deletion, the branch name).
pub fn step_note(step: &BranchStep) -> (s: String)
    ensures
        s@ == step_note_text(step@),
{
    let mut out = String::new();
    match step {
        BranchStep::NoBranch { path } => {
            push_str(&mut out, path.as_str());
            push_str(&mut out, ": no local branch");
        },
        BranchStep::Kept { name } => {
            push_str(&mut out, name.as_str());
            push_str(&mut out, ": kept, still checked out");
        },
        BranchStep::Delete { name, .. } => {
            push_str(&mut out, name.as_str());
        },
    }
    out
}

/// The note after `git branch -D`: the deletion, or the branch and the error.
pub fn local_note(name: &str, error: &Option<String>) -> (s: String)
    ensures
        s@ == match error {
            None => "deleted local "@ + name@,
            Some(e) => name@ + ": "@ + e@,
        },
{
    let mut out = String::new();
    match error {
        None => {
            push_str(&mut out, "deleted local ");
            push_str(&mut out, name);
        },
        Some(e) => {
            push_str(&mut out, name);
            push_str(&mut out, ": ");
            push_str(&mut out, e.as_str());
        },
    }
    out
}

/// The note after deleting the branch on GitHub: `deleted <remote>/<name>`,
/// or the branch and the error.
pub fn remote_note(name: &str, result: &Result<String, String>) -> (s: String)
    ensures
        s@ == match result {
            Ok(remote) => "deleted "@ + remote@ + "/"@ + name@,
            Err(e) => name@ + ": "@ + e@,
        },
{
    let mut out = String::new();
    match result {
        Ok(remote) => {
            push_str(&mut out, "deleted ");
            push_str(&mut out, remote.as_str());
            push_str(&mut out, "/");
            push_str(&mut out, name);
        },
        Err(e) => {
            push_str(&mut out, name);
            push_str(&mut out, ": ");
            push_str(&mut out, e.as_str());
        },
    }
    out
}

/// The arguments of `git branch -D <name>`.
pub fn local_branch_args(name: &String) -> (r: Vec<String>)
    ensures
        r@.map_values(|a: String| a@) == seq!["branch"@, "-D"@, name@],
{
    let mut r: Vec<String> = Vec::new();
    r.push(owned("branch"));
    r.push(owned("-D"));
    r.push(name.clone());
    assert(r@.map_values(|a: String| a@) =~= seq!["branch"@, "-D"@, name@]);
    r
}

/// The arguments of `git push <remote> --delete <name>`.
pub fn remote_delete_args(remote: &String, name: &String) -> (r: Vec<String>)
    ensures
        r@.map_values(|a: String| a@) == seq!["push"@, remote@, "--delete"@, name@],
{
    let mut r: Vec<String> = Vec::new();
    r.push(owned("push"));
    r.push(remote.clone());
    r.push(owned("--delete"));
    r.push(name.clone());
    assert(r@.map_values(|a: String| a@) =~= seq!["push"@, remote@, "--delete"@, name@]);
    r
}

/// The error text of a failed git command: its trimmed error output, or
/// `fallback` when that is empty.
pub open spec fn git_error_text(stderr: Seq<char>, fallback: Seq<char>) -> Seq<char> {
    if trim(stderr).len() > 0 {
        trim(stderr)
    } else {
        fallback
    }
}

/// Describes a failed git command.
pub fn git_err(stderr: &str, fallback: &str) -> (s: String)
    ensures
        s@ == git_error_text(stderr@, fallback@),
{
    let v = chars_of(stderr);
    let (a, b) = trim_bounds(&v);
    if b > a {
        string_of_range(&v, a, b)
    } else {
        owned(fallback)
    }
}

/// Which remote of `git remote -v` is on GitHub, reading the lines in order:
/// a line with fewer than two words ends the search with none; a line whose
/// second word (the URL) does not hold `github.com` is passed over; `origin`
/// wins at once, and otherwise the first GitHub remote is the answer.
pub open spec fn github_scan(ls: Seq<Seq<char>>, first: Option<Seq<char>>) -> Option<Seq<char>>
    decreases ls.len(),
{
    if ls.len() == 0 {
        first
    } else {
        let line = ls[0];
        match first_word(line) {
            None => None,
            Some(name) => match first_word(after_first_word(line)) {
                None => None,
                Some(url) => if !contains_seq(url, "github.com"@) {
                    github_scan(ls.drop_first(), first)
                } else if name == "origin"@ {
                    Some(name)
                } else {
                    github_scan(
                        ls.drop_first(),
                        if first is None {
                            Some(name)
                        } else {
                            first
                        },
                    )
                },
            },
        }
    }
}

/// The GitHub remote named in the output of `git remote -v`.
pub open spec fn github_remote_of(text: Seq<char>) -> Option<Seq<char>> {
    github_scan(lines(text), None)
}

/// Picks the GitHub remote from the output of `git remote -v`, preferring `origin`.
pub fn github_remote(text: &str) -> (r: Option<String>)
    ensures
        match r {
            Some(s) => github_remote_of(text@) == Some(s@),
            None => github_remote_of(text@) is None,
        },
{
    let v = chars_of(text);
    let ls = split_lines(&v);
    let ghost all = lines(text@);
    let needle = chars_of("github.com");
    let mut first: Option<String> = None;
    let mut i: usize = 0;
    proof {
        assert(all.skip(0) == all);
    }
    while i < ls.len()
        invariant
            i <= ls@.len(),
            ls@.len() == all.len(),
            forall|k: int| 0 <= k < ls@.len() ==> (#[trigger] ls@[k])@ == all[k],
            needle@ == "github.com"@,
            github_remote_of(text@) == github_scan(all.skip(i as int), match first {
                Some(f) => Some(f@),
                None => None,
            }),
        decreases ls@.len() - i,
    {
        let line = &ls[i];
        proof {
            assert(all.skip(i as int)[0] == line@);
            assert(all.skip(i as int).drop_first() == all.skip(i + 1));
            assert(line@.skip(0) == line@);
        }
        let (a, b) = match next_word(line, 0) {
            None => {
                return None;
            },
            Some(w) => w,
        };
        let (c, d) = match next_word(line, b) {
            None => {
                return None;
            },
            Some(w) => w,
        };
        let name = string_of_range(line, a, b);
        let url = crate::text::slice_chars(line, c, d);
        if contains_chars(&url, &needle) {
            if same_chars(&chars_of(name.as_str()), &chars_of("origin")) {
                return Some(name);
            }
            if first.is_none() {
                first = Some(name);
            }
        }
        i = i + 1;
    }
    proof {
        assert(all.skip(i as int) =~= Seq::<Seq<char>>::empty());
    }
    first
}

/// The remote to delete a branch from, given what `git remote -v` gave: its
/// failure, or the GitHub remote, or an error when there is none.
pub fn github_target(remote_output: Result<String, String>) -> (r: Result<String, String>)
    ensures
        match remote_output {
            Err(e) => r == Err::<String, String>(e),
            Ok(text) => match github_remote_of(text@) {
                Some(name) => r is Ok && r->Ok_0@ == name,
                None => r is Err && r->Err_0@ == "no GitHub remote"@,
            },
        },
{
    match remote_output {
        Err(e) => Err(e),
        Ok(text) => match github_remote(text.as_str()) {
            Some(name) => Ok(name),
            None => Err(owned("no GitHub remote")),
        },
    }
}

/// The dependency directories a clean-up removes.
pub open spec fn dependency_names() -> Seq<Seq<char>> {
    seq![
        "node_modules"@,
        "target"@,
        ".next"@,
        ".turbo"@,
        ".venv"@,
        "venv"@,
        "__pycache__"@,
        "Pods"@,
        ".gradle"@,
    ]
}

/// Whether a directory of this name is a dependency directory.
pub fn is_dependency_dir(name: &str) -> (b: bool)
    ensures
        b == dependency_names().contains(name@),
{
    let names: [&str; 9] = [
        "node_modules",
        "target",
        ".next",
        ".turbo",
        ".venv",
        "venv",
        "__pycache__",
        "Pods",
        ".gradle",
    ];
    let ghost views = names@.map_values(|n: &str| n@);
    assert(views =~= dependency_names());
    let mut i: usize = 0;
    while i < 9
        invariant
            i <= 9,
            names@.len() == 9,
            views == names@.map_values(|n: &str| n@),
            views == dependency_names(),
            forall|j: int| 0 <= j < i ==> views[j] != name@,
        decreases 9 - i,
    {
        if crate::text::same_text(names[i], name) {
            assert(views[i as int] == name@);
            return true;
        }
        i = i + 1;
    }
    false
}

/// Whether a clean-up walks into a directory: not `.git`, and not a
/// dependency directory (which it removes instead).
pub fn walks_into(name: &str) -> (b: bool)
    ensures
        b == (name@ != ".git"@ && !dependency_names().contains(name@)),
{
    !crate::text::same_text(name, ".git") && !is_dependency_dir(name)
}

/// Why a worktree's dependency directories are not cleaned, if they are not:
/// the main checkout, a bare repository or a missing directory is skipped.
pub fn clean_refusal(wt: &Worktree, path: &String) -> (r: Option<String>)
    ensures
        match r {
            Some(e) => (!is_deletable(*wt) || wt.missing) && e@ == path@
                + ": skipped main checkout or missing directory"@,
            None => is_deletable(*wt) && !wt.missing,
        },
{
    if !wt.deletable() || wt.missing {
        let mut e = String::new();
        push_str(&mut e, path.as_str());
        push_str(&mut e, ": skipped main checkout or missing directory");
        Some(e)
    } else {
        None
    }
}

/// What a clean-up does with an entry of a directory: it removes a dependency
/// directory (`removing`), or walks into any other directory but `.git`.
/// Files and symbolic links are left alone.
pub open spec fn clean_picks(e: Entry, removing: bool) -> bool {
    &&& e.is_dir
    &&& !e.is_symlink
    &&& e.name@ != ".git"@
    &&& dependency_names().contains(e.name@) == removing
}

/// The paths below `dir` of the entries that a clean-up removes
/// (`removing`) or walks into, in the order of the listing.
pub open spec fn clean_paths(dir: Seq<char>, es: Seq<Entry>, removing: bool) -> Seq<Seq<char>>
    decreases es.len(),
{
    if es.len() == 0 {
        Seq::empty()
    } else {
        clean_paths(dir, es.drop_last(), removing) + if clean_picks(es.last(), removing) {
            seq![join_path(dir, es.last().name@)]
        } else {
            Seq::<Seq<char>>::empty()
        }
    }
}

proof fn lemma_clean_paths_step(dir: Seq<char>, es: Seq<Entry>, i: int, removing: bool)
    requires
        0 <= i < es.len(),
    ensures
        clean_paths(dir, es.take(i + 1), removing) == clean_paths(dir, es.take(i), removing) + if clean_picks(
            es[i],
            removing,
        ) {
            seq![join_path(dir, es[i].name@)]
        } else {
            Seq::<Seq<char>>::empty()
        },
{
    assert(es.take(i + 1).drop_last() =~= es.take(i));
    assert(es.take(i + 1).last() == es[i]);
}

/// What a clean-up does in one directory, from its listing: the dependency
/// directories it removes, and the directories it walks into next.
pub fn clean_plan(dir: &str, entries: &Vec<Entry>) -> (r: (Vec<String>, Vec<String>))
    ensures
        path_views(r.0@) == clean_paths(dir@, entries@, true),
        path_views(r.1@) == clean_paths(dir@, entries@, false),
{
    let mut removals: Vec<String> = Vec::new();
    let mut descents: Vec<String> = Vec::new();
    let mut i: usize = 0;
    proof {
        assert(entries@.take(0) =~= Seq::<Entry>::empty());
        assert(path_views(removals@) =~= Seq::<Seq<char>>::empty());
        assert(path_views(descents@) =~= Seq::<Seq<char>>::empty());
    }
    while i < entries.len()
        invariant
            i <= entries@.len(),
            path_views(removals@) == clean_paths(dir@, entries@.take(i as int), true),
            path_views(descents@) == clean_paths(dir@, entries@.take(i as int), false),
        decreases entries@.len() - i,
    {
        let e = &entries[i];
        proof {
            lemma_clean_paths_step(dir@, entries@, i as int, true);
            lemma_clean_paths_step(dir@, entries@, i as int, false);
        }
        if e.is_dir && !e.is_symlink && !crate::text::same_text(e.name.as_str(), ".git") {
            let p = path_join(dir, e.name.as_str());
            if is_dependency_dir(e.name.as_str()) {
                proof {
                    lemma_path_views_push(removals@, p);
                }
                removals.push(p);
            } else {
                proof {
                    lemma_path_views_push(descents@, p);
                }
                descents.push(p);
            }
        }
        i = i + 1;
    }
    assert(entries@.take(entries@.len() as int) =~= entries@);
    (removals, descents)
}

/// Whether a directory listing is one the disk can give: each name is not
/// empty, holds no separator, and is given once.
pub open spec fn listing_valid(es: Seq<Entry>) -> bool {
    &&& forall|i: int| 0 <= i < es.len() ==> (#[trigger] es[i]).name@.len() > 0 && !es[i].name@.contains('/')
    &&& forall|i: int, j: int| 0 <= i < j < es.len() ==> (#[trigger] es[i]).name@ != (#[trigger] es[j]).name@
}

/// Joining names that hold no separator to one directory gives different
/// paths for different names.
proof fn lemma_join_apart(dir: Seq<char>, a: Seq<char>, b: Seq<char>)
    requires
        a.len() > 0 && !a.contains('/'),
        b.len() > 0 && !b.contains('/'),
        a != b,
    ensures
        join_path(dir, a) != join_path(dir, b),
{
    assert(a[0] != '/' && b[0] != '/') by {
        assert(a.contains(a[0]) && b.contains(b[0]));
    }
    let k: int = if dir.len() == 0 || dir.last() == '/' {
        dir.len() as int
    } else {
        dir.len() as int + 1
    };
    assert(join_path(dir, a).skip(k) =~= a);
    assert(join_path(dir, b).skip(k) =~= b);
}

/// Each path a clean-up plans in a directory is that of an entry it picks.
proof fn lemma_clean_paths_from(dir: Seq<char>, es: Seq<Entry>, removing: bool)
    ensures
        forall|i: int|
            #![trigger clean_paths(dir, es, removing)[i]]
            0 <= i < clean_paths(dir, es, removing).len() ==> exists|k: int|
                #![trigger es[k]]
                0 <= k < es.len() && clean_picks(es[k], removing) && clean_paths(dir, es, removing)[i]
                    == join_path(dir, es[k].name@),
    decreases es.len(),
{
    if es.len() > 0 {
        let pre = es.drop_last();
        lemma_clean_paths_from(dir, pre, removing);
        let all = clean_paths(dir, es, removing);
        let before = clean_paths(dir, pre, removing);
        assert forall|i: int| #![trigger all[i]] 0 <= i < all.len() implies exists|k: int|
            #![trigger es[k]]
            0 <= k < es.len() && clean_picks(es[k], removing) && all[i] == join_path(
                dir,
                es[k].name@,
            ) by {
            if i < before.len() {
                assert(all[i] == before[i]);
                let k = choose|k: int|
                    #![trigger pre[k]]
                    0 <= k < pre.len() && clean_picks(pre[k], removing) && before[i]
                        == join_path(dir, pre[k].name@);
                assert(es[k] == pre[k]);
                assert(0 <= k < es.len() && clean_picks(es[k], removing) && all[i] == join_path(
                    dir,
                    es[k].name@,
                ));
            } else {
                let k = es.len() - 1;
                assert(es.last() == es[k]);
                assert(clean_picks(es[k], removing));
                assert(all[i] == join_path(dir, es[k].name@));
            }
        }
    }
}

/// In one directory of a clean-up with a valid listing, no dependency
/// directory is also walked into, and no path is planned twice.
pub proof fn lemma_clean_step_apart(dir: Seq<char>, es: Seq<Entry>)
    requires
        listing_valid(es),
    ensures
        forall|i: int, j: int|
            0 <= i < clean_paths(dir, es, true).len() && 0 <= j < clean_paths(dir, es, false).len()
                ==> #[trigger] clean_paths(dir, es, true)[i] != #[trigger] clean_paths(dir, es, false)[j],
        forall|removing: bool, i: int, j: int|
            0 <= i < j < clean_paths(dir, es, removing).len() ==> #[trigger] clean_paths(
                dir,
                es,
                removing,
            )[i] != #[trigger] clean_paths(dir, es, removing)[j],
    decreases es.len(),
{
    lemma_clean_paths_from(dir, es, true);
    lemma_clean_paths_from(dir, es, false);
    let rs = clean_paths(dir, es, true);
    let ds = clean_paths(dir, es, false);
    assert forall|i: int, j: int| 0 <= i < rs.len() && 0 <= j < ds.len() implies #[trigger] rs[i]
        != #[trigger] ds[j] by {
        let a = choose|k: int|
            #![trigger es[k]]
            0 <= k < es.len() && clean_picks(es[k], true) && rs[i] == join_path(dir, es[k].name@);
        let b = choose|k: int|
            #![trigger es[k]]
            0 <= k < es.len() && clean_picks(es[k], false) && ds[j] == join_path(dir, es[k].name@);
        if es[a].name@ != es[b].name@ {
            lemma_join_apart(dir, es[a].name@, es[b].name@);
        }
    }
    if es.len() > 0 {
        let pre = es.drop_last();
        assert(listing_valid(pre)) by {
            assert forall|i: int, j: int| 0 <= i < j < pre.len() implies (#[trigger] pre[i]).name@
                != (#[trigger] pre[j]).name@ by {
                assert(pre[i] == es[i] && pre[j] == es[j]);
            }
        }
        lemma_clean_step_apart(dir, pre);
        assert forall|removing: bool, i: int, j: int|
            0 <= i < j < clean_paths(dir, es, removing).len() implies #[trigger] clean_paths(
            dir,
            es,
            removing,
        )[i] != #[trigger] clean_paths(dir, es, removing)[j] by {
            let all = clean_paths(dir, es, removing);
            let before = clean_paths(dir, pre, removing);
            lemma_clean_paths_from(dir, pre, removing);
            if j < before.len() {
                assert(all[i] == before[i] && all[j] == before[j]);
            } else {
                assert(all[i] == before[i]);
                let last = es[es.len() - 1];
                assert(all[j] == join_path(dir, last.name@));
                let k = choose|k: int|
                    #![trigger pre[k]]
                    0 <= k < pre.len() && clean_picks(pre[k], removing) && before[i]
                        == join_path(dir, pre[k].name@);
                assert(pre[k] == es[k]);
                lemma_join_apart(dir, es[k].name@, last.name@);
            }
        }
    }
}

/// A clean-up below one root, depth first: the directories still to walk into.
pub struct CleanWalk {
    pub stack: Vec<String>,
}

impl CleanWalk {
    /// The directories still to walk into; the last is next.
    pub open spec fn pending(&self) -> Seq<Seq<char>> {
        path_views(self.stack@)
    }

    /// A clean-up that starts at `root`.
    pub fn new(root: &str) -> (w: CleanWalk)
        ensures
            w.pending() == seq![root@],
    {
        let mut stack: Vec<String> = Vec::new();
        stack.push(string_of(&chars_of(root)));
        let w = CleanWalk { stack };
        assert(w.pending() =~= seq![root@]);
        w
    }

    /// The next directory to walk into, taken off the pending ones; `None`
    /// when the clean-up is over.
    pub fn next(&mut self) -> (r: Option<String>)
        ensures
            old(self).pending().len() == 0 ==> r is None && final(self).pending() == old(self).pending(),
            old(self).pending().len() > 0 ==> r is Some && r->0@ == old(self).pending().last()
                && final(self).pending() == old(self).pending().drop_last(),
    {
        let ghost before = self.stack@;
        let r = self.stack.pop();
        proof {
            if before.len() > 0 {
                assert(self.stack@ == before.drop_last());
                assert(self.pending() =~= path_views(before).drop_last());
            }
        }
        r
    }

    /// Takes in the listing of `dir`: returns the dependency directories to
    /// remove there, and adds the other directories to walk into, in the
    /// order of the listing.
    pub fn step(&mut self, dir: &str, entries: &Vec<Entry>) -> (removals: Vec<String>)
        ensures
            path_views(removals@) == clean_paths(dir@, entries@, true),
            final(self).pending() == old(self).pending() + clean_paths(dir@, entries@, false),
    {
        let (removals, descents) = clean_plan(dir, entries);
        let ghost start = self.pending();
        let mut i: usize = 0;
        while i < descents.len()
            invariant
                i <= descents@.len(),
                self.pending() == start + path_views(descents@).take(i as int),
            decreases descents@.len() - i,
        {
            proof {
                lemma_path_views_push(self.stack@, descents@[i as int]);
                assert(path_views(descents@).take(i + 1) =~= path_views(descents@).take(
                    i as int,
                ).push(descents@[i as int]@));
            }
            self.stack.push(descents[i].clone());
            i = i + 1;
        }
        assert(path_views(descents@).take(descents@.len() as int) =~= path_views(descents@));
        removals
    }
}

} // verus!
