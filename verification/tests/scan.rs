use std::collections::HashSet;

use wtrm::scan::{
    apply_view, branch_label, build_worktree, common_dir_of, count_repos, fixture, git_failure,
    git_stdout, gitdir_of, is_skipped_dir, missing_root, parse_porcelain, plan_jobs, view_scan,
    visit_action, DirWalk, Job, RawWt, ScanResult, VisitAction,
};
use wtrm::paths::Entry;

#[test]
fn parses_porcelain_records() {
    let text = "\
worktree /repo
HEAD aaaa
branch refs/heads/main

worktree /repo/.worktrees/feat
HEAD bbbb
branch refs/heads/feat
locked feature freeze

worktree /gone
HEAD cccc
detached
prunable gitdir file points to non-existent location
";
    let parsed = parse_porcelain(text);
    assert_eq!(parsed.len(), 3);
    assert_eq!(parsed[0].branch.as_deref(), Some("refs/heads/main"));
    assert!(parsed[1].locked);
    assert!(parsed[2].detached);
    assert!(parsed[2].prunable);
}

#[test]
fn older_than_keeps_matching_repo_main() {
    let now = 2_000_000;
    let old = fixture(
        "/repos/old/.worktrees/feat",
        "old",
        false,
        Some(now - 86_400 * 20),
    );
    let old_main = fixture("/repos/old", "old", true, Some(now - 10));
    let fresh = fixture(
        "/repos/new/.worktrees/feat",
        "new",
        false,
        Some(now - 86_400),
    );
    let fresh_main = fixture("/repos/new", "new", true, Some(now - 10));
    let viewed = apply_view(
        vec![fresh, old_main, fresh_main, old],
        Some(86_400 * 10),
        now,
    );
    let repos: HashSet<_> = viewed.iter().map(|wt| wt.repo.as_str()).collect();
    assert_eq!(repos, HashSet::from(["old"]));
    assert!(viewed.iter().any(|wt| wt.main));
    assert!(viewed.iter().any(|wt| wt.deletable()));
}

#[test]
fn view_sorts_deletable_first_then_idle_first() {
    let items = vec![
        fixture("/repos/a", "a", true, Some(5)),
        fixture("/repos/b/.worktrees/y", "b", false, Some(30)),
        fixture("/repos/a/.worktrees/x", "a", false, Some(10)),
        fixture("/repos/c/.worktrees/z", "c", false, None),
        fixture("/repos/a/.worktrees/w", "a", false, Some(10)),
    ];
    let viewed = apply_view(items, None, 100);
    let paths: Vec<&str> = viewed.iter().map(|wt| wt.path.as_str()).collect();
    assert_eq!(
        paths,
        vec![
            "/repos/c/.worktrees/z",
            "/repos/a/.worktrees/w",
            "/repos/a/.worktrees/x",
            "/repos/b/.worktrees/y",
            "/repos/a",
        ]
    );
}

#[test]
fn paths_compare_by_component() {
    let items = vec![
        fixture("/repos/a-b", "a", false, Some(1)),
        fixture("/repos/a/b", "a", false, Some(1)),
    ];
    let viewed = apply_view(items, None, 100);
    assert_eq!(viewed[0].path, "/repos/a/b");
    assert_eq!(viewed[1].path, "/repos/a-b");
}

#[test]
fn flags_and_deletable() {
    let mut wt = fixture("/repos/demo/.worktrees/x", "demo", false, Some(1));
    assert_eq!(wt.flags(), "clean");
    wt.locked = true;
    wt.prunable = true;
    assert_eq!(wt.flags(), "clean,locked,prunable");
    wt.dirty = None;
    assert_eq!(wt.flags(), "unknown,locked,prunable");
    wt.missing = true;
    assert_eq!(wt.flags(), "missing,locked,prunable");
    let main = fixture("/repos/demo", "demo", true, Some(1));
    assert_eq!(main.flags(), "main");
    assert!(!main.deletable());
    assert_eq!(main.parent, "/repos");
    assert_eq!(main.repo_root, "/repos/demo");
    assert_eq!(main.git_common_dir, "/repos/demo/.git");
}

fn raw(path: &str, branch: Option<&str>, bare: bool) -> RawWt {
    RawWt {
        path: path.to_string(),
        head: "h".to_string(),
        branch: branch.map(|b| b.to_string()),
        detached: false,
        bare,
        locked: false,
        prunable: false,
    }
}

#[test]
fn plans_jobs_only_with_extra_worktrees() {
    let only_main = plan_jobs("/r/demo/.git", vec![raw("/r/demo", Some("refs/heads/main"), false)]);
    assert!(only_main.is_empty());
    let jobs = plan_jobs(
        "/r/demo/.git",
        vec![
            raw("/r/demo", Some("refs/heads/main"), false),
            raw("/r/demo-x", Some("refs/heads/x"), false),
        ],
    );
    assert_eq!(jobs.len(), 2);
    assert!(jobs[0].main);
    assert!(!jobs[1].main);
    assert_eq!(jobs[1].repo, "demo");
    assert_eq!(jobs[1].repo_root, "/r/demo");
    let bare = plan_jobs(
        "/r/store.git",
        vec![raw("/r/store.git", None, true), raw("/r/one", Some("refs/heads/one"), false)],
    );
    assert!(bare.is_empty());
    let bare = plan_jobs(
        "/r/store.git",
        vec![
            raw("/r/store.git", None, true),
            raw("/r/one", Some("refs/heads/one"), false),
            raw("/r/two", Some("refs/heads/two"), false),
        ],
    );
    assert_eq!(bare.len(), 3);
    assert_eq!(bare[0].repo_root, "/r/one");
    assert_eq!(bare[0].repo, "one");
    assert!(!bare[0].main);
    assert!(bare[1].main);
    assert!(!bare[2].main);
    assert!(plan_jobs("/r/x/.git", Vec::new()).is_empty());
}

#[test]
fn branch_labels() {
    assert_eq!(branch_label(&raw("/r", Some("refs/heads/feat/x"), false)), "feat/x");
    assert_eq!(branch_label(&raw("/r", Some("refs/heads/refs/heads/y"), false)), "y");
    assert_eq!(branch_label(&raw("/r", None, false)), "(detached)");
    assert_eq!(branch_label(&raw("/r", Some("refs/heads/m"), true)), "(bare)");
    let mut detached = raw("/r", Some("refs/heads/m"), false);
    detached.detached = true;
    assert_eq!(branch_label(&detached), "(detached)");
}

#[test]
fn builds_worktree_from_details() {
    let job = Job {
        raw: raw("/r/demo-x", Some("refs/heads/x"), false),
        repo: "demo".to_string(),
        repo_root: "/r/demo".to_string(),
        git_common_dir: "/r/demo/.git".to_string(),
        main: false,
    };
    let wt = build_worktree(
        job,
        false,
        Some(" M file\n".to_string()),
        Some("86400\n".to_string()),
        Some(50),
        Some(90_000),
    );
    assert_eq!(wt.dirty, Some(true));
    assert_eq!(wt.last_commit, Some(86_400));
    assert_eq!(wt.last_active, Some(90_000));
    assert_eq!(wt.last_active_utc.as_deref(), Some("1970-01-02 01:00:00Z"));
    assert_eq!(wt.branch, "x");
    assert_eq!(wt.parent, "/r");
    let job = Job {
        raw: raw("/r/gone", Some("refs/heads/g"), false),
        repo: "demo".to_string(),
        repo_root: "/r/demo".to_string(),
        git_common_dir: "/r/demo/.git".to_string(),
        main: false,
    };
    let gone = build_worktree(job, true, Some(String::new()), Some("5".to_string()), Some(1), None);
    assert_eq!(gone.dirty, None);
    assert_eq!(gone.last_active, None);
    assert!(gone.missing);
}

#[test]
fn reads_git_files() {
    assert_eq!(
        gitdir_of("/r/demo-x/.git", "gitdir: /r/demo/.git/worktrees/x\n").as_deref(),
        Some("/r/demo/.git/worktrees/x")
    );
    assert_eq!(
        gitdir_of("/r/demo-x/.git", "gitdir: ../demo/.git/worktrees/x").as_deref(),
        Some("/r/demo-x/../demo/.git/worktrees/x")
    );
    assert_eq!(gitdir_of("/r/demo-x/.git", "nothing"), None);
    assert_eq!(gitdir_of("/r/demo-x/.git", ""), None);
    assert_eq!(common_dir_of("/r/demo/.git/worktrees/x", Some("../..\n".to_string())), "/r/demo/.git/worktrees/x/../..");
    assert_eq!(common_dir_of("/r/demo/.git", None), "/r/demo/.git");
    assert_eq!(common_dir_of("/r/demo/.git", Some("  \n".to_string())), "/r/demo/.git");
    assert_eq!(common_dir_of("/r/a", Some("/abs".to_string())), "/abs");
}

#[test]
fn skips_dependency_and_system_dirs() {
    assert!(is_skipped_dir("node_modules"));
    assert!(is_skipped_dir("Music"));
    assert!(!is_skipped_dir("src"));
    assert!(!is_skipped_dir("node_modules2"));
}

#[test]
fn git_output_helpers() {
    assert_eq!(git_stdout("a\nb\r\n\n"), "a\nb");
    assert_eq!(git_failure("  fatal: bad\n", &vec!["status".to_string()]), "fatal: bad");
    assert_eq!(
        git_failure("", &vec!["log".to_string(), "-1".to_string()]),
        "git log -1 失败"
    );
}

#[test]
fn counts_repositories_in_view() {
    let items = vec![
        fixture("/repos/a", "a", true, Some(5)),
        fixture("/repos/a/.worktrees/x", "a", false, Some(10)),
        fixture("/repos/b/.worktrees/y", "b", false, Some(30)),
    ];
    assert_eq!(count_repos(&items), 2);
    let result = view_scan(
        ScanResult { repos: 0, worktrees: items, errors: vec!["e".to_string()] },
        None,
        40,
    );
    assert_eq!(result.repos, 2);
    assert_eq!(result.worktrees.len(), 3);
    assert_eq!(result.errors, vec!["e".to_string()]);
    let later = view_scan(result, Some(25), 40);
    assert_eq!(later.worktrees.len(), 2);
    assert_eq!(later.repos, 1);
    assert_eq!(later.worktrees[0].path, "/repos/a/.worktrees/x");
    assert_eq!(later.worktrees[1].path, "/repos/a");
}

fn entry(name: &str, is_dir: bool) -> Entry {
    Entry { name: name.to_string(), is_dir, is_symlink: false }
}

#[test]
fn walk_visits_each_directory_once_within_depth() {
    let mut walk = DirWalk::new("/home/u");
    assert_eq!(walk.next(), Some(("/home/u".to_string(), 0)));
    assert_eq!(walk.visit("/home/u", 0, 2, false), VisitAction::List);
    walk.expand(&vec![
        entry("a", true),
        entry("node_modules", true),
        entry("notes.txt", false),
        entry("b", true),
    ]);
    assert!(walk.opened.is_none());
    assert_eq!(walk.next(), Some(("/home/u/b".to_string(), 1)));
    assert_eq!(walk.visit("/home/u/b", 1, 2, false), VisitAction::List);
    walk.expand(&vec![entry("deep", true), entry("repo", true)]);
    assert_eq!(walk.next(), Some(("/home/u/b/repo".to_string(), 2)));
    assert_eq!(walk.visit("/home/u/b/repo", 2, 2, true), VisitAction::Record);
    walk.expand(&vec![entry("inner", true)]);
    assert_eq!(walk.next(), Some(("/home/u/b/deep".to_string(), 2)));
    assert_eq!(walk.visit("/home/u/b/deep", 2, 2, false), VisitAction::Skip);
    walk.expand(&vec![entry("deeper", true)]);
    walk.stack.push(("/home/u/b".to_string(), 1));
    walk.stack.push(("/home/u//b/".to_string(), 1));
    assert_eq!(walk.next(), Some(("/home/u/a".to_string(), 1)));
    assert_eq!(walk.visit("/home/u/a", 1, 2, true), VisitAction::Record);
    assert_eq!(walk.next(), None);
    assert_eq!(walk.seen.len(), 5);
}

#[test]
fn repositories_stop_the_search() {
    assert_eq!(visit_action(true, 0, 8), VisitAction::Record);
    assert_eq!(visit_action(true, 8, 8), VisitAction::Record);
    assert_eq!(visit_action(false, 7, 8), VisitAction::List);
    assert_eq!(visit_action(false, 8, 8), VisitAction::Skip);
    assert_eq!(missing_root("/nope"), "不存在: /nope");
}
