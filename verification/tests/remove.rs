use wtrm::paths::Entry;
use wtrm::remove::{
    git_outcome, git_target_args, matched_paths, removal_command, CleanWalk,
    branch_name, clean_plan, delete_one, delete_outcomes, delete_targets, deletes_remote,
    github_remote, github_target, is_dependency_dir, local_note, plan_branches, remote_note,
    step_note, summarize, summarize_clean, walks_into, BranchScope, BranchStep, CleanOutcome,
    DeleteOutcome, DeleteReport,
};
use wtrm::scan::fixture;

#[test]
fn github_remote_prefers_origin() {
    let text = "\
upstream\tgit@github.com:other/demo.git (fetch)
upstream\tgit@github.com:other/demo.git (push)
origin\thttps://github.com/harryisfish/demo.git (push)
gitlab\tgit@gitlab.com:acme/demo.git (push)
";
    assert_eq!(github_remote(text).as_deref(), Some("origin"));
}

#[test]
fn refuses_main_checkout() {
    let wt = fixture("/repos/demo", "demo", true, Some(10));
    let err = delete_one(&wt, true).unwrap_err();
    assert!(err.contains("main checkout"));
}

#[test]
fn github_remote_first_and_stops() {
    let text = "gitlab\tgit@gitlab.com:a/b.git (fetch)\nup\thttps://github.com/a/b (fetch)\nfork\tgit@github.com:c/b (push)\n";
    assert_eq!(github_remote(text).as_deref(), Some("up"));
    assert_eq!(github_remote("gitlab\tgit@gitlab.com:a/b.git\n"), None);
    assert_eq!(github_remote("\norigin\thttps://github.com/a/b\n"), None);
    assert_eq!(github_remote(""), None);
    assert_eq!(github_target(Ok("gitlab x\n".to_string())), Err("no GitHub remote".to_string()));
    assert_eq!(github_target(Err("boom".to_string())), Err("boom".to_string()));
    assert_eq!(
        github_target(Ok("origin https://github.com/a/b (push)".to_string())),
        Ok("origin".to_string())
    );
}

#[test]
fn delete_rules() {
    let mut wt = fixture("/repos/demo/.worktrees/x", "demo", false, Some(10));
    assert_eq!(
        delete_one(&wt, false).unwrap(),
        vec!["worktree", "remove", "/repos/demo/.worktrees/x"]
    );
    assert_eq!(
        delete_one(&wt, true).unwrap(),
        vec!["worktree", "remove", "--force", "--force", "/repos/demo/.worktrees/x"]
    );
    wt.dirty = Some(true);
    assert!(delete_one(&wt, false).unwrap_err().contains("干净"));
    assert!(delete_one(&wt, true).is_ok());
    wt.missing = true;
    assert!(delete_one(&wt, false).is_ok());
    wt.locked = true;
    assert_eq!(delete_one(&wt, false).unwrap_err(), "locked; press f to force");
    let at_root = fixture("/repos/demo", "demo", false, Some(10));
    assert!(delete_one(&at_root, true).unwrap_err().contains("main checkout"));
}

#[test]
fn scope_cycles() {
    assert_eq!(BranchScope::default(), BranchScope::Keep);
    assert_eq!(BranchScope::Keep.next(), BranchScope::Local);
    assert_eq!(BranchScope::Local.next(), BranchScope::GitHub);
    assert_eq!(BranchScope::GitHub.next(), BranchScope::Keep);
    assert_eq!(BranchScope::GitHub.label(), "local+GitHub");
    assert_eq!(BranchScope::Keep.label(), "keep");
}

#[test]
fn summaries() {
    let report = DeleteReport {
        worktrees: vec![
            DeleteOutcome { path: "/a".to_string(), error: None },
            DeleteOutcome { path: "/b".to_string(), error: Some("locked".to_string()) },
            DeleteOutcome { path: "/c".to_string(), error: Some("dirty".to_string()) },
        ],
        branch_notes: vec!["deleted local x".to_string(), "y: kept, still checked out".to_string()],
    };
    assert_eq!(
        summarize(&report),
        "deleted 1, 2 failed: /b (locked). deleted local x; y: kept, still checked out"
    );
    let clean = DeleteReport {
        worktrees: vec![DeleteOutcome { path: "/a".to_string(), error: None }],
        branch_notes: Vec::new(),
    };
    assert_eq!(summarize(&clean), "deleted 1 worktrees");
    let outcome = CleanOutcome {
        removed: vec!["/a/node_modules".to_string()],
        errors: Vec::new(),
    };
    assert_eq!(summarize_clean(&outcome), "cleaned 1 dependency directories");
    let failed = CleanOutcome {
        removed: Vec::new(),
        errors: vec!["x: no".to_string(), "y".to_string()],
    };
    assert_eq!(summarize_clean(&failed), "cleaned 0 dependency directories, 2 failed: x: no");
}

#[test]
fn plans_branch_deletion() {
    let mut main = fixture("/repos/demo", "demo", true, Some(1));
    main.branch = "shared".to_string();
    let mut a = fixture("/repos/demo/.worktrees/a", "demo", false, Some(1));
    a.branch = "shared".to_string();
    let b = fixture("/repos/demo/.worktrees/b", "demo", false, Some(1));
    let mut c = fixture("/repos/demo/.worktrees/c", "demo", false, Some(1));
    c.branch = "feature".to_string();
    let mut d = fixture("/repos/demo/.worktrees/d", "demo", false, Some(1));
    d.branch = "(detached)".to_string();
    let items = vec![main, a, b, c, d];
    let removed = delete_targets(
        &items,
        &vec![
            "/repos/demo/.worktrees/a".to_string(),
            "/repos/demo/.worktrees/b".to_string(),
            "/nowhere".to_string(),
            "/repos/demo/.worktrees/c".to_string(),
            "/repos/demo/.worktrees/d".to_string(),
        ],
    );
    assert_eq!(removed, vec![1, 2, 3, 4]);
    assert!(plan_branches(&items, &removed, BranchScope::Keep).is_empty());
    let steps = plan_branches(&items, &removed, BranchScope::Local);
    assert_eq!(steps.len(), 3);
    assert!(matches!(&steps[0], BranchStep::Kept { name } if name == "shared"));
    assert!(matches!(&steps[1], BranchStep::Delete { item: 2, name } if name == "feature"));
    assert!(matches!(&steps[2], BranchStep::NoBranch { path } if path == "/repos/demo/.worktrees/d"));
    assert_eq!(step_note(&steps[0]), "shared: kept, still checked out");
    assert_eq!(step_note(&steps[2]), "/repos/demo/.worktrees/d: no local branch");
    assert_eq!(local_note("feature", &None), "deleted local feature");
    assert_eq!(local_note("feature", &Some("boom".to_string())), "feature: boom");
    assert_eq!(remote_note("feature", &Ok("origin".to_string())), "deleted origin/feature");
    assert_eq!(branch_name(&items[4]), None);
    assert_eq!(branch_name(&items[2]).as_deref(), Some("feature"));
}

#[test]
fn dependency_dirs() {
    assert!(is_dependency_dir("node_modules"));
    assert!(is_dependency_dir(".gradle"));
    assert!(!is_dependency_dir("dist"));
    assert!(!walks_into(".git"));
    assert!(!walks_into("target"));
    assert!(walks_into("apps"));
}

#[test]
fn clean_plan_removes_dependencies_and_walks_the_rest() {
    let listing = vec![
        Entry { name: "src".to_string(), is_dir: true, is_symlink: false },
        Entry { name: "node_modules".to_string(), is_dir: true, is_symlink: false },
        Entry { name: ".git".to_string(), is_dir: true, is_symlink: false },
        Entry { name: "target".to_string(), is_dir: false, is_symlink: false },
        Entry { name: "venv".to_string(), is_dir: false, is_symlink: true },
        Entry { name: "target".to_string(), is_dir: true, is_symlink: false },
        Entry { name: "apps".to_string(), is_dir: true, is_symlink: false },
    ];
    let (removals, descents) = clean_plan("/w/x/", &listing);
    assert_eq!(removals, vec!["/w/x/node_modules".to_string(), "/w/x/target".to_string()]);
    assert_eq!(descents, vec!["/w/x/src".to_string(), "/w/x/apps".to_string()]);
    let (none, also_none) = clean_plan("/w", &Vec::new());
    assert!(none.is_empty() && also_none.is_empty());
}

#[test]
fn deletes_each_branch_once() {
    let mut a = fixture("/repos/demo/.worktrees/a", "demo", false, Some(1));
    a.branch = "topic".to_string();
    let mut b = fixture("/repos/demo/.worktrees/b", "demo", false, Some(1));
    b.branch = "topic".to_string();
    let mut c = fixture("/repos/other/.worktrees/c", "other", false, Some(1));
    c.branch = "topic".to_string();
    let items = vec![a, b, c];
    let steps = plan_branches(&items, &vec![0, 1, 2], BranchScope::GitHub);
    assert_eq!(steps.len(), 2);
    assert!(matches!(&steps[0], BranchStep::Delete { item: 0, name } if name == "topic"));
    assert!(matches!(&steps[1], BranchStep::Delete { item: 2, name } if name == "topic"));
    let kept = plan_branches(&items, &vec![0], BranchScope::Local);
    assert!(matches!(&kept[0], BranchStep::Kept { name } if name == "topic"));
}

#[test]
fn outcomes_keep_failures_and_list_what_went() {
    let items = vec![
        fixture("/repos/demo/.worktrees/a", "demo", false, Some(1)),
        fixture("/repos/demo/.worktrees/b", "demo", false, Some(1)),
        fixture("/repos/demo/.worktrees/c", "demo", false, Some(1)),
    ];
    let (outcomes, removed) =
        delete_outcomes(
            &items,
            &vec![2, 0, 1],
            &vec![
                "/repos/demo/.worktrees/c/".to_string(),
                "/repos/demo/.worktrees/a".to_string(),
                "/repos/demo/.worktrees/b".to_string(),
            ],
            &vec![None, Some("locked".to_string()), None],
        );
    assert_eq!(removed, vec![2, 1]);
    assert_eq!(outcomes.len(), 3);
    assert_eq!(outcomes[0].path, "/repos/demo/.worktrees/c/");
    assert_eq!(outcomes[1].error.as_deref(), Some("locked"));
    assert!(outcomes[2].error.is_none());
    assert!(deletes_remote(BranchScope::GitHub, &None));
    assert!(!deletes_remote(BranchScope::GitHub, &Some("no".to_string())));
    assert!(!deletes_remote(BranchScope::Local, &None));
}

#[test]
fn removal_runs_one_git_command() {
    let wt = fixture("/repos/demo/.worktrees/a", "demo", false, Some(1));
    assert_eq!(git_target_args(&wt, true), vec!["-C", "/repos/demo"]);
    assert_eq!(git_target_args(&wt, false), vec!["--git-dir", "/repos/demo/.git"]);
    assert_eq!(
        removal_command(&wt, true, true).unwrap(),
        vec!["-C", "/repos/demo", "worktree", "remove", "--force", "--force", "/repos/demo/.worktrees/a"]
    );
    assert_eq!(
        removal_command(&wt, false, false).unwrap(),
        vec!["--git-dir", "/repos/demo/.git", "worktree", "remove", "/repos/demo/.worktrees/a"]
    );
    let main = fixture("/repos/demo", "demo", true, Some(1));
    assert_eq!(removal_command(&main, true, true).unwrap_err(), "refusing to delete the main checkout");
    assert_eq!(git_outcome(true, "noise", "failed"), Ok(()));
    assert_eq!(git_outcome(false, "  fatal: no\n", "failed"), Err("fatal: no".to_string()));
    assert_eq!(
        git_outcome(false, "", "git worktree remove failed"),
        Err("git worktree remove failed".to_string())
    );
}

#[test]
fn clean_walk_removes_and_descends() {
    let mut walk = CleanWalk::new("/w");
    assert_eq!(walk.next(), Some("/w".to_string()));
    let removals = walk.step(
        "/w",
        &vec![
            Entry { name: "node_modules".to_string(), is_dir: true, is_symlink: false },
            Entry { name: "apps".to_string(), is_dir: true, is_symlink: false },
            Entry { name: "lib".to_string(), is_dir: true, is_symlink: false },
        ],
    );
    assert_eq!(removals, vec!["/w/node_modules".to_string()]);
    assert_eq!(walk.next(), Some("/w/lib".to_string()));
    assert!(walk
        .step("/w/lib", &vec![Entry { name: "x.rs".to_string(), is_dir: false, is_symlink: false }])
        .is_empty());
    assert_eq!(walk.next(), Some("/w/apps".to_string()));
    let inner = walk.step(
        "/w/apps",
        &vec![Entry { name: "target".to_string(), is_dir: true, is_symlink: false }],
    );
    assert_eq!(inner, vec!["/w/apps/target".to_string()]);
    assert_eq!(walk.next(), None);
}

#[test]
fn targets_match_paths_by_component() {
    let items = vec![
        fixture("/repos/demo/.worktrees/a", "demo", false, Some(1)),
        fixture("/repos/demo/.worktrees/b", "demo", false, Some(1)),
    ];
    let asked = vec![
        "/repos/demo//.worktrees/b/".to_string(),
        "/nowhere".to_string(),
        "/repos/demo/./.worktrees/a".to_string(),
    ];
    assert_eq!(delete_targets(&items, &asked), vec![1, 0]);
    assert_eq!(
        matched_paths(&items, &asked),
        vec!["/repos/demo//.worktrees/b/".to_string(), "/repos/demo/./.worktrees/a".to_string()]
    );
    let mut at_root = fixture("/repos/demo/", "demo", false, Some(1));
    at_root.repo_root = "/repos//demo".to_string();
    assert_eq!(delete_one(&at_root, true).unwrap_err(), "refusing to delete the main checkout");
}
