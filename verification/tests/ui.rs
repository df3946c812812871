use wtrm::scan::{fixture, ScanResult, Worktree};
use wtrm::remove::BranchScope;
use wtrm::ui::{Action, App, KeyCode, KeyModifiers, RowTone, row_tone};

fn app_with(items: Vec<Worktree>) -> App {
    App::from_scan(
        ScanResult {
            repos: 1,
            worktrees: items,
            errors: Vec::new(),
        },
        "~/project".to_string(),
    )
}

#[test]
fn space_selects_linked_and_skips_main() {
    let mut app = app_with(vec![
        fixture("/repos/demo", "demo", true, Some(10)),
        fixture("/repos/demo/.worktrees/feat", "demo", false, Some(10)),
    ]);
    app.on_key(KeyCode::Char(' '), KeyModifiers::NONE);
    assert!(app.selected.is_empty());
    app.on_key(KeyCode::Char('j'), KeyModifiers::NONE);
    app.on_key(KeyCode::Char(' '), KeyModifiers::NONE);
    assert_eq!(app.selected.len(), 1);
    app.on_key(KeyCode::Char('d'), KeyModifiers::NONE);
    assert!(app.confirm);
    assert_eq!(
        app.on_key(KeyCode::Enter, KeyModifiers::NONE),
        Action::Delete { force: false }
    );
}

#[test]
fn select_all_then_force() {
    let mut app = app_with(vec![
        fixture("/repos/demo", "demo", true, Some(10)),
        fixture("/repos/demo/.worktrees/a", "demo", false, Some(1)),
        fixture("/repos/demo/.worktrees/b", "demo", false, Some(2)),
    ]);
    app.on_key(KeyCode::Char('a'), KeyModifiers::NONE);
    assert_eq!(app.selected.len(), 2);
    app.on_key(KeyCode::Char('d'), KeyModifiers::NONE);
    assert_eq!(
        app.on_key(KeyCode::Char('f'), KeyModifiers::NONE),
        Action::Delete { force: true }
    );
}

#[test]
fn control_c_quits_and_cursor_stays_on_rows() {
    let mut app = app_with(vec![
        fixture("/repos/demo", "demo", true, Some(10)),
        fixture("/repos/demo/.worktrees/a", "demo", false, Some(1)),
    ]);
    assert_eq!(app.on_key(KeyCode::Char('c'), KeyModifiers::CONTROL), Action::Quit);
    app.on_key(KeyCode::End, KeyModifiers::NONE);
    assert_eq!(app.cursor, 1);
    app.on_key(KeyCode::PageUp, KeyModifiers::NONE);
    assert_eq!(app.cursor, 0);
    assert_eq!(app.on_key(KeyCode::Char('r'), KeyModifiers::NONE), Action::Rescan);
    assert_eq!(app.on_key(KeyCode::Char('q'), KeyModifiers::NONE), Action::Quit);
}

#[test]
fn filter_narrows_rows_and_select_all_toggles() {
    let mut app = app_with(vec![
        fixture("/repos/demo", "demo", true, Some(10)),
        fixture("/repos/demo/.worktrees/alpha", "demo", false, Some(1)),
        fixture("/repos/demo/.worktrees/beta", "demo", false, Some(2)),
    ]);
    app.on_key(KeyCode::Char('/'), KeyModifiers::NONE);
    assert!(app.filter_mode);
    for ch in "BETA".chars() {
        app.on_key(KeyCode::Char(ch), KeyModifiers::NONE);
    }
    app.on_key(KeyCode::Enter, KeyModifiers::NONE);
    assert_eq!(app.visible(), vec![2]);
    assert_eq!(app.title(), " wtrm  1/3 worktree · 已选 0 · 1 个仓库 ");
    app.on_key(KeyCode::Char('a'), KeyModifiers::NONE);
    assert_eq!(app.selected, vec!["/repos/demo/.worktrees/beta".to_string()]);
    app.on_key(KeyCode::Char('a'), KeyModifiers::NONE);
    assert!(app.selected.is_empty());
    app.on_key(KeyCode::Char('/'), KeyModifiers::NONE);
    app.on_key(KeyCode::Backspace, KeyModifiers::NONE);
    app.on_key(KeyCode::Esc, KeyModifiers::NONE);
    assert_eq!(app.filter, "");
    assert_eq!(app.visible(), vec![0, 1, 2]);
}

#[test]
fn delete_needs_a_selection() {
    let mut app = app_with(vec![fixture("/repos/demo", "demo", true, Some(10))]);
    app.on_key(KeyCode::Char('d'), KeyModifiers::NONE);
    assert!(!app.confirm);
    assert_eq!(app.status, "先选中要删除的 worktree");
    let mut app = app_with(vec![
        fixture("/repos/demo/.worktrees/a", "demo", false, Some(1)),
        fixture("/repos/demo", "demo", true, Some(10)),
    ]);
    app.on_key(KeyCode::Char('d'), KeyModifiers::NONE);
    assert!(app.confirm);
    assert_eq!(app.on_key(KeyCode::Esc, KeyModifiers::NONE), Action::Continue);
    assert!(!app.confirm);
    assert_eq!(app.selected.len(), 1);
    assert_eq!(app.delete_paths(), vec!["/repos/demo/.worktrees/a".to_string()]);
}

#[test]
fn rescan_drops_gone_selection() {
    let mut app = app_with(vec![
        fixture("/repos/demo/.worktrees/a", "demo", false, Some(1)),
        fixture("/repos/demo/.worktrees/b", "demo", false, Some(2)),
    ]);
    app.on_key(KeyCode::Char('a'), KeyModifiers::NONE);
    assert_eq!(app.selected.len(), 2);
    app.finish_rescan(ScanResult {
        repos: 1,
        worktrees: vec![fixture("/repos/demo/.worktrees/b", "demo", false, Some(2))],
        errors: Vec::new(),
    });
    assert_eq!(app.selected, vec!["/repos/demo/.worktrees/b".to_string()]);
    assert_eq!(app.status, "已刷新，1 个 worktree");
}

#[test]
fn status_reports_scan_errors() {
    let app = App::from_scan(
        ScanResult { repos: 0, worktrees: Vec::new(), errors: vec!["bad".to_string(), "worse".to_string()] },
        "~".to_string(),
    );
    assert_eq!(app.status, "2 个读取错误。bad");
    let app = app_with(Vec::new());
    assert_eq!(app.status, "扫描 ~/project");
    assert_eq!(app.highlighted_row(), None);
}

#[test]
fn rows_render() {
    let mut app = app_with(vec![
        fixture("/repos/demo", "demo", true, Some(10)),
        fixture("/home/u/w/demo-a", "demo", false, Some(10)),
    ]);
    app.now = 100;
    app.on_key(KeyCode::Char('j'), KeyModifiers::NONE);
    app.on_key(KeyCode::Char(' '), KeyModifiers::NONE);
    let home = Some("/home/u".to_string());
    assert_eq!(
        app.row_cells(1, &home),
        vec!["●", "1m", "demo", "feature", "~/w", "clean", "~/w/demo-a"]
    );
    assert_eq!(app.row_cells(0, &home)[0], "·");
    let lines = app.confirm_lines(&home);
    assert_eq!(lines.len(), 3);
    assert_eq!(lines[1], "  clean  feature  ~/w/demo-a");
    assert_eq!(lines[2], "  分支：keep（b 切换 keep / local / local+GitHub）");
    let cleaning = app.clean_lines(&home);
    assert_eq!(
        cleaning,
        vec![
            "将清理 1 个 worktree 里的依赖目录，worktree 本身保留。Enter 确认，Esc 取消。".to_string(),
            "  clean  feature  ~/w/demo-a".to_string(),
        ]
    );
    let browse = app.browse_lines(&None);
    assert_eq!(browse[0], "/home/u/w/demo-a  ·  feature  ·  活跃 1970-01-01 00:00:10Z  ·  clean");
    assert_eq!(row_tone(&app.items[0], 100), RowTone::Dim);
    assert_eq!(row_tone(&app.items[1], 100), RowTone::Plain);
    assert_eq!(row_tone(&app.items[1], 86_400 * 15), RowTone::Stale);
}

#[test]
fn space_twice_gives_back_the_selection() {
    let mut app = app_with(vec![
        fixture("/repos/demo", "demo", true, Some(10)),
        fixture("/repos/demo/.worktrees/feat", "demo", false, Some(10)),
    ]);
    app.on_key(KeyCode::Char('j'), KeyModifiers::NONE);
    let status = app.status.clone();
    app.on_key(KeyCode::Char(' '), KeyModifiers::NONE);
    assert_eq!(app.selected, vec!["/repos/demo/.worktrees/feat".to_string()]);
    app.on_key(KeyCode::Char(' '), KeyModifiers::NONE);
    assert!(app.selected.is_empty());
    assert_eq!(app.cursor, 1);
    assert_eq!(app.status, status);
}

#[test]
fn x_cleans_the_selection_after_confirmation() {
    let mut app = app_with(vec![
        fixture("/repos/demo", "demo", true, Some(10)),
        fixture("/repos/demo/.worktrees/a", "demo", false, Some(1)),
    ]);
    assert_eq!(app.on_key(KeyCode::Char('x'), KeyModifiers::NONE), Action::Continue);
    assert!(!app.clean_confirm);
    assert_eq!(app.status, "先选中要清理的 worktree");
    app.on_key(KeyCode::Char('j'), KeyModifiers::NONE);
    app.on_key(KeyCode::Char('x'), KeyModifiers::NONE);
    assert!(app.clean_confirm);
    assert!(!app.confirm);
    assert_eq!(app.selected, vec!["/repos/demo/.worktrees/a".to_string()]);
    assert_eq!(app.footer_title(), " 确认清理 ");
    assert_eq!(app.footer_height(), 12);
    assert_eq!(app.on_key(KeyCode::Char('f'), KeyModifiers::NONE), Action::Continue);
    assert!(app.clean_confirm);
    assert_eq!(app.on_key(KeyCode::Esc, KeyModifiers::NONE), Action::Continue);
    assert!(!app.clean_confirm);
    app.on_key(KeyCode::Char('x'), KeyModifiers::NONE);
    assert_eq!(app.on_key(KeyCode::Enter, KeyModifiers::NONE), Action::Clean);
    assert!(!app.clean_confirm);
    assert_eq!(app.selected.len(), 1);
}

#[test]
fn b_cycles_the_branch_scope_while_confirming() {
    let mut app = app_with(vec![fixture("/repos/demo/.worktrees/a", "demo", false, Some(1))]);
    assert_eq!(app.scope, BranchScope::Keep);
    app.on_key(KeyCode::Char('b'), KeyModifiers::NONE);
    assert_eq!(app.scope, BranchScope::Keep);
    app.on_key(KeyCode::Char('d'), KeyModifiers::NONE);
    app.on_key(KeyCode::Char('b'), KeyModifiers::NONE);
    assert_eq!(app.scope, BranchScope::Local);
    app.on_key(KeyCode::Char('b'), KeyModifiers::NONE);
    assert_eq!(app.scope, BranchScope::GitHub);
    assert_eq!(app.confirm_lines(&None)[2], "  分支：local+GitHub（b 切换 keep / local / local+GitHub）");
    assert_eq!(app.on_key(KeyCode::Char('f'), KeyModifiers::NONE), Action::Delete { force: true });
    assert_eq!(app.scope, BranchScope::GitHub);
}
