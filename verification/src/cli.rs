use vstd::prelude::*;

use crate::paths::{join_path, path_join, path_starts_with, path_within, shorten_path, shortened};
use crate::scan::{flags_text, Worktree};
use crate::text::push_str;
use crate::timeutil::{age_label, age_label_text};
use crate::ui::{home_view, texts};

verus! {

/// Why no roots could be chosen.
#[derive(Debug, PartialEq, Eq, Structural)]
pub enum RootsError {
    /// `--all` was asked for and there is no home directory.
    NoHome,
    /// No root is left and the current directory is unknown.
    NoCurrentDir,
}

/// The folders under the home directory that are scanned by default, when they exist.
pub open spec fn default_names() -> Seq<Seq<char>> {
    seq![
        "project"@,
        "Projects"@,
        "Developer"@,
        "dev"@,
        "src"@,
        "code"@,
        "repos"@,
        "work"@,
        "git"@,
        "workspace"@,
    ]
}

/// The default roots to look for under `home`, in order.
pub fn default_root_candidates(home: &str) -> (r: Vec<String>)
    ensures
        r@.len() == default_names().len(),
        forall|i: int| 0 <= i < r@.len() ==> (#[trigger] r@[i])@ == join_path(home@, default_names()[i]),
{
    let names: [&str; 10] = [
        "project",
        "Projects",
        "Developer",
        "dev",
        "src",
        "code",
        "repos",
        "work",
        "git",
        "workspace",
    ];
    let ghost views = names@.map_values(|n: &str| n@);
    assert(views =~= default_names());
    let mut r: Vec<String> = Vec::new();
    let mut i: usize = 0;
    while i < 10
        invariant
            i <= 10,
            names@.len() == 10,
            views == names@.map_values(|n: &str| n@),
            views == default_names(),
            r@.len() == i,
            forall|j: int| 0 <= j < i ==> (#[trigger] r@[j])@ == join_path(home@, views[j]),
        decreases 10 - i,
    {
        r.push(path_join(home, names[i]));
        i = i + 1;
    }
    r
}

/// Whether `path` lies within one of the roots.
pub open spec fn within_any(path: Seq<char>, roots: Seq<Seq<char>>) -> bool {
    exists|i: int| 0 <= i < roots.len() && path_within(path, #[trigger] roots[i])
}

/// The roots to scan: the home directory for `--all` (an error without one);
/// the paths given; otherwise the default folders that exist, with the current
/// directory added when it lies outside them all (an error when nothing is
/// left and the current directory is unknown).
pub open spec fn roots_for(
    all: bool,
    home: Option<Seq<char>>,
    paths: Seq<Seq<char>>,
    defaults: Seq<Seq<char>>,
    cwd: Option<Seq<char>>,
) -> Result<Seq<Seq<char>>, RootsError> {
    if all {
        match home {
            Some(h) => Ok(seq![h]),
            None => Err(RootsError::NoHome),
        }
    } else if paths.len() > 0 {
        Ok(paths)
    } else {
        match cwd {
            Some(c) => if within_any(c, defaults) {
                Ok(defaults)
            } else {
                Ok(defaults.push(c))
            },
            None => if defaults.len() > 0 {
                Ok(defaults)
            } else {
                Err(RootsError::NoCurrentDir)
            },
        }
    }
}

/// Chooses the roots to scan; `defaults` are the default folders that exist.
pub fn choose_roots(
    all: bool,
    home: Option<String>,
    paths: Vec<String>,
    defaults: Vec<String>,
    cwd: Option<String>,
) -> (r: Result<Vec<String>, RootsError>)
    ensures
        match (r, roots_for(all, home_view(home), texts(paths@), texts(defaults@), home_view(cwd))) {
            (Ok(a), Ok(b)) => texts(a@) == b,
            (Err(e), Err(f)) => e == f,
            _ => false,
        },
{
    if all {
        return match home {
            Some(h) => {
                let mut v: Vec<String> = Vec::new();
                v.push(h);
                assert(texts(v@) =~= seq![v@[0]@]);
                Ok(v)
            },
            None => Err(RootsError::NoHome),
        };
    }
    if paths.len() > 0 {
        return Ok(paths);
    }
    let mut roots = defaults;
    match cwd {
        Some(c) => {
            let mut inside = false;
            let mut i: usize = 0;
            while i < roots.len()
                invariant
                    i <= roots@.len(),
                    inside == exists|j: int| 0 <= j < i && path_within(c@, #[trigger] texts(roots@)[j]),
                decreases roots@.len() - i,
            {
                if path_starts_with(c.as_str(), roots[i].as_str()) {
                    inside = true;
                }
                assert(texts(roots@)[i as int] == roots@[i as int]@);
                i = i + 1;
            }
            if !inside {
                let ghost before = roots@;
                roots.push(c);
                assert(texts(roots@) =~= texts(before).push(roots@[before.len() as int]@));
            }
            Ok(roots)
        },
        None => {
            if roots.len() > 0 {
                Ok(roots)
            } else {
                Err(RootsError::NoCurrentDir)
            }
        },
    }
}

/// The line of the listing for a worktree at time `now`: age, repository,
/// branch, flags, folder and path, separated by tabs.
pub open spec fn table_line_text(wt: Worktree, now: i64, home: Option<Seq<char>>) -> Seq<char> {
    age_label_text(wt.last_active, now) + "\t"@ + wt.repo@ + "\t"@ + wt.branch@ + "\t"@
        + flags_text(wt) + "\t"@ + shortened(wt.parent@, home) + "\t"@ + shortened(wt.path@, home)
}

/// Writes the line of the listing for a worktree.
pub fn table_line(wt: &Worktree, now: i64, home: &Option<String>) -> (s: String)
    ensures
        s@ == table_line_text(*wt, now, home_view(*home)),
{
    let mut out = age_label(wt.last_active, now);
    push_str(&mut out, "\t");
    push_str(&mut out, wt.repo.as_str());
    push_str(&mut out, "\t");
    push_str(&mut out, wt.branch.as_str());
    push_str(&mut out, "\t");
    let flags = wt.flags();
    push_str(&mut out, flags.as_str());
    push_str(&mut out, "\t");
    let h1 = match home {
        Some(h) => Some(h.clone()),
        None => None,
    };
    let parent = shorten_path(wt.parent.as_str(), h1);
    push_str(&mut out, parent.as_str());
    push_str(&mut out, "\t");
    let h2 = match home {
        Some(h) => Some(h.clone()),
        None => None,
    };
    let path = shorten_path(wt.path.as_str(), h2);
    push_str(&mut out, path.as_str());
    out
}

/// The header line of the listing.
pub fn table_header() -> (s: &'static str)
    ensures
        s@ == "活跃\t仓库\t分支\t状态\t文件夹\t路径"@,
{
    "活跃\t仓库\t分支\t状态\t文件夹\t路径"
}

/// The line printed when nothing is listed.
pub fn empty_listing() -> (s: &'static str)
    ensures
        s@ == "没有发现带附加 worktree 的仓库"@,
{
    "没有发现带附加 worktree 的仓库"
}

} // verus!
