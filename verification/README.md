# wtrm

Lists the git worktrees on this machine by how recently they were active, and
deletes the ones picked in a terminal interface (the main checkout never).

- `src/` is the library, verified with Verus: what a scan keeps and in which
  order, the parsing of `git worktree list --porcelain` and of `.git` files,
  the search for repositories, the rules for deleting worktrees and their
  branches and for cleaning dependency directories, durations, ages and UTC
  dates, and the state machine of the interface with the texts it shows.
- `app/` is the `wtrm` command around it: arguments, the disk, git, and
  drawing with ratatui.
- `tests/` runs the library on examples.
