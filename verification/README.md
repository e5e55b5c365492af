# radar_core

The engine of a read-only dashboard over many local git repositories: it finds
repositories under configured roots, reads each one's state (branch, remote,
clean/dirty counts, ahead/behind, last commit, last fetch) and runs batch
`fetch` / `pull --ff-only`. A pull never touches a dirty work tree: such a
repository is skipped, never stashed.

- `src/` is the library, verified with Verus: the reading of
  `git status --porcelain=v2 --branch`, the decisions of the directory walk,
  the orders in which repositories are listed, what a batch runs, skips and
  reports, and the checks behind the commands. `src/laws.rs` holds properties
  stated over all inputs.
- `app/` is the I/O around it: the directory walk (walkdir), git processes,
  timeouts and concurrency (tokio), settings on disk (serde_json) and the
  commands of the desktop shell.
- `tests/` runs the library on concrete inputs.
