# project_panel

The logic of an editor's project panel, verified with [Verus](https://github.com/verus-lang/verus):

- **File badges.** Rules of the settings pair a glob over file names with a regular expression over
  file contents. Files that match get a badge, at the file itself or at a directory above it. What
  was found in a file is cached by its inode, modification time and size, and the cache outlasts
  the session.
- **Test groups.** The test files of each directory can be folded into one row that follows the
  rest of the directory.

## Layout

| Where | What |
| --- | --- |
| `src/rel_path.rs`, `src/root.rs`, `src/worktree.rs` | paths, roots, entries and snapshots of a worktree |
| `src/order.rs`, `src/sorted_map.rs`, `src/text.rs` | ordered keys, the map over them, texts |
| `src/patterns.rs`, `src/json.rs`, `src/matcher.rs` | globs, regular expressions and fingerprints |
| `src/badge.rs`, `src/rules.rs` | badges, rules, and which settings govern a path |
| `src/cache.rs`, `src/plan.rs`, `src/read.rs`, `src/badges.rs` | what is known, what is read, what is shown |
| `src/worker.rs` | a run over all worktrees, as a sequence of steps |
| `src/file_badges.rs` | the badges of the panel: when they are computed and published |
| `src/test_groups.rs` | the groups of test files |
| `src/badge_laws.rs`, `src/cache_laws.rs`, `src/test_group_laws.rs` | what holds of rules, badges, caches and groups |
| `src/run.rs` | a run as a whole, whatever the file system and the database answer |
| `src/output_laws.rs`, `src/run_laws.rs` | what holds of a run's output and caches, and of two runs in a row |
| `src/truth_laws.rs` | what the badges say of the texts of the files |
| `src/group_update_laws.rs`, `src/row_laws.rs` | what holds of the groups over all worktrees of an update, and of each row |
| `app/` | file system, database, timers and settings around the library |

`globset`, `regex`, `serde_json` and `sha2` are called through small functions whose contracts are
taken on trust; each says so in its doc comment. They are in `src/patterns.rs`, `src/json.rs`,
`src/matcher.rs` and, for what is asked of the standard library, `src/text.rs`.
