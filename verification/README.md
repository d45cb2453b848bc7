# ruststruct

A tiny CLI that scaffolds a standard Rust project layout in one command, and
cleans up after itself if anything goes wrong. The library behind it is
written in Verus: what it plans is stated in contracts and proved.

## Layout

| Path | Role |
|---|---|
| `src/cli.rs` | the command-line grammar and the mapping to scaffold options |
| `src/config.rs` | the user config layered onto the defaults |
| `src/scaffold.rs` | planning a layout, the dry-run text, judging a finished command, the rollback state |
| `src/file_map.rs` | an ordered map from file paths to contents |
| `src/dir_set.rs` | an ordered set of directory paths, compared component-wise |
| `src/path.rs` | Unix path components, `parent`, `file_name`, `join` |
| `src/text.rs` | character-level text operations: ordering, `replace`, `trim` |
| `src/error.rs` | one typed error per failure mode, with its message |
| `app/` | the program: reading `~/.ruststruct.json`, touching the file system, running `cargo` and `git` |
| `tests/` | tests of the library |

## What is proved

- A plan never holds a path that escapes the project root: every directory
  and every file path is a plain relative path.
- Configured files are layered on top of the templates; a configured path
  replaces the template of the same path.
- Every file's parent directory is planned, and the file lies inside it.
- Directories are ordered and without duplicates (as paths), so a dry run
  is reproducible.
- Every planned directory holds at least one file; a `.gitkeep` is added only
  where no file lies, and never replaces a file.
- An existing root is refused; a root without a usable name is refused when
  no name is given.
- Joined onto any root, every planned path lies strictly inside that root.
- Reordering or repeating the configured directories changes neither the
  plan nor the dry-run text, as long as no directory is configured under two
  spellings of the same path (`scripts` and `scripts/`).
- Rendering the templates leaves no `{{..}}` placeholder, for any package
  name without `{`.
- A run creates the missing directories above the root (outermost first),
  the root, the directories, the files, runs `cargo init` and, if asked,
  `git init`, in that order; it stops at the first failure and then removes
  exactly what it created: the root, then those directories above it,
  innermost first.
