# lintus

A linter whose rules are plain-language questions, answered by the Jev model.
Each rule is a noul (true/false) question asked of every file its globs match;
the file is an offense when the answer equals the rule's `offense_when`.

## Layout

- `src/` is the library, verified with Verus: glob matching (Ruby's
  `File.fnmatch` with pathname matching, brace expansion and the directory
  conveniences), the YAML 1.1 loader on top of yaml-rust2's event parser,
  config validation, planning which rules apply to which file, what the
  model's answers come to, reports and their text and GitHub renderings, the
  progress counter, which API key a run uses, and what git's output means.
  Each public function states its result in its contract; the laws of the
  library (sorting ignores the order files finished in, is stable and
  changes nothing the second time; a bare name matches itself and
  everything beneath it and nothing else; wildcards stay within a
  directory; a rule applies exactly when no exclude matches and one of its
  paths does; a mapping keeps its keys distinct, floats compared by value,
  and `<<` merges override what came before; a query asks each identifier
  once; escaped annotation text reads back as it was; a relative path leads
  back to the path; each frame of the progress counter covers the longest
  one before it, and the counter is erased whole) are public proof
  functions.
- `app/` is the `lintus` command: argument parsing, the file system, git, the
  HTTP client, threads, the JSON format and everything that handles floating
  point.
- `tests/` runs the library on concrete cases.

## Usage

```bash
lintus init      # writes a starter .lintus.yml
lintus --list    # shows which files each rule would be asked about
lintus           # lints every file
lintus --diff    # lints the files with uncommitted changes
lintus --staged  # lints what is staged for commit
```

Exit status is 0 when clean, 1 when there are offenses, and 2 when a request
failed or the invocation was wrong.
