# bbtidy

A conservative formatter and linter for BitBake metadata, written in Verus: the
library states what every function does, and the proofs are checked with it.

## What is proved

- The syntax tree is lossless: its nodes follow one another and together are
  the source (`syntax`).
- Formatting is idempotent, and with the default layout it keeps what every
  statement says (`idempotence`). It changes white space only, and with the
  layout of one item per line also the backslashes that end lines; comments,
  functions, Python definitions and unknown syntax are kept to the letter, and
  with the default layout so are the continuation lines of statements
  (`preservation`).
- The safe edits of a lint run always apply; they strip blanks at the ends of
  lines and append a final newline, and nothing else (`fixes`). A text without
  braces and carriage returns can be linted again afterwards, and nothing is
  left for the edits to do (`tidying`).
- The files that a command reads are in order, each once, and none of them is
  left out by the configuration (`discovery`).
- Reports hold exactly the findings of the enabled rules, in order (`lint`).
  Options choose from the report without options, only findings on lines can be
  fixed, and a file outside a complete layer is not checked against the
  workspace (`selection`).
- A repository-wide write that fails leaves every file that nobody else edited
  as it was, or its original in a backup; a file that a look shows to be changed
  is not overwritten (`transaction`, `recovery`). This holds of a file system whose
  answers are true: a file is created only where there was none, and only a file
  that is there is renamed.
- A dependency of a file on another is reported as a cycle exactly where
  dependencies lead back, with the files on a shortest such way; a file is in a
  cycle with itself only where it depends on itself (`dependencies`). A class
  resolves to the first file that the search for it finds (`lookup`).
- A BitBake operation stays within its budgets of commands, recipe queries, time
  and output (`bitbake`), and its commands end (`session`).

## Layout

- `src/` is the library. `scanner`, `braces`, `syntax` and `tree` read metadata;
  `formatter` writes it; `checks`, `recipes`, `layer_rules` and `references` find
  faults; `layers`, `workspace` and `dependencies` index files; `keys` and
  `overrides` resolve overrides; `bitbake`, `session`, `semantic`, `environment`,
  `inventory` and `output` drive and read BitBake; `config`, `discovery`, `inputs`, `runs`
  and `report_text` decide what a command does.
- `tests/` runs the library.
- `app/` is the program: arguments, files, processes and reports.

The library trusts the globs of `globset`, the diffs of `similar` and a few
functions on strings; their contracts stand in `config`, `inputs`, `bitbake` and
`text`.
