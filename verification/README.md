# marginalia

Annotations in the margins of your code that surface during review.
`[check]` comments next to code that needs human judgement turn into a
checklist when someone changes the annotated code.

The library in `src/` holds the logic and its proofs (Verus):

- `comments` — line and block comments of a source file;
- `languages` — comment syntax by file extension;
- `annotations` — the `[check]`, `[check:file]`, `[check:all <pattern>]`,
  `[check:tag <name>]` and `[check:ref <name>]` grammar, with
  continuation lines;
- `watchfile` — the `.marginalia` rules file (`when <pattern> changes:`);
- `scope` — the enclosing definition of a comment, over a syntax tree
  copied out of tree-sitter (`treesitter` declares the calls into it);
- `matching` — which annotations a diff activates, dead `[check:all]`
  patterns and orphan `[check:ref]`s (globs through the `glob` crate,
  declared in `globs`);
- `diff` — changed files and ranges assembled from a diff's hunks;
- `scan` — finding the files that hold cross-file annotations, and the
  annotations of one file from its path and contents;
- `output` — the text report.

`app/` is the `marginalia` command: argument parsing (clap), reading the
repository and the diff (git2), reading files, and the JSON report (serde).
