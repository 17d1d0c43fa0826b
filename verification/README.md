# submission-similarity

Finds pairs of notebook submissions whose graded cell holds suspiciously
similar code.

The library (`src/`, verified with Verus):

- `lexing` — comment removal: `//` and `/* */` for C, Java and Go (string,
  character and raw-string literals kept), `#` comments and docstrings for
  Python; both scanners read the source character by character, and
  removing comments a second time changes nothing.
- `normalize` — a submission's normalized form: comments removed, all
  whitespace removed, optionally ASCII-lower-cased; every other character
  is kept as it is.
- `profile` — the character 3-gram profile of a text (`grams3`).
- `similarity` — the cosine similarity of two profiles as exact integer
  parts, with its laws: symmetry, score 1 for identical texts, scores in
  `[0, 1]`.
- `boilerplate` — 3-gram sets, how many submissions hold each 3-gram, and
  removal of boilerplate 3-grams from a text.
- `notebook` — the source of the cell with a given `nbgrader.grade_id`.
- `report` — which notebooks match a question, which notebook a student is
  judged by, which pairs are compared, which pairs the table shows, and the
  checks on the run's count settings.
- `sums`, `chars` — finite sums and character helpers.

`app/` is the command-line program: argument parsing, file access, the
floating-point score and threshold, the table and the JSON report.
