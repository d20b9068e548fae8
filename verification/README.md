# mdq

A Markdown navigation library, verified with Verus: an annotated outline of a
document with stable section ids (`tree`), extraction of a section by id
(`get`), and line search mapped to sections (`find`).

- `src/` is the verified library. `document` splits the text into lines and
  finds ATX and setext headings; `section` builds the section tree, its ids
  and line ranges; `summary` picks and describes the first block of each
  section; `search` matches lines (plainly or through the `regex` crate);
  `render` produces the text and JSON outputs; `command` runs a parsed
  command and reports errors; `cli` holds the options and their checks;
  `error` the errors and JSON escaping; `text` the string helpers.
  `laws` states what holds across functions: lines cover the text, where
  sections end, what `get` and `find` return, when a summary appears.
- `tests/` exercises the library on concrete documents.
- `app/` is the program: argument parsing with `clap`, reading the file,
  writing the output streams.
