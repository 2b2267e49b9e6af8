# pepper core, verified

The core of the pepper modal text editor as a Verus library: every function
in `src/` carries a contract that Verus proves.

- `pattern`, `pattern/compiler`: the pattern language used to search and to
  highlight. `compile` accepts exactly the patterns of the grammar stated in
  `pattern_syntax` and reports the first error otherwise; `matches` runs the
  compiled program and returns what the machine of `spec_match` gives; literal
  search patterns provably match exactly the texts that start with them, and
  patterns that are a sequence of single char tests (`pattern/single_chars`:
  ASCII chars, escapes, `.`, `%a %l %u %d %w`) exactly the texts whose first
  chars pass the tests in turn; patterns of alternatives `a|b|..`, each such
  a sequence (`pattern/alternatives`), give what the first alternative that
  matches gives. The optimizer's
  rewrites (char chains into string tests, plain jumps dropped) are stated
  exactly, and `pattern/listing` renders a compiled program.
- `syntax`: cutting lines into tokens (`parse_line` against `spec_parse_line`)
  and keeping the highlighting of a buffer up to date across edits.
- `word_database`, `picker`, `select`: word completion, fuzzy scoring and
  filtering of entries.
- `navigation_history`, `undo`, `register`, `viewport`, `theme`,
  `serialization`, `ui`: editor state with exact contracts, and terminal
  escape codes.
- `platforms/unix_utils`: decoding the bytes a terminal sends into keys
  (`parse_terminal_keys` against `terminal_keys`).
- `script_bindings`: the error report that points into a parsed text.
- `text`: UTF-8 helpers shared by the modules.

`tests/` holds the tests, `app/` the few pieces that stay outside the library
(reference-counted byte buffers, formatted picker entries).
