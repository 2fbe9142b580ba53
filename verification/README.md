# statusline

A powerline status line for a terminal coding session: reads the session's
JSON payload on stdin and prints one ANSI line (directory, git branch, lines
changed, model, context bar, usage bars).

- `src/` is the verified library (Verus): `text` (character helpers, integer
  and whitespace handling as std does them), `git` (reading
  `git status --porcelain=v2 --branch`), `render` (colors, bars, times, the
  powerline), `input` (the payload as plain values), `segments` (shaping the
  six segments). Each public function has an exact contract over spec
  functions; proof functions state the library's laws (for instance, that a
  rendered line holds exactly one reset before its closing cap and one at
  the end).
- `app/` is the program: stdin, the JSON parse (serde), the `git` command,
  environment variables, the clock, and the floating-point rounding of
  percentages.
- `tests/` runs the library on concrete values.
