# acerola_mangadex

A command-line downloader of MangaDex chapters as CBZ archives, whose rules
are proved with Verus.

- `src/` is the verified library: how a title link becomes a manga id, how the
  chapter feed is grouped and ordered, how a selection (`all`, `7`, `100-200`,
  chapter `0.01`, chapter range `100-200`) is parsed and resolved, how folders,
  CBZ files and page entries are named, and the decisions of the HTTP client
  (feed paging, retries, back-off, rate-limit delays, request spacing).
- `app/` is the program around it: arguments and prompts, the HTTP client,
  JSON decoding, files and ZIP writing.
- `tests/` runs the library on concrete values.

Chapter numbers are compared as the `f64` values their texts parse to:
each text is read exactly with the grammar of float literals, then rounded
to the nearest binary64 value (ties to even, overflow to infinity, underflow
to zero), all with integer arithmetic on decimal digits.
