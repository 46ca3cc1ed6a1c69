# abr_language_complete

A verified library that turns a text corpus into its complete observable
stream and measures recurrence in it:

- every character of every file becomes one position (character, case
  state, character class, byte offset, source file), and the stream
  reconstructs the texts exactly;
- adjacent positions of one file form the relational substrate, with the
  accounting |R_P| = |X| − F and the class and case transition tables;
- maximal letter runs, case-folded, are scanned for canonical recurrences
  (equal k-grams with different predecessors), counted for K = 1, 2, …
  until K produces none.

Layout: `src/` is the library, written in Verus with its contracts and
laws; `tests/` holds its tests; `app/main.rs` reads the corpus files,
runs the phases and writes a report.
