# ink_md

A terminal markdown reader whose document logic is a verified library.

- `src/` — the library, checked by Verus: markdown parsing (comrak renders
  its tree as CommonMark XML, which the library reads back into its document
  tree); front matter, wikilinks and slide splitting; the block and inline layout of a document tree into styled,
  width-bounded lines (wrapping, code boxes with highlighting, quotes and
  admonitions, lists, tables, images as half-blocks); sanitizing of
  untrusted text and URLs; ANSI output; search and selection painting;
  key strings and two-key chords, presets, the keymap and its listing; the
  reader's step from an input event to its next state and the effects the
  front end carries out (scrolling, search, headings, tabs, theme picker,
  links and their history); the
  status bar; statistics, outlines and diffs; image source handling, data
  URIs, SVG preparation and raster decoding; address checks for fetches.
- `app/` — the `ink` program around it: argument parsing, configuration
  files, file and network input, loading the pictures a document shows, SVG
  rasterizing, and the full-screen terminal interface.
- `tests/` — tests of the library's public functions.
