# postio_ui

The rules of a mail client's interface, without a toolkit: what a list window
holds and asks for, what a key press means, what a notification may say, how a
message is drawn and what it is made of, how numbers, names and dates read.
Every rule is executable Rust with a contract, proved by Verus.

- `src/` is the library. `model` holds the plain values it works on, `text`
  the string functions the contracts speak through; each other module is one
  surface. `list` is the windowed message list, `keymap` the resolver, `reader`
  the reading pane, `editor` the composer's document.
- `tests/` runs the library.
- `app/` is what touches the machine: files, clocks, the time zone, layout in
  floating point, and the shapes that cross a socket.

What is taken on trust are a few functions of the standard library (case
mapping, character classes, lossy decoding, formatting a number of seconds) and
`chrono`'s formatting of a date. Each stands behind one small function whose doc
comment says what is claimed of it.
