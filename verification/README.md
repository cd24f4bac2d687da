# bevy_kitty

Pixels in a terminal, over the kitty graphics protocol: upload a rectangle of RGBA pixels
once, then move it around with a few dozen bytes per frame.

`src/` is a library verified with Verus. It decides what to upload, what to place and what
to take off the screen, and writes the escape sequences. Its contracts are stated over a
model of the terminal (`screen.rs`), and its laws say that

- what a tick draws is what the terminal shows, and nothing else of the pass
  (`items.rs`, `ghosting.rs`),
- the bytes that are written have one reading only, and the pixels can be decoded from
  them again (`reading.rs`, `decoding.rs`),
- no image is uploaded twice or replaced (`items.rs`), a still scene costs no bytes, a slot
  keeps its placement id, and what is no longer drawn is taken off the screen once, in every
  tick of every run (`ticks.rs`),
- no two images are on screen under one placement id (`ghosting.rs`), and no pass touches
  an image of another's (`ticks.rs`, `ui.rs`),
- things of one image file share an upload only if the cell, the tint and the flip agree
  (`sprite.rs`, `text.rs`, `ui.rs`). The key of an image holds the file name and not the
  directory, and the index of a cell and not its layout: two files of one name in two
  directories share a key, and so do cells of one index under different layouts.

Two things are taken on trust: `base64`'s standard encoder (`proto.rs`) and
`String::push` (`digits.rs`).

`app/` is the Bevy plugin around the library: it reads the engine's components and the
terminal, fetches pixels, and projects positions in floating point. `tests/` runs the
library.
