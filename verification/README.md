# Glance

A fast, native image viewer and light editor for Linux, on GTK 4 and libadwaita.

The logic is a Verus library: what a file is and how its bytes become pixels, how a
folder is ordered and walked, what the crop, resize, draw, text and tone tools come
to, how edits are replayed, undone and written out, and how a file is brought to a
size. Every function of it carries a contract, and Verus proves all of them but those
of the small wrappers around other crates, which are trusted.

## Layout

- `src/`: the library.
  - `loader`, `format`, `decoders/`, `colour`, `thumbs`: from bytes to pixels.
  - `picture`, `export`, `rotation`, `tone`, `text`, `draw`, `crop`, `compress`: from
    pixels to the bytes of a file.
  - `paths`, `order`, `playlist`, `filmstrip`: the folder.
  - `viewer`, `session`, `panel`, `gestures`, `angles`, `stack`, `tiles`, `scene`, `settings`:
    what the window decides.
  - `double`, `single`, `floating`: floating-point arithmetic carried out in integers,
    so that what depends on how a step rounds can be stated exactly.
  - `wording`: messages.
- `tests/`: what the library does on given values.
- `app/`: the GTK program around it: windows, input, drawing, files, threads, and what
  only the system's libraries can do.

## What is trusted

The library calls `image` and `moxcms`, and a few functions of the standard library,
through small wrappers. The comment above each one says which function it
calls and what its contract claims of it.
