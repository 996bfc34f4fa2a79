# clipwise

The verified core of Clipwise, a keyboard-first clipboard manager for Linux.

`src/` is the library, checked by Verus:

- `item` — clipboard entries, their copy instants, and the decision whether
  text read from the clipboard is new.
- `history` — the display order (pinned first, newest first, stable), how new
  clipboard text enters the history (deduplication, the cap on unpinned
  entries), and the laws these keep.
- `search` — fuzzy filtering of the history and the order of matches.
- `session` — the launcher state and what keys and row buttons do to it.
- `storage` — the layout of the history in a key-value store: the writes that
  store it and how it is read back, with the read-back laws.
- `frame` — laws over whole frames: the cap, the pinned entries left alone,
  and the store holding the history after each change's writes.
- `clock`, `text`, `paths` — ages in words, one-line previews, file locations.

`app/` is the program around it: the egui window, the clipboard watcher
thread, and the sled database. `tests/` exercises the library.
