# spotlauncher

A keyboard-driven launcher for applications and files. The logic is a
verified library (`src/`); the GTK window, the global key listener and the
calls to `plocate` are a thin program around it (`app/`).

- `src/app_index.rs`: the index of installed applications (each identity
  once) and the search over it: case-insensitive substring match on the
  display name, the first ten matches, stably sorted by case-folded name.
- `src/file_index.rs`: the arguments of a file lookup and the reading of its
  output, one file per line, named by the last path component.
- `src/results.rs`: the state of the two result lists: layout after an
  update, switching between the lists, what an activated row stands for.
- `src/keyboard.rs`: global bindings, which of them fire for the keys held,
  and the held-key set kept between key events.
- `src/window_keys.rs`: what a key pressed inside the window does.
- `src/text.rs`: case folding, substring search, string order and trimming.
