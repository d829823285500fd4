# tmux-jump

The logic of a tmux popup that switches between sessions and starts new ones from directories,
written in Rust and proved with Verus.

- `src/` is the library. Every function states what it returns or changes, and Verus proves it.
  - `text`, `paths`, `order`: characters, paths as bytes, and the stable sort behind every list.
  - `ansi`, `names`, `fuzzy`: escape sequences, session names, and fuzzy matching.
  - `sessions`, `commands`: what tmux lists, and the commands that it is given.
  - `tree`, `search`, `indexing`, `store`: the directory tree, the index and its search, building the
    index, and what is kept between two popups.
  - `popup`, `input`, `updates`: the state of the popup, and what keys, clicks and answers do to it.
  - `layout`, `screen`: where the parts of the popup are, and what they show.
  - `tree_laws`, `popup_laws`: what holds of several of these together.
- `app/` runs the popup: the terminal, tmux, the file system and the threads.
- `tests/` runs the library on concrete values.

A few facts about the standard library and about `ratatui` are stated without proof. Each stands above
its function in `text`, `paths` and `layout`.
