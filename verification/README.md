# cdtree

An interactive directory tree for the terminal: it opens at the home
directory, expanded down to the working directory, and hands the chosen
directory back to the shell (`cd`), to the system's opener, or to the code
editor. Recently chosen directories are kept in a history list.

The library in `src/` is written in Verus and verified:

- `path`, `pathtext`, `text`, `order`: paths as names and as the text they
  are written with (joining, parent, what is left under a prefix), text
  helpers (lines, trimming, searching), the order of directory entries.
- `node`, `tree`, `snapshot`: the tree of directories, what loading, expanding,
  collapsing and counting do to it, and the rows it is drawn as. Directory
  listings are read by the caller and handed in as snapshots.
- `app`, `step`: the navigator's state and every operation on it (selection,
  scrolling, visibility switches, history view, search), and the step that
  carries out one command and tells the event loop how to go on.
- `history`, `config`, `mode`: the visit history, the settings and themes, the
  exit mode.
- `view`, `rows`, `input`: layout numbers, labels, search highlighting, the
  pieces each row of the tree and of the history is drawn from, and the
  meaning of keys and clicks.
- `shell`: the shell integration text: quoting, the managed rc-file block,
  removing older forms of it, and the doctor's findings.

`app/` is the program around it: command-line flags, the terminal loop
(crossterm, ratatui), reading directories, saving JSON files, and writing the
rc files.
