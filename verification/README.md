# Process Tab Manager

A vertical tab bar for terminal windows on Linux/X11: a sidebar that lists the
desktop's windows, lets you group, rename, reorder and collapse them, and
activates and snaps a window beside the sidebar when you click it.

The logic is written in Verus and proved against its contracts; the program
around it talks to the X server, draws, and reads and writes files.

## Layout

- `src/` — the verified library.
  - `state` — the application state: windows, active window, renames, hidden
    windows, tab groups and the top-level display order; `snapshot` — what is
    saved across restarts and how a snapshot is matched back to live windows.
  - `panel` — the sidebar's model: items, groups, rows, hit testing, drop
    resolution, the context menu; `draw` — the frame it paints, as a list of
    rectangles and texts with colour roles; `events` — the event loops'
    decisions (which clients are listed, presses, hover, drag tracking).
  - `sidebar`, `icon`, `config`, `filter`, `geometry`, `bridge`, `row`,
    `x11::ewmh`, `x11::connection` — sidebar items, icon lookup paths,
    settings, class filtering, snapping, event translation and EWMH property
    parsing.
  - `laws` — properties that span several operations (undoing a reorder,
    restoring a snapshot, what the display items cover and in which order,
    what a refresh keeps); `drops` — what a drag-and-drop keeps of the panel.
- `tests/` — tests of the library on concrete values.
- `app/` — the X11 program: connection, event loop, painting, persistence
  files and icon files on disk.
