# awl

The logic of awl, a markdown writing app, as a library verified with Verus,
with a thin command-line shell around it.

- `src/` — the verified library:
  - `text` — string and byte helpers the other modules share (UTF-8, decimal
    numbers, lines, white-space separated words).
  - `frontmatter` — the YAML front-matter block and the CJK language ladder.
  - `fs` — the filesystem seam, its in-memory backend, and first-run seeding.
  - `fuzzy` — the fuzzy-match score and the ranked picker list.
  - `history` — local snapshot history: the log codec, the aged retention
    ladder, the store, and the timeline picker rows.
  - `index` — the workspace file index, recency ordering and directory levels.
  - `keyspec`, `keymap`, `keytoken` — the chord grammar, the editor commands,
    the binding layers and the key-event state machine, and the chord tokens
    of the docs.
  - `keymap_defaults` — the check of the default-chord data file, read as
    plain values.
  - `hud`, `lifetime`, `lava` — the integer parts of the stats HUD and the
    lava backdrop's decisions.
- `tests/` — the tests, run against the compiled library.
- `app/` — the command-line program: the real filesystem, git, the clock, the
  environment, and the floating-point readouts.
