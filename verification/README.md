# creamui

The platform-independent core of the CreamUI toolkit, written in Verus:
each function carries a `requires`/`ensures` contract that Verus proves.

- `src/reactive.rs` — signals, effects that re-run when a signal they read
  changes, batches and disposable owner scopes, all held in a `Runtime`.
- `src/context.rs` — scoped context values.
- `src/theme.rs`, `src/loader.rs`, `src/persist.rs` — colours and their hex
  notation, colour schemes, corner styles, theme files and how an
  appearance selection resolves; the paths of the shared theme directory.
- `src/platform.rs`, `src/seat.rs` — window-platform values, keyboard and
  pointer decisions, the user-event queue and the event-loop timeout.
- `src/render.rs`, `src/shaping.rs` — image halving, row copies, glyph
  atlas packing and bookkeeping, instance slot stores and slot reuse, draw
  batching by image, frame diff pairing and the full-repaint decision,
  layer nesting, the shaped-text LRU cache and the text layout cache.
- `src/pointer.rs` — how a window reacts to pointer events: hover, cursor
  shape, focus, clicks, drags and the click a drag holds back.
- `src/tray.rs` — the tray icon and menu model.

`app/` holds what Verus does not see: file and environment access, serde
records, the tray service registration and the cross-thread event-loop
plumbing. `tests/` runs the library on concrete values.
