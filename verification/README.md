# darkui

The verified core of a chat UI, written in Verus.

- `src/codec.rs`, `src/wire.rs`: the chat log's kv key and value formats
  and the payloads of each message type; each decoder states exactly
  when it succeeds, and round-trip laws tie it to its encoder.
- `src/buffer.rs`: the record store — records sorted by `(timestamp, id)`,
  dedup, an id index that finds the message of each id inserted last,
  removal, and date separators kept in sync with the local days that
  have messages.
- `src/loader.rs`: wake reasons and where loading resumes in the store.
- `src/privmsg.rs`, `src/filemsg.rs`: message text rules (CTCP actions,
  notices, line text, URL ranges and sanitizing, nick colors, fud links).
- `src/evict.rs`: the window + LRU eviction policy.
- `src/editable.rs`, `src/strs.rs`, `src/utf16.rs`, `src/repeat.rs`: the
  editable text buffer with its IME composition, glyph/byte index
  conversions, UTF-16 indices and smooth key repeat.
- `src/keys.rs`: which editor action each key press runs.
- `src/gesture.rs`: tap / long-press / drag arbitration, move throttling,
  the velocity sample window, and which touch owns the gesture session.

`app/` holds what takes floats or the UI around it: float geometry over
the store, gesture measurement, colors, and the decode paths that treat
corrupt stored entries as fatal.

## Assumptions

- The integer wire forms (`ser_u64`, `de_u64` and the length prefixes of
  strings) are stated as little-endian bytes. darkfi-serial writes an
  integer's `to_le()` value in the machine's byte order, so these
  statements hold on little-endian targets only.
- Local dates and times come from the machine's time zone: only the
  choice among chrono's outcomes and offset bounds under a day are
  stated, not which offset applies.
