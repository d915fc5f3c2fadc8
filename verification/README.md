# xentool

Tools for playing microtonal layouts on Intuitive Instruments Exquis MPE
controllers and Wooting analog keyboards: layout files (`.xtn`, `.wtn`),
board geometries, the MIDI messages that colour pads and retune notes by
pitch bend, device discovery and board assignment, and the state behind the
live views.

The library in `src/` is verified with Verus: every public function has a
contract over mathematical models (`Seq`, `Map`, `Set`, integers), and the
laws that span several functions are stated and proved as public proof
functions, for example:

- `xtn_roundtrip::lemma_xtn_round_trip_plain_names` and
  `edit_roundtrip::lemma_dto_round_trip_plain_names`: writing a layout and
  reading it back gives the same layout (the editor's colours come back
  upper-cased: `lemma_dto_round_trip_hex_colours`);
- `wooting::wtn_roundtrip::lemma_wtn_round_trip`: the same for `.wtn`;
- `config::lemma_assignment_is_permutation`, `lemma_sync_keeps_pins`,
  `lemma_no_pins_keeps_order`: boards `board0..boardN-1` get each connected
  device exactly once, and saved pins are kept;
- `exquis::tuning::lemma_retune_law`: how the pitch-bend retuner treats
  bends, note-offs and other messages;
- `exquis::mpe::lemma_touches_sorted`, `lemma_other_devices_untouched`: the
  touch decoder's state (touches kept in a `BTreeMap` by device, channel
  and note);
- `wooting::hidmap::lemma_wtn_index_law`, `lemma_default_map_distinct_indices`:
  how keys are packed into `.wtn` cells;
- `geometry::lemma_boards_follow_shift`: boards as translates of one another;
- `geometry::lemma_rotate_compose`, `lemma_rotate_full_circle`,
  `lemma_rotate_half_turn`, `lemma_rotation_keeps_distance`: hex rotations.

Layout:

- `src/`: the verified library (`exquis/`, `wooting/`, `hud/` and the
  shared modules);
- `tests/`: tests of the library on concrete values;
- `app/`: the `xentool` command: argument parsing, files, MIDI ports,
  and the floating-point parts (colour correction, pitch-bend amounts, the
  pixel placement of the SVG drawing, whose edges, dots and legend come
  from `geometry::svg_edges`, `svg_dots` and `svg_legend`).

Verify with `verus` on `src/lib.rs`; `cargo test` runs the tests.
