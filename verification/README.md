# osctet

The verified core of a music tracker: rational musical time, pitch
notation in arbitrary equal and unequal tunings, pattern editing with
undo and redo, synth patch routing, and the sampler chunk of Wave files.
Every function in `src/` carries a contract that Verus proves.

## Layout

- `src/timespan.rs`, `src/arithmetic.rs`: beat fractions in lowest terms,
  their arithmetic (exact where the denominator fits in a byte, otherwise
  computed in double precision and approximated over 255) and its laws.
- `src/doubles.rs`: double-precision rounding carried out in integers,
  which the approximations of beat fractions go through.
- `src/numtheory.rs`: greatest common divisors, computed by the `gcd`
  crate, and the facts about them that the arithmetic rests on.
- `src/pitch.rs`: nominals, notes, and the notation logic of a tuning
  (scale positions, shortest notations, stepping and cycling notes).
- `src/module.rs`: tracks, channels and events; the edits that change them,
  with undo and redo; pattern queries.
- `src/reverting.rs`, `src/entry.rs`, `src/deleting.rs`, `src/shifting.rs`,
  `src/replacing.rs`: what undoing an edit gives back, and that a redo
  after it repeats the edit (`reverting::lemma_undo_restores` gathers them).
- `src/ordering.rs`, `src/stability.rs`: sorting events puts them in order,
  keeps them all, and keeps the order of events at one position.
- `src/synth.rs`: generator outputs and the modulation matrix of a patch,
  and how removing a part renumbers them.
- `src/bytes.rs`, `src/pcm.rs`, `src/smpl.rs`: reading the "smpl" chunk
  of Wave data (the search uses the `memmem` crate).
- `src/input.rs`, `src/ui/`: MIDI messages, enharmonic spelling, hotkey
  modifiers, the context help text of controls, and small pieces of widget
  logic.
- `app/`: a command-line program around the library: the real-valued parts
  (cents, MIDI pitches, tempos and playing time), file reading, and text
  entry.
- `tests/`: tests of the library on concrete values.
