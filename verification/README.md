# muzak

A small music toolkit around a plain-text score format ("bells-text"):
parsing scores, writing notes back as text, planning their playback, and
converting MusicXML documents into the format. The library is written in
Verus. Every function in it is verified against its contract, except a few
small trusted functions that call the standard library or the `musicxml`
crate, or read one level of the element tree that `musicxml` parses; their
contracts are taken on trust and their doc comments say what they claim.

## Layout

- `src/types.rs` — the score model (notes, events, parts, tempos) and the
  timing rules: how long a note value lasts at a tempo, how long a part and
  a score last.
- `src/duration.rs` — a nanosecond time span with the standard library's
  range and arithmetic.
- `src/parse.rs` — the text format as a grammar over characters, its parser,
  and the proof that written notes and events read back unchanged.
- `src/fmt.rs` — writing notes and events in the text format.
- `src/mix.rs` — which part plays with which instrument, and when each event
  starts, how long it lasts and at what loudness.
- `src/numtext.rs` — decimal numbers as text, read with the standard
  library's integer rules.
- `src/compile/` — the MusicXML conversion: `document.rs` reads MusicXML text
  (not compressed `.mxl` archives) with the `musicxml` crate into the
  document tree, `xml.rs` holds that tree as plain values, `read.rs` reads it
  into an intermediate score, `output.rs` cleans that score up
  (transposition, tempo markings, tied chords, staccato), `text.rs` writes it
  out and `lines.rs` merges runs of whole-measure rests, never across tracks.
- `app/` — the command-line program: file and terminal I/O, and sound
  synthesis with `rodio`.
- `tests/` — tests of the library on concrete values.
