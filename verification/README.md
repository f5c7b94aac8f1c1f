# bittorrent

A bencode decoder that reads its input one character at a time, verified
with Verus.

- `src/bencode/types.rs`: the decoder's state (`Context`), the decoded value
  (`JsonValue`, seen by the specification as `Json`), the errors, and the
  operations that place a value where the state's path points.
- `src/bencode/handlers.rs`: what each kind of value (integer, string, list,
  dictionary) does with the characters that start, fill and end it.
- `src/bencode/character_processor.rs`: the step from one state to the next.
- `src/bencode/decoder.rs`: decoding a whole text; `decode` gives a
  `serde_json::Value`.
- `src/bencode/json.rs`: the conversion to `serde_json::Value` and the text
  of each error.
- `src/bencode/number.rs`: integer numerals, read as `str::parse` reads them.
- `src/bencode/paths.rs`, `src/bencode/encoding.rs`, `src/bencode/shape.rs`:
  reading and replacing along a path; the bencode text of a value and the
  proof that decoding it gives the value back; the shape that every decoded
  state keeps.
- `src/bencode/compose.rs`: any text of one value, decoded where a list or a
  dictionary takes a value, places that value there; so a list or dictionary
  decodes from whatever texts its items have.
- `src/cli.rs`, `src/torrent/`: the command names and the torrent reader.
- `app/main.rs`: the command-line program.
