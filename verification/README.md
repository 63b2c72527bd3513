# archivindex_warc

A library for WARC files (ISO 28500), written in Rust and verified with Verus: each function states
what it returns, and is proved to return it.

- `value`: the values of header fields: dates, digests, media types, addresses, URIs, and text.
- `version`: the versions of the format.
- `parse`: header blocks as they are written (`raw`), and with each value read by the grammar of its
  field (`untyped`).
- `record`: records in their semantic form. `read` and `lift` turn a header block into one, and
  `render` and `write` turn it back. `faithful` says which records read back as they are: of the
  standard's, each that was read and each that is built of values that can be read. `round_trip`
  proves that such a record reads back, and `rewriting` that it is then written as it was. `builder`
  and `capture` make records, `fields` holds bodies of named fields, `http` and `payload` deal with
  archived messages, and `digest` and `identify` with what is said about content.
- `recorder`: what a fetch sends, and where a response ends.
- `warc_record`, `warc_reader`, `warc_writer`: streams of records.

`app/` holds what needs files, connections, or derives of other crates: the readers and writers of
streams, the client that records exchanges, and serde's traits around bodies of named fields.
