# asn1

X.690 tag-length-value, read and written, every function under a proved contract:
a one-byte tag, a definite length in short or long form (at most four bytes of
long form are read; the shortest form is always written), the contents.

- `src/decode.rs` — `read`, `expect`, `read_all`, `find`, `read_integer`, and
  the spec functions they are stated over (`read_spec`, `read_all_spec`, ...).
- `src/encode.rs` — `tlv`, `write_tlv`, `integer` and their spec functions.
- `src/oid.rs` — `OBJECT IDENTIFIER` contents, both ways.
- `src/element.rs` — `Element`: one element as a value, its children, its
  explicitly tagged fields, and its contents read as a small `INTEGER`, as
  text, or as the fields of a `GeneralizedTime`.
- `src/stream.rs` — `ElementReader`: the decisions of reading one element off
  a stream, a read at a time; whoever holds the stream does the reading.
- `src/laws.rs` — what holds of readers and writers together: what is written
  reads back, lengths and integers are the shortest, a stream reader takes
  exactly one element.
- `src/text.rs` — the words of failures that name numbers.
- `app/lib.rs` — the stream loop over `std::io::Read`, a `GeneralizedTime` in
  seconds since the epoch through the estate's civil calendar (`codec`), and
  the error with `Display`.
