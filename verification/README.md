# blocks_comm

The communication layer of the block network: a small self-describing text
format, read and written by verified code, and the messages nodes exchange.

Every scalar value starts with a tag character and ends with `\n`:

| value            | written as                    |
|------------------|-------------------------------|
| unsigned integer | `u` decimal digits `\n`       |
| signed integer   | `i` [`-`] decimal digits `\n` |
| character        | `c` the character `\n`        |
| unit / `None`    | `n\n`                         |
| boolean          | `b` `t` or `f` `\n`           |
| float            | `d` text `\n`                 |
| string           | `"` byte length `\n` bytes `\n` |
| sequence         | `[` elements, comma separated `]` |
| map              | `{` key `:` value, comma separated `}` |

Layout:

- `src/comm/definitions.rs` – the tag characters.
- `src/comm/format.rs` – the format as spec functions over `Seq<char>`, and lemmas.
- `src/comm/deserializer.rs` – the verified reader (`Deserializer`, `CommaSeparated`).
- `src/comm/serializer.rs` – the verified writer for integers, booleans, characters,
  strings, unit and `None`.
- `src/comm/laws.rs` – round trips between writer and reader, and that every
  reading step only takes a prefix of its input.
- `src/message.rs` – the message types.
- `app/` – serde's `Deserializer` on top of the reader, the serde copies of the
  message types, and `main`.
