# transaction_decoder

Reads Bitcoin transactions in their consensus (wire) form, writes them back,
and computes their ids. The library's logic is proved by Verus; hexadecimal
text and SHA-256 come from the `hex` and `sha2` crates through trusted
wrappers (`src/hex_codec.rs`, `src/hash.rs`) whose contracts are believed,
not proved.

- `src/bytes.rs`: little-endian integers and a reader over a byte slice.
- `src/codec.rs`: the `Decodable` and `Encodable` traits, their integer and
  text impls, and length-prefixed byte runs.
- `src/compact_size.rs`: Bitcoin's variable-length integer and its laws.
- `src/hex_codec.rs`: hexadecimal text, through the `hex` crate.
- `src/hash.rs`: SHA-256, through the `sha2` crate.
- `src/transaction.rs`: transactions, inputs, outputs, their written form,
  how they are read and written, and the transaction id.
- `src/roundtrip.rs`: reading a written transaction gives it back; writing a
  read transaction gives the bytes back where they were in shortest form;
  bytes after a transaction change nothing about reading it.
- `src/decode.rs`: a transaction from hexadecimal text; trailing text and
  letter case change nothing.
- `app/`: the command line and the JSON output (serde, clap, floating point).
