# veilcore_records

Record commitments and inclusion proofs for the VeilCore record format,
verified with Verus.

- `src/json.rs` — JSON values and their model.
- `src/canonical.rs` — canonical serialisation and its refusals.
- `src/order.rs` — code-point order of keys and the sort by key.
- `src/laws.rs` — when serialisation succeeds, why it refuses, and in what
  order it writes members and elements.
- `src/reading.rs` — a strict JSON reader, and the law that canonical text
  reads back as the normalised value.
- `src/digest.rs` — SHA-256 (through `sha2`) and hexadecimal rendering.
- `src/record.rs` — committed fields, commitments and their verification.
- `src/inclusion.rs` — leaf and node hashes, path folding, inclusion checks.
- `src/text.rs` — string helpers.
- `app/main.rs` — the stdin/stdout conformance runner.
