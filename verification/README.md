# cuckoo_filter

A cuckoo filter with a deterministic layout and a stable serialization format,
verified with Verus.

- `src/filter.rs`: the filter and its operations
- `src/fingerprint.rs`: the two fingerprint types
- `src/format.rs`: `export` and `import`
- `src/sip.rs`: the keyed hash, from the crate `siphasher`; the one place where a
  contract is taken on trust
- `src/state.rs`, `src/layout.rs`, `src/le.rs`: what the contracts speak of (the
  contents of a filter, its byte format, little-endian numbers)
- `src/laws.rs`, `src/roundtrip.rs`: what holds of all filters, such as that no
  inserted item is missed and that what is exported can be imported
- `src/lemmas.rs`: steps on the way
