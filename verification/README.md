# tscp

A verified library for a transparent succinct proof stack over the BabyBear
field (p = 15 * 2^27 + 1), written in Verus.

- `src/` is the library. Every function carries a contract that Verus
  proves: the field and polynomial arithmetic (`field`, `algebra`, `poly`,
  `quotient`, `lagrange`), the radix-2 FFT and its inverse (`fft`, `dft`),
  multilinear-extension oracles, folding and sumcheck (`oracle`,
  `multilinear`, `folded`, `sumcheck`), FRI commit, query and verification
  (`fri`, `fri_protocol`, `fri_query`, `merkle`), DEEP-ALI quotients and
  batch checks (`deep_ali`, `deep_verifier`), AIR constraints
  (`constraint`, `constraint_oracle`, `combination`), the claim kernel with
  its canonical CBOR receipts and state encoding (`kernel`), anchoring, proof envelopes,
  admission control, telemetry events and NTT backends.
- Plonky3 (Poseidon2 challengers, Merkle commitments, radix-2 DFT), SHA-256,
  BLAKE3 and UUIDs are called through a small set of trusted wrappers whose
  contracts name what the outside crates compute.
- `tests/` runs the library against concrete values.
- `app/` is the executable around it: the HTTP sumcheck prover
  (`app serve`), the event tool (`app produce`, `app replay`), Prometheus
  metrics, and serializable copies of the library's types.
