# subchain_step

The circuit of one light client step: it shows that a run of block headers extends an already
verified head block, header by header, and that the last header is finalized by the authority set.

- `src/` is the verified library. `step` lays a step out on a builder that records gadgets,
  `layout` says which gadgets on which targets these are, `meaning` says what values a circuit
  accepts, and `laws` proves that a step accepts exactly the well formed, linked and justified
  subchains.
- `app/` lays a recorded step out on a plonky2 circuit builder. The header decoder, the BLAKE2b
  circuit and the justification verifier are supplied by the caller.
- `tests/` runs recorded steps on concrete headers.

The library and its tests use no outside crate. `Cargo.toml` names plonky2 and plonky2_field for
`app/`, which needs the nightly toolchain that they ask for.
