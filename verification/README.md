# flock_mhot

Membership proofs for MHOT (a Merkleised height-optimised trie), as a library
verified with Verus: the trees, hash chains, routes and bindings that a proof
system is run on, and what its replies come to.

- `src/` is the verified library. `sha256`, `sha256x4`, `merkle` and `keccak` hash;
  `schedule`, `wiring`, `ref_witness` and `wide_glue` fold a path with Keccak;
  `route`, `route_f32` and `route_single` are the relations that select a child;
  `native_witness`, `mhot_to_sha256` and `merkle_membership` lay a node's binary
  tree and its content out as SHA-256 blocks; `membership`, `membership_proof`,
  `hash_only`, `multi_base`, `multiproof` and `sound_multiproof` with `sound_plan`
  plan proofs and decide on them. `sound_laws` and `soundness` hold laws that span
  both sides.
- A proof system is no part of the library. For each proof there is a `plan_..`
  function, which says what is committed and claimed, a `prove_..` function, which
  puts the parts together, a `.._question` or `.._questions` function, which says
  what the proof system is asked about which part, and a `verify_..` function,
  which decides from its replies.
- `app/` is ordinary Rust around it: the driver for a proof system, parallel tree
  hashing, global counters and caches, and proofs as bytes.
- `tests/` runs the library with a proof system in the clear.
