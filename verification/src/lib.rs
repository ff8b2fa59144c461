//! Membership proving for a Merkle height-optimised trie: hashing, route
//! circuits, witness builders and the decisions of the verifiers.

pub mod backend;
pub mod bits;
pub mod bytes;
pub mod content;
pub mod entry_binding;
pub mod hash_only;
pub mod keccak;
pub mod math;
pub mod membership;
pub mod membership_proof;
pub mod merkle;
pub mod merkle_membership;
pub mod mhot_to_sha256;
pub mod multi_base;
pub mod multiproof;
pub mod native_witness;
pub mod packing;
pub mod r1cs;
pub mod ref_witness;
pub mod route;
pub mod route_f32;
pub mod route_f32_setup;
pub mod route_single;
pub mod rows;
pub mod schedule;
pub mod sha256;
pub mod sha256x4;
pub mod sound_laws;
pub mod sound_layout;
pub mod sound_multiproof;
pub mod sound_plan;
pub mod soundness;
pub mod wide_glue;
pub mod wiring;
pub mod zk_stub;
