//! A memory-subsystem microbenchmark library: cache-line-sized blocks, an
//! arena of such blocks, and a family of access-pattern generators
//! (sequential, offset-sequential, strided, uniform-random, fixed-stride)
//! that fold every visited block into a checksum. The checksum defeats
//! dead-code elimination in the surrounding measurement harness and doubles
//! as a read-count validator: on an all-ones arena it equals the number of
//! reads performed.
pub mod arena;
pub mod block;
pub mod laws;
pub mod model;
pub mod patterns;
pub mod rng;
