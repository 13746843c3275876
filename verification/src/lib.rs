//! Early-stage memory bookkeeping for a bare-metal kernel: a double-ended
//! region allocator that hands out bytes forward and pages backward from one
//! fixed extent, proofs of its lifecycle properties over whole request
//! sequences, and a small chained hash map used by the boot-time library.

pub mod hashmap;
pub mod laws;
pub mod region;
