//! Lattice-based private information retrieval: modular and cyclotomic ring
//! arithmetic, CRT and evaluation representations, gadget decomposition and
//! the Regev / GSW homomorphic primitives built on them.
pub mod crt;
pub mod crt_eval;
pub mod cyclo;
pub mod gadget;
pub mod gadget_ring;
pub mod modular;
pub mod ntt;
pub mod ntt_laws;
pub mod params;
pub mod pir;
pub mod poly;
pub mod respire;
pub mod sample;
pub mod switch_laws;
