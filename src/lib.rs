//! Chess positions as bitboards with a dense square index, and generation of the
//! legal successor positions: bit utilities, knight and sliding-ray attack tables,
//! the blocked-ray resolver, the position model with its mutators, the check test,
//! per-piece move generation, and reading and drawing positions as text.
pub mod fen;
pub mod knightattacks;
pub mod movegeneration;
pub mod position;
pub mod rayattacks;
pub mod text;
pub mod utils;
