//! Structural perception over molecular graphs: ring enumeration, default
//! bond typing, implicit-hydrogen and radical-electron counting, and
//! kekulization of aromatic ring systems.
//!
//! The molecular graph itself is a `petgraph` graph whose nodes are
//! [`atom::Atom`] values and whose edges are [`bond::BondType`] values. The
//! module [`graph`] states what the perception passes rely on from it.

pub mod atom;
pub mod bond;
pub mod error;
pub mod graph;
pub mod kekule;
pub mod molecule;
pub mod rings;
pub mod typing;
pub mod utils;
pub mod valence;
pub mod walks;
