//! A layer-composition engine for molecular structures.
//!
//! Molecules are sparse, index-addressable collections of atoms, bonds,
//! symbolic names and groups.  Edits are expressed as declarative layers;
//! an ordered stack of layer IDs is resolved against a base molecule by
//! replaying each layer in turn, with results memoized per stack prefix.
//!
//! All floating-point arithmetic is delegated to the `glam` crate behind
//! a small trusted boundary in `geom`; glam's double-precision vector and
//! quaternion types are monomorphic, so every coordinate can travel
//! through the library as a plain 64-bit pattern and all the surrounding
//! logic is verified.

pub mod chemistry;
pub mod defaults;
pub mod geom;
pub mod group_name;
pub mod layer;
pub mod n_to_n;
pub mod name_index;
pub mod sparse_molecule;
pub mod substituent;
pub mod workspace;
