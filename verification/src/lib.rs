//! Symmetry-reduced bases for quantum spin chains on a ring.
//!
//! A chain of `length` sites, each carrying a local variable with `base`
//! possible values, has `base^length` basis states.  This crate builds the
//! symmetry-reduced basis for a fixed total z-magnetization sector: it
//! enumerates the orbit of every basis state under time reversal, spatial
//! reflection and cyclic translation, picks one representative per orbit,
//! and records for every raw state how it relates to its representative.
//! The integer bookkeeping proved here — digit codecs, orbit enumeration,
//! representative maps, symmetry-sign lists and the two-site exchange moves
//! of the Hamiltonian terms — is what keeps a matrix-free eigensolver built
//! on top of it inside the array bounds it never checks at run time.

pub mod encoding;
pub mod symmetries;
pub mod basis;
pub mod model;
pub mod hamiltonians;
