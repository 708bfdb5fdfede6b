//! Canonicalization and lookup of molecules on an infinite hexagonal grid.
//!
//! A molecule is a set of atoms placed on hex cells together with a set of
//! bonds between cells.  The same molecule can be drawn anywhere on the grid
//! and in any of six rotational orientations; [`molecule::Molecule::normalized`]
//! reduces every drawing to one canonical representative, so that structurally
//! identical molecules compare equal.  [`table::lookup`] matches a drawing
//! against a table of known molecules by comparing canonical forms.
//!
//! The guarantees of canonicalization — invariance under translation and
//! rotation, idempotence, sensitivity to chirality — are stated and proved
//! in [`laws`] over the model of [`model`].

pub mod hex;
pub mod atom;
pub mod bond;
pub mod seqorder;
pub mod order;
pub mod model;
pub mod laws;
pub mod molecule;
pub mod table;
pub mod render;
pub mod parse;
