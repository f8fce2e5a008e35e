//! # harmonica
//!
//! An algebra of linear and cyclic integer sequences for music theory.
//! Chords, scales, keys, melodies and cycles are modelled as sequences of
//! pitches or residues; the library converts between a sequence and its
//! shape (its differences), finds the prime form of a cyclic shape (its
//! minimal repeating block), evaluates and composes scale maps, rotates
//! modes, and repeats, stretches and transposes sequences.
//!
//! Every operation states its result in `requires` / `ensures` contracts
//! over the mathematical model in [`algebra`], and [`laws`] proves the
//! algebraic laws that tie the operations together.

/// The mathematical model: sequences of integers and the operations on them.
pub mod algebra;

/// Laws relating the operations, proved over the model.
pub mod laws;

/// General-purpose list tools.
pub mod utility;

/// Chords and their shapes.
pub mod chord;

/// Melodies, melodic classes and cycles.
pub mod melody;

/// Scales, keys, scale maps and scale shapes.
pub mod scale;

/// Progressions of chords, scales and keys.
pub mod progression;

/// Analysis: sizes, spans, moduli, shapes, stamps, prime forms and evaluation.
pub mod analyze;

/// Transformation: rotation, mode rotation, repetition and transposition.
pub mod transform;

/// Generation: composition of scale maps and search for nearby chords.
pub mod generate;

mod ops;
