//! Layered boolean circuits.
//!
//! This crate turns a flat, topologically unordered boolean gate list (the
//! "Bristol" circuit representation: AND/OR/XOR/NOT/COPY gates over numbered
//! wires, with named input and output wire ranges) into a layered circuit: a
//! sequence of gate groups such that every gate in a layer depends only on
//! wires resolved by earlier layers or by the circuit's primary inputs.
//! Layering also computes, for each layer, which intermediate wires become
//! dead after that layer and can be released, so that an evaluator's live
//! footprint stays bounded even when wire values are expensive ciphertexts.
//!
//! The evaluator is generic over any value type offering the four boolean
//! operations (AND, OR, XOR, NOT), so the same schedule serves plaintext
//! booleans and homomorphically encrypted bits alike.

pub mod circuit;
pub mod error;
pub mod eval;
pub mod gate;
pub mod label;
pub mod layering;
