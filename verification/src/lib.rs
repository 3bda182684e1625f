//! A verified library for the compact game-state persistence format of a
//! tile-placement puzzle game: an arbitrary-bit-width integer packer and
//! unpacker over a 64-symbol printable alphabet, and the versioned snapshot
//! codec built on top of it.
pub mod alphabet;
pub mod bits;
pub mod codec;
pub mod save;
pub mod score;
pub mod extra;
pub mod game;
pub mod random;
