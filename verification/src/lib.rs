//! Foundation layer of a tick-based, resource-gathering strategy-game
//! simulation: canonical coordinate and identifier encodings, the plain
//! per-object attribute types, and the bijective identity registry that maps
//! every stable object identifier to the live handle that currently carries
//! it.

pub mod codec;
pub mod common;
pub mod registry;
