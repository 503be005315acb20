//! Codec for the alcov coverage container: a little-endian binary format
//! holding the basic blocks observed while running a program, the modules
//! they live in, and (optionally) the control-flow edges taken between
//! blocks, with the bulky sections optionally LZMA2-compressed.
use vstd::prelude::*;

pub mod v0;
