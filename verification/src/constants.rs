//! Colors of the frames, as indices into the 256-color palette, and the
//! greeting.

use vstd::prelude::*;

verus! {

pub const EMPH_COLOR: u8 = 201;

pub const AUX_COLOR: u8 = 3;

pub const DARK_COLOR: u8 = 246;

pub const ERR_COLOR: u8 = 9;

pub const OK_COLOR: u8 = 10;

/// What greets the user.
pub const PROLOGUE: &'static str = "Welcome to feather REPL. Type \":help\" for help.";

} // verus!
