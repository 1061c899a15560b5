//! Codes of the keys that the windows react to.
use vstd::prelude::*;

verus! {

pub const KB_ESC: u16 = 0x011B;

pub const KB_UP: u16 = 0x4800;

pub const KB_DOWN: u16 = 0x5000;

pub const KB_LEFT: u16 = 0x4B00;

pub const KB_RIGHT: u16 = 0x4D00;

pub const KB_SPACE: u16 = 0x20;

} // verus!
