//! Named pitch classes.
use crate::chord::PitchClass;
use vstd::prelude::*;

verus! {

pub const C: PitchClass = 0;

pub const CS: PitchClass = 1;

pub const D: PitchClass = 2;

pub const DS: PitchClass = 3;

pub const E: PitchClass = 4;

pub const F: PitchClass = 5;

pub const FS: PitchClass = 6;

pub const G: PitchClass = 7;

pub const GS: PitchClass = 8;

pub const A: PitchClass = 9;

pub const AS: PitchClass = 10;

pub const B: PitchClass = 11;

} // verus!
