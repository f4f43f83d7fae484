//! PLR group operations for neo-Riemannian chord transformations.
//!
//! The Parallel-Leittonwechsel-Relative (PLR) group acts on the 24 major and
//! minor triads. Every triad is reached from every other one by a sequence of
//! the three generators P, L and R, each of which is its own inverse.
pub mod chord;
pub mod dihedral;
pub mod note;
pub mod plr;
pub mod sequence;
pub mod traversal;
pub mod voice_leading;

pub use chord::{pitch_class_name, Chord, PitchClass, Quality};
pub use plr::{apply_plr, PlrOp};
pub use sequence::PlrSequence;
pub use traversal::{all_triads_via_plr, plr_group_order, torus_path};
pub use voice_leading::voice_leading_distance;
