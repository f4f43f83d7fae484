//! The three PLR generators and their action on triads.
use crate::chord::{lemma_mod12_shift, lemma_mod12_small, Chord, Quality};
use vstd::prelude::*;

verus! {

/// PLR operations: the three generators of the neo-Riemannian PLR group.
#[derive(Debug, Clone, Copy, PartialEq, Eq, Hash, Structural)]
pub enum PlrOp {
    /// Parallel: toggle major/minor, keep root.
    /// P(C major) = C minor, P(C minor) = C major
    P,
    /// Leittonwechsel (Leading-tone exchange): swap root and third.
    /// L(C major) = E minor, L(E minor) = C major
    L,
    /// Relative: swap root and fifth.
    /// R(C major) = A minor, R(A minor) = C major
    R,
}

/// The triad that `op` maps `c` to.
///
/// P keeps the root and flips the quality. L sends a major triad to the
/// minor triad on its third (root up 4) and a minor triad to the major triad
/// whose third is its root (root up 8). R sends a major triad to its relative
/// minor (root up 9) and a minor triad to its relative major (root up 3).
pub open spec fn plr(c: Chord, op: PlrOp) -> Chord {
    match op {
        PlrOp::P => Chord { root: c.root % 12, quality: c.quality.flipped() },
        PlrOp::L => match c.quality {
            Quality::Major => Chord { root: ((c.root + 4) % 12) as u8, quality: Quality::Minor },
            Quality::Minor => Chord { root: ((c.root + 8) % 12) as u8, quality: Quality::Major },
        },
        PlrOp::R => match c.quality {
            Quality::Major => Chord { root: ((c.root + 9) % 12) as u8, quality: Quality::Minor },
            Quality::Minor => Chord { root: ((c.root + 3) % 12) as u8, quality: Quality::Major },
        },
    }
}

/// The root moved by the step `op` still fits in a pitch-class byte before it
/// is reduced mod 12; always true of a triad whose root is in 0-11.
pub open spec fn plr_fits(c: Chord, op: PlrOp) -> bool {
    match op {
        PlrOp::P => true,
        PlrOp::L => match c.quality {
            Quality::Major => c.root + 4 <= u8::MAX,
            Quality::Minor => c.root + 8 <= u8::MAX,
        },
        PlrOp::R => match c.quality {
            Quality::Major => c.root + 9 <= u8::MAX,
            Quality::Minor => c.root + 3 <= u8::MAX,
        },
    }
}

/// Apply a single PLR operation to a chord.
pub fn apply_plr(chord: Chord, op: PlrOp) -> (result: Chord)
    requires
        plr_fits(chord, op),
    ensures
        result == plr(chord, op),
{
    match op {
        PlrOp::P => Chord::new(
            chord.root,
            match chord.quality {
                Quality::Major => Quality::Minor,
                Quality::Minor => Quality::Major,
            },
        ),
        PlrOp::L => match chord.quality {
            Quality::Major => Chord::minor((chord.root + 4) % 12),
            Quality::Minor => Chord::major((chord.root + 8) % 12),
        },
        PlrOp::R => match chord.quality {
            Quality::Major => Chord::minor((chord.root + 9) % 12),
            Quality::Minor => Chord::major((chord.root + 3) % 12),
        },
    }
}

/// Every PLR step lands on a triad with its root in 0-11.
pub proof fn lemma_plr_wf(c: Chord, op: PlrOp)
    ensures
        plr(c, op).wf(),
{
}

/// A triad whose root is in 0-11 can take any PLR step.
pub proof fn lemma_wf_fits(c: Chord, op: PlrOp)
    requires
        c.wf(),
    ensures
        plr_fits(c, op),
{
}

/// Roots moved by the intervals of a PLR step, reduced mod 12, spelled out
/// from the pitch class of the root.
proof fn lemma_plr_roots(c: Chord)
    ensures
        0 <= c.root_pc() < 12,
        (c.root + 3) % 12 == (c.root_pc() + 3) % 12,
        (c.root + 4) % 12 == (c.root_pc() + 4) % 12,
        (c.root + 7) % 12 == (c.root_pc() + 7) % 12,
        (c.root + 8) % 12 == (c.root_pc() + 8) % 12,
        (c.root + 9) % 12 == (c.root_pc() + 9) % 12,
        (c.root_pc() + 3) % 12 == (if c.root_pc() < 9 { c.root_pc() + 3 } else { c.root_pc() - 9 }),
        (c.root_pc() + 4) % 12 == (if c.root_pc() < 8 { c.root_pc() + 4 } else { c.root_pc() - 8 }),
        (c.root_pc() + 7) % 12 == (if c.root_pc() < 5 { c.root_pc() + 7 } else { c.root_pc() - 5 }),
        (c.root_pc() + 8) % 12 == (if c.root_pc() < 4 { c.root_pc() + 8 } else { c.root_pc() - 4 }),
        (c.root_pc() + 9) % 12 == (if c.root_pc() < 3 { c.root_pc() + 9 } else { c.root_pc() - 3 }),
{
    let r = c.root as int;
    let r0 = c.root_pc();
    lemma_mod12_shift(r, 3);
    lemma_mod12_shift(r, 4);
    lemma_mod12_shift(r, 7);
    lemma_mod12_shift(r, 8);
    lemma_mod12_shift(r, 9);
    lemma_mod12_small(r0 + 3);
    lemma_mod12_small(r0 + 4);
    lemma_mod12_small(r0 + 7);
    lemma_mod12_small(r0 + 8);
    lemma_mod12_small(r0 + 9);
}

/// Each generator is an involution: applying it twice gives back the triad
/// (with its root reduced to 0-11, which leaves a well-formed triad unchanged).
pub proof fn law_plr_involution(c: Chord, op: PlrOp)
    ensures
        plr(plr(c, op), op) == c.normalized(),
        c.wf() ==> plr(plr(c, op), op) == c,
{
    let d = plr(c, op);
    lemma_plr_roots(c);
    lemma_plr_roots(d);
    if c.wf() {
        vstd::arithmetic::div_mod::lemma_small_mod(c.root as nat, 12);
    }
}

/// P, L and R each keep exactly two of the three pitch classes of a triad.
pub proof fn law_plr_common_tones(c: Chord, op: PlrOp)
    ensures
        c.shared_tones(plr(c, op)) == 2,
{
    lemma_plr_roots(c);
    lemma_plr_roots(plr(c, op));
}

} // verus!
