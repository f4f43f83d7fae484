//! Voice-leading distance between triads.
use crate::chord::{lemma_mod12_shift, Chord, Quality};
use crate::plr::{plr, PlrOp};
use vstd::prelude::*;

verus! {

/// Semitones between two pitch classes the short way round the circle.
#[verifier::opaque]
pub open spec fn circle_distance(x: int, y: int) -> int {
    let d = if x >= y { x - y } else { y - x };
    if d <= 12 - d { d } else { 12 - d }
}

/// Two pitch classes are at most a tritone apart, and a pitch class is at
/// distance zero from itself.
pub proof fn lemma_circle_distance_range(x: int, y: int)
    requires
        0 <= x < 12,
        0 <= y < 12,
    ensures
        0 <= circle_distance(x, y) <= 6,
        circle_distance(x, x) == 0,
{
    reveal(circle_distance);
}

/// The identity assignment between two triads moves the voices by 0 to 18 semitones.
proof fn lemma_first_cost_range(a: Chord, b: Chord)
    ensures
        0 <= assignment_cost(a, b, assignments()[0]) <= 18,
{
    lemma_circle_distance_range(a.tones()[0] as int, b.tones()[0] as int);
    lemma_circle_distance_range(a.tones()[1] as int, b.tones()[1] as int);
    lemma_circle_distance_range(a.tones()[2] as int, b.tones()[2] as int);
}

/// The six ways to send the three voices of one triad onto the three tones of
/// another: voice `i` goes to tone `p[i]`.
pub open spec fn assignments() -> Seq<Seq<int>> {
    seq![seq![0, 1, 2], seq![0, 2, 1], seq![1, 0, 2], seq![1, 2, 0], seq![2, 0, 1], seq![2, 1, 0]]
}

/// Movement of voice `i` of `a` under the assignment `p` onto `b`.
pub open spec fn voice_movement(a: Chord, b: Chord, p: Seq<int>, i: int) -> int {
    circle_distance(a.tones()[i] as int, b.tones()[p[i]] as int)
}

/// Total movement of the three voices of `a` under the assignment `p` onto `b`.
pub open spec fn assignment_cost(a: Chord, b: Chord, p: Seq<int>) -> int {
    voice_movement(a, b, p, 0) + voice_movement(a, b, p, 1) + voice_movement(a, b, p, 2)
}

/// The least total movement over the first `n` assignments, or 255 for none.
pub open spec fn least_cost(a: Chord, b: Chord, n: nat) -> int
    decreases n,
{
    if n == 0 {
        255
    } else {
        let prev = least_cost(a, b, (n - 1) as nat);
        let cost = assignment_cost(a, b, assignments()[n - 1]);
        if prev <= cost {
            prev
        } else {
            cost
        }
    }
}

/// The least total movement over all six assignments.
pub open spec fn voice_leading(a: Chord, b: Chord) -> int {
    least_cost(a, b, 6)
}

/// Voice-leading distance: the minimal total semitone movement between two triads.
///
/// Computes the minimal total pitch-class distance when mapping each note
/// of the source chord to a note of the target chord (optimal assignment).
pub fn voice_leading_distance(a: Chord, b: Chord) -> (dist: u8)
    requires
        a.root + 7 <= u8::MAX,
        b.root + 7 <= u8::MAX,
    ensures
        dist == voice_leading(a, b),
        forall|k: int| 0 <= k < 6 ==> dist <= #[trigger] assignment_cost(a, b, assignments()[k]),
        exists|k: int| 0 <= k < 6 && dist == #[trigger] assignment_cost(a, b, assignments()[k]),
{
    let pcs_a = a.pitch_classes();
    let pcs_b = b.pitch_classes();

    // Try all 6 permutations of assignment (3! = 6)
    let perms: [[usize; 3]; 6] = [[0, 1, 2], [0, 2, 1], [1, 0, 2], [1, 2, 0], [2, 0, 1], [2, 1, 0]];
    proof {
        assert forall|k: int, i: int| 0 <= k < 6 && 0 <= i < 3 implies #[trigger] perms@[k]@[i]
            == assignments()[k][i] by {}
    }

    let mut min_dist: u8 = u8::MAX;
    let mut k: usize = 0;
    while k < 6
        invariant
            0 <= k <= 6,
            pcs_a@ == a.tones(),
            pcs_b@ == b.tones(),
            forall|k: int, i: int|
                0 <= k < 6 && 0 <= i < 3 ==> #[trigger] perms@[k]@[i] == assignments()[k][i],
            min_dist == least_cost(a, b, k as nat),
        decreases 6 - k,
    {
        let perm = perms[k];
        let ghost p = assignments()[k as int];
        let mut dist: u8 = 0;
        let mut i: usize = 0;
        while i < 3
            invariant
                0 <= i <= 3,
                0 <= k < 6,
                p == assignments()[k as int],
                pcs_a@ == a.tones(),
                pcs_b@ == b.tones(),
                forall|i: int| 0 <= i < 3 ==> #[trigger] perm@[i] == p[i],
                dist <= 6 * i,
                dist == (if i > 0 { voice_movement(a, b, p, 0) } else { 0 }) + (if i > 1 {
                    voice_movement(a, b, p, 1)
                } else {
                    0
                }) + (if i > 2 { voice_movement(a, b, p, 2) } else { 0 }),
            decreases 3 - i,
        {
            let x = pcs_a[i];
            let y = pcs_b[perm[i]];
            let d: u8 = if x >= y {
                x - y
            } else {
                y - x
            };
            let wrapped: u8 = if d <= 12 - d {
                d
            } else {
                12 - d
            };
            proof {
                reveal(circle_distance);
            }
            dist = dist + wrapped;
            i = i + 1;
        }
        min_dist = if min_dist <= dist {
            min_dist
        } else {
            dist
        };
        k = k + 1;
    }
    proof {
        lemma_least_cost_is_least(a, b);
    }
    min_dist
}

/// The least cost is no more than any assignment's cost and equals one of them.
pub proof fn lemma_least_cost_is_least(a: Chord, b: Chord)
    ensures
        forall|k: int| 0 <= k < 6 ==> voice_leading(a, b) <= #[trigger] assignment_cost(a, b, assignments()[k]),
        exists|k: int| 0 <= k < 6 && voice_leading(a, b) == #[trigger] assignment_cost(a, b, assignments()[k]),
{
    reveal_with_fuel(least_cost, 7);
    let c0 = assignment_cost(a, b, assignments()[0]);
    let c1 = assignment_cost(a, b, assignments()[1]);
    let c2 = assignment_cost(a, b, assignments()[2]);
    let c3 = assignment_cost(a, b, assignments()[3]);
    let c4 = assignment_cost(a, b, assignments()[4]);
    let c5 = assignment_cost(a, b, assignments()[5]);
    lemma_first_cost_range(a, b);
    assert(c0 <= 18);
    assert(voice_leading(a, b) == c0 || voice_leading(a, b) == c1 || voice_leading(a, b) == c2
        || voice_leading(a, b) == c3 || voice_leading(a, b) == c4 || voice_leading(a, b) == c5);
}

/// The short-way distance does not depend on the order of the two pitch classes.
proof fn lemma_circle_distance_symmetric(x: int, y: int)
    ensures
        circle_distance(x, y) == circle_distance(y, x),
{
    reveal(circle_distance);
}

/// The cost of sending `a` onto `b` by one assignment is the cost of sending
/// `b` onto `a` by the inverse assignment.
proof fn lemma_inverse_assignment_cost(a: Chord, b: Chord, k: int)
    requires
        0 <= k < 6,
    ensures
        assignment_cost(a, b, assignments()[k]) == assignment_cost(
            b,
            a,
            assignments()[if k == 3 {
                4
            } else if k == 4 {
                3
            } else {
                k
            }],
        ),
{
    let p = assignments()[k];
    lemma_circle_distance_symmetric(a.tones()[0] as int, b.tones()[p[0]] as int);
    lemma_circle_distance_symmetric(a.tones()[1] as int, b.tones()[p[1]] as int);
    lemma_circle_distance_symmetric(a.tones()[2] as int, b.tones()[p[2]] as int);
}

/// Voice-leading distance is symmetric: moving `a` onto `b` costs what
/// moving `b` onto `a` costs.
pub proof fn law_voice_leading_symmetric(a: Chord, b: Chord)
    ensures
        voice_leading(a, b) == voice_leading(b, a),
{
    // [1, 2, 0] and [2, 0, 1] are each other's inverses, the other four
    // assignments are their own.
    lemma_inverse_assignment_cost(a, b, 0);
    lemma_inverse_assignment_cost(a, b, 1);
    lemma_inverse_assignment_cost(a, b, 2);
    lemma_inverse_assignment_cost(a, b, 3);
    lemma_inverse_assignment_cost(a, b, 4);
    lemma_inverse_assignment_cost(a, b, 5);
    reveal_with_fuel(least_cost, 7);
}

/// A triad is at voice-leading distance zero from itself.
pub proof fn law_voice_leading_self_zero(a: Chord)
    ensures
        voice_leading(a, a) == 0,
{
    reveal_with_fuel(least_cost, 7);
    lemma_first_cost_range(a, a);
    assert forall|i: int, j: int| 0 <= i < 3 && 0 <= j < 3 implies 0 <= #[trigger] circle_distance(
        a.tones()[i] as int,
        a.tones()[j] as int,
    ) <= 6 by {
        lemma_circle_distance_range(a.tones()[i] as int, a.tones()[j] as int);
    }
    lemma_circle_distance_range(a.tones()[0] as int, 0);
    lemma_circle_distance_range(a.tones()[1] as int, 0);
    lemma_circle_distance_range(a.tones()[2] as int, 0);
    assert(assignment_cost(a, a, assignments()[0]) == 0);
}

/// The voice-leading distance of one PLR step from `c`, by the step.
pub open spec fn plr_step_distance(op: PlrOp) -> int {
    match op {
        PlrOp::P => 1,
        PlrOp::L => 1,
        PlrOp::R => 2,
    }
}

/// The short-way distance for a difference taken mod 12.
pub open spec fn fold_interval(m: int) -> int {
    if m <= 12 - m { m } else { 12 - m }
}

/// The distance between two pitch classes depends only on their difference mod 12.
proof fn lemma_circle_distance_by_interval(x: int, y: int)
    requires
        0 <= x < 12,
        0 <= y < 12,
    ensures
        circle_distance(x, y) == fold_interval((x - y) % 12),
{
    reveal(circle_distance);
    if x >= y {
        vstd::arithmetic::div_mod::lemma_small_mod((x - y) as nat, 12);
    } else {
        vstd::arithmetic::div_mod::lemma_small_mod((x - y + 12) as nat, 12);
        vstd::arithmetic::div_mod::lemma_mod_add_multiples_vanish(x - y, 12);
    }
}

/// Transposing two pitch classes together keeps their distance.
proof fn lemma_circle_distance_offsets(r: int, a: int, b: int)
    ensures
        circle_distance((r + a) % 12, (r + b) % 12) == fold_interval((a - b) % 12),
{
    vstd::arithmetic::div_mod::lemma_sub_mod_noop(r + a, r + b, 12);
    assert((r + a) - (r + b) == a - b);
    lemma_circle_distance_by_interval((r + a) % 12, (r + b) % 12);
}

/// Offsets of the root, third and fifth of a triad of quality `q` on root `s`.
spec fn tone_offset(s: int, q: Quality, i: int) -> int {
    if i == 0 {
        s
    } else if i == 1 {
        s + q.third_interval()
    } else {
        s + 7
    }
}

/// How far the root moves under one PLR step, before reduction mod 12.
spec fn root_shift(q: Quality, op: PlrOp) -> int {
    match op {
        PlrOp::P => 0,
        PlrOp::L => match q {
            Quality::Major => 4,
            Quality::Minor => 8,
        },
        PlrOp::R => match q {
            Quality::Major => 9,
            Quality::Minor => 3,
        },
    }
}

proof fn lemma_tones_as_offsets(c: Chord, op: PlrOp, i: int)
    requires
        0 <= i < 3,
    ensures
        c.tones()[i] as int == (c.root + tone_offset(0, c.quality, i)) % 12,
        plr(c, op).tones()[i] as int == (c.root + tone_offset(
            root_shift(c.quality, op),
            plr(c, op).quality,
            i,
        )) % 12,
{
    let d = plr(c, op);
    let r = c.root as int;
    let s = root_shift(c.quality, op);
    let k = d.quality.third_interval();
    lemma_mod12_shift(r + s, 0);
    lemma_mod12_shift(r + s, k);
    lemma_mod12_shift(r + s, 7);
    assert(d.root as int == (r + s) % 12);
}

/// Movement of voice `i` of `c` onto tone `j` of its image under `op`,
/// computed from the offsets alone.
spec fn step_movement(c: Chord, op: PlrOp, i: int, j: int) -> int {
    fold_interval(
        (tone_offset(0, c.quality, i) - tone_offset(
            root_shift(c.quality, op),
            plr(c, op).quality,
            j,
        )) % 12,
    )
}

proof fn lemma_step_movement(c: Chord, op: PlrOp, i: int, j: int)
    requires
        0 <= i < 3,
        0 <= j < 3,
    ensures
        circle_distance(c.tones()[i] as int, plr(c, op).tones()[j] as int) == step_movement(
            c,
            op,
            i,
            j,
        ),
{
    lemma_tones_as_offsets(c, op, i);
    lemma_tones_as_offsets(c, op, j);
    lemma_circle_distance_offsets(
        c.root as int,
        tone_offset(0, c.quality, i),
        tone_offset(root_shift(c.quality, op), plr(c, op).quality, j),
    );
}

/// Movement of voice `i` of `a` onto tone `j` of `b`.
spec fn pair_movement(a: Chord, b: Chord, i: int, j: int) -> int {
    circle_distance(a.tones()[i] as int, b.tones()[j] as int)
}

/// The least of six numbers.
spec fn min6(c0: int, c1: int, c2: int, c3: int, c4: int, c5: int) -> int {
    let m1 = if c0 <= c1 { c0 } else { c1 };
    let m2 = if m1 <= c2 { m1 } else { c2 };
    let m3 = if m2 <= c3 { m2 } else { c3 };
    let m4 = if m3 <= c4 { m3 } else { c4 };
    if m4 <= c5 { m4 } else { c5 }
}

proof fn lemma_voice_leading_by_pairs(a: Chord, b: Chord)
    ensures
        voice_leading(a, b) == min6(
            pair_movement(a, b, 0, 0) + pair_movement(a, b, 1, 1) + pair_movement(a, b, 2, 2),
            pair_movement(a, b, 0, 0) + pair_movement(a, b, 1, 2) + pair_movement(a, b, 2, 1),
            pair_movement(a, b, 0, 1) + pair_movement(a, b, 1, 0) + pair_movement(a, b, 2, 2),
            pair_movement(a, b, 0, 1) + pair_movement(a, b, 1, 2) + pair_movement(a, b, 2, 0),
            pair_movement(a, b, 0, 2) + pair_movement(a, b, 1, 0) + pair_movement(a, b, 2, 1),
            pair_movement(a, b, 0, 2) + pair_movement(a, b, 1, 1) + pair_movement(a, b, 2, 0),
        ),
{
    lemma_first_cost_range(a, b);
    reveal_with_fuel(least_cost, 7);
}

proof fn lemma_plr_step_distance(c: Chord, op: PlrOp)
    ensures
        voice_leading(c, plr(c, op)) == plr_step_distance(op),
{
    let d = plr(c, op);
    lemma_voice_leading_by_pairs(c, d);
    lemma_step_movement(c, op, 0, 0);
    lemma_step_movement(c, op, 0, 1);
    lemma_step_movement(c, op, 0, 2);
    lemma_step_movement(c, op, 1, 0);
    lemma_step_movement(c, op, 1, 1);
    lemma_step_movement(c, op, 1, 2);
    lemma_step_movement(c, op, 2, 0);
    lemma_step_movement(c, op, 2, 1);
    lemma_step_movement(c, op, 2, 2);
    let m00 = step_movement(c, op, 0, 0);
    let m01 = step_movement(c, op, 0, 1);
    let m02 = step_movement(c, op, 0, 2);
    let m10 = step_movement(c, op, 1, 0);
    let m11 = step_movement(c, op, 1, 1);
    let m12 = step_movement(c, op, 1, 2);
    let m20 = step_movement(c, op, 2, 0);
    let m21 = step_movement(c, op, 2, 1);
    let m22 = step_movement(c, op, 2, 2);
    match op {
        PlrOp::P => match c.quality {
            Quality::Major => assert(
                m00 == 0 && m01 == 3 && m02 == 5
                && m10 == 4 && m11 == 1 && m12 == 3
                && m20 == 5 && m21 == 4 && m22 == 0
            ),
            Quality::Minor => assert(
                m00 == 0 && m01 == 4 && m02 == 5
                && m10 == 3 && m11 == 1 && m12 == 4
                && m20 == 5 && m21 == 3 && m22 == 0
            ),
        },
        PlrOp::L => match c.quality {
            Quality::Major => assert(
                m00 == 4 && m01 == 5 && m02 == 1
                && m10 == 0 && m11 == 3 && m12 == 5
                && m20 == 3 && m21 == 0 && m22 == 4
            ),
            Quality::Minor => assert(
                m00 == 4 && m01 == 0 && m02 == 3
                && m10 == 5 && m11 == 3 && m12 == 0
                && m20 == 1 && m21 == 5 && m22 == 4
            ),
        },
        PlrOp::R => match c.quality {
            Quality::Major => assert(
                m00 == 3 && m01 == 0 && m02 == 4
                && m10 == 5 && m11 == 4 && m12 == 0
                && m20 == 2 && m21 == 5 && m22 == 3
            ),
            Quality::Minor => assert(
                m00 == 3 && m01 == 5 && m02 == 2
                && m10 == 0 && m11 == 4 && m12 == 5
                && m20 == 4 && m21 == 0 && m22 == 3
            ),
        },
    }
}

/// P and L move a single voice by a semitone; R moves a single voice by a
/// whole tone.
pub proof fn law_plr_voice_leading(c: Chord)
    ensures
        voice_leading(c, plr(c, PlrOp::P)) == 1,
        voice_leading(c, plr(c, PlrOp::L)) == 1,
        voice_leading(c, plr(c, PlrOp::R)) == 2,
{
    lemma_plr_step_distance(c, PlrOp::P);
    lemma_plr_step_distance(c, PlrOp::L);
    lemma_plr_step_distance(c, PlrOp::R);
}

/// The short-way distance satisfies the triangle inequality on pitch classes.
proof fn lemma_circle_distance_triangle(x: int, y: int, z: int)
    requires
        0 <= x < 12,
        0 <= y < 12,
        0 <= z < 12,
    ensures
        circle_distance(x, z) <= circle_distance(x, y) + circle_distance(y, z),
{
    reveal(circle_distance);
}

/// The assignment that sends voice `i` to tone `q[p[i]]`, for the assignments
/// `p` and `q` at positions `k1` and `k2`.
spec fn composed_assignment(k1: int, k2: int) -> int {
    let p = assignments()[k1];
    let q = assignments()[k2];
    let r = seq![q[p[0]], q[p[1]], q[p[2]]];
    if r == assignments()[0] {
        0
    } else if r == assignments()[1] {
        1
    } else if r == assignments()[2] {
        2
    } else if r == assignments()[3] {
        3
    } else if r == assignments()[4] {
        4
    } else {
        5
    }
}

/// Following one assignment from `a` onto `b` by one from `b` onto `c` moves
/// the voices of `a` onto `c` no further than the two together.
proof fn lemma_composed_cost(a: Chord, b: Chord, c: Chord, k1: int, k2: int)
    requires
        0 <= k1 < 6,
        0 <= k2 < 6,
    ensures
        0 <= composed_assignment(k1, k2) < 6,
        assignment_cost(a, c, assignments()[composed_assignment(k1, k2)]) <= assignment_cost(
            a,
            b,
            assignments()[k1],
        ) + assignment_cost(b, c, assignments()[k2]),
{
    assert forall|i: int, j: int, l: int| 0 <= i < 3 && 0 <= j < 3 && 0 <= l < 3 implies circle_distance(
        #[trigger] a.tones()[i] as int,
        #[trigger] c.tones()[l] as int,
    ) <= circle_distance(a.tones()[i] as int, #[trigger] b.tones()[j] as int) + circle_distance(
        b.tones()[j] as int,
        c.tones()[l] as int,
    ) by {
        lemma_circle_distance_triangle(
            a.tones()[i] as int,
            b.tones()[j] as int,
            c.tones()[l] as int,
        );
    }
    let p = assignments()[k1];
    let q = assignments()[k2];
    assert(seq![q[p[0]], q[p[1]], q[p[2]]] =~= assignments()[composed_assignment(k1, k2)]);
}

/// Voice-leading distance satisfies the triangle inequality: moving `a` onto
/// `c` costs no more than moving `a` onto `b` and then `b` onto `c`.
pub proof fn law_voice_leading_triangle(a: Chord, b: Chord, c: Chord)
    ensures
        voice_leading(a, c) <= voice_leading(a, b) + voice_leading(b, c),
{
    lemma_least_cost_is_least(a, b);
    lemma_least_cost_is_least(b, c);
    lemma_least_cost_is_least(a, c);
    let k1 = choose|k: int|
        0 <= k < 6 && voice_leading(a, b) == #[trigger] assignment_cost(a, b, assignments()[k]);
    let k2 = choose|k: int|
        0 <= k < 6 && voice_leading(b, c) == #[trigger] assignment_cost(b, c, assignments()[k]);
    lemma_composed_cost(a, b, c, k1, k2);
    let k3 = composed_assignment(k1, k2);
    assert(voice_leading(a, c) <= assignment_cost(a, c, assignments()[k3]));
}

} // verus!
