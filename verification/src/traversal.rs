//! Walking the graph of the 24 triads joined by P, L and R edges.
use crate::chord::{lemma_mod12_small, Chord, Quality};
use crate::plr::{apply_plr, lemma_plr_wf, lemma_wf_fits, plr, PlrOp};
use crate::sequence::{
    apply_ops, lemma_lex_last, lemma_lex_push, lemma_lex_trans, lex_before, op_rank, reversed_ops,
    PlrSequence,
};
use vstd::prelude::*;

verus! {

/// Position of a triad among the 24: major triads 0-11 by root, minor triads
/// 12-23.
pub open spec fn triad_index(c: Chord) -> int {
    match c.quality {
        Quality::Major => c.root as int,
        Quality::Minor => c.root + 12,
    }
}

/// The triad at a position among the 24.
pub open spec fn triad_at(i: int) -> Chord {
    if i < 12 {
        Chord { root: i as u8, quality: Quality::Major }
    } else {
        Chord { root: (i - 12) as u8, quality: Quality::Minor }
    }
}

/// Positions and triads with roots in 0-11 correspond one to one.
pub proof fn lemma_triad_index(c: Chord)
    requires
        c.wf(),
    ensures
        0 <= triad_index(c) < 24,
        triad_at(triad_index(c)) == c,
{
}

/// Positions and triads with roots in 0-11 correspond one to one.
pub proof fn lemma_triad_at(i: int)
    requires
        0 <= i < 24,
    ensures
        triad_at(i).wf(),
        triad_index(triad_at(i)) == i,
{
}

/// The position of a triad among the 24.
fn chord_index(c: Chord) -> (i: usize)
    ensures
        i == triad_index(c),
{
    c.root as usize + if c.quality == Quality::Minor {
        12
    } else {
        0
    }
}

/// The triad at a position among the 24.
fn chord_at(i: usize) -> (c: Chord)
    requires
        i < 24,
    ensures
        c == triad_at(i as int),
{
    if i < 12 {
        Chord { root: i as u8, quality: Quality::Major }
    } else {
        Chord { root: (i - 12) as u8, quality: Quality::Minor }
    }
}

/// A set of triads that holds the image under P, L and R of each of its
/// triads with a root in 0-11.
pub open spec fn closed_under_plr(s: spec_fn(Chord) -> bool) -> bool {
    forall|c: Chord, op: PlrOp| #![trigger s(c), plr(c, op)] c.wf() && s(c) ==> s(plr(c, op))
}

/// The major triad on a pitch class.
spec fn major_on(x: int) -> Chord {
    Chord { root: x as u8, quality: Quality::Major }
}

/// R then L moves a major triad up a fourth.
proof fn lemma_up_a_fourth(s: spec_fn(Chord) -> bool, x: int)
    requires
        closed_under_plr(s),
        0 <= x < 12,
        s(major_on(x)),
    ensures
        s(major_on((x + 5) % 12)),
{
    let c = major_on(x);
    let m = plr(c, PlrOp::R);
    lemma_plr_wf(c, PlrOp::R);
    lemma_mod12_small(x + 9);
    let y = (x + 9) % 12;
    assert(m == Chord { root: y as u8, quality: Quality::Minor });
    assert(s(m));
    let n = plr(m, PlrOp::L);
    lemma_mod12_small(y + 8);
    lemma_mod12_small(x + 5);
    assert(n == major_on((x + 5) % 12));
}

/// Five fourths up make a semitone up.
proof fn lemma_up_a_semitone(s: spec_fn(Chord) -> bool, x: int)
    requires
        closed_under_plr(s),
        0 <= x < 12,
        s(major_on(x)),
    ensures
        s(major_on((x + 1) % 12)),
{
    lemma_up_a_fourth(s, x);
    let x1 = (x + 5) % 12;
    lemma_mod12_small(x + 5);
    lemma_up_a_fourth(s, x1);
    let x2 = (x1 + 5) % 12;
    lemma_mod12_small(x1 + 5);
    lemma_up_a_fourth(s, x2);
    let x3 = (x2 + 5) % 12;
    lemma_mod12_small(x2 + 5);
    lemma_up_a_fourth(s, x3);
    let x4 = (x3 + 5) % 12;
    lemma_mod12_small(x3 + 5);
    lemma_up_a_fourth(s, x4);
    lemma_mod12_small(x4 + 5);
    lemma_mod12_small(x + 1);
}

proof fn lemma_up_by(s: spec_fn(Chord) -> bool, x: int, k: int)
    requires
        closed_under_plr(s),
        0 <= x < 12,
        0 <= k < 12,
        s(major_on(x)),
    ensures
        s(major_on((x + k) % 12)),
    decreases k,
{
    if k == 0 {
        lemma_mod12_small(x);
    } else {
        lemma_up_by(s, x, k - 1);
        lemma_mod12_small(x + k - 1);
        let y = (x + k - 1) % 12;
        lemma_up_a_semitone(s, y);
        lemma_mod12_small(y + 1);
        lemma_mod12_small(x + k);
    }
}

/// A closed set holding the major triad on `x` holds every triad.
proof fn lemma_closed_contains(s: spec_fn(Chord) -> bool, x: int, t: Chord)
    requires
        closed_under_plr(s),
        0 <= x < 12,
        s(major_on(x)),
        t.wf(),
    ensures
        s(t),
{
    let y = t.root as int;
    let k = if y >= x {
        y - x
    } else {
        y - x + 12
    };
    lemma_up_by(s, x, k);
    lemma_mod12_small(x + k);
    assert(major_on((x + k) % 12) == major_on(y));
    let m = major_on(y);
    assert(s(m));
    if t.quality == Quality::Minor {
        assert(s(plr(m, PlrOp::P)));
        assert(plr(m, PlrOp::P) == t);
    } else {
        assert(m == t);
    }
}

/// A set of triads closed under P, L and R that holds one triad with its root
/// in 0-11 holds all 24 triads.
pub proof fn lemma_closed_contains_all(s: spec_fn(Chord) -> bool, start: Chord)
    requires
        closed_under_plr(s),
        start.wf(),
        s(start),
    ensures
        forall|t: Chord| t.wf() ==> #[trigger] s(t),
{
    let x = start.root as int;
    let p = plr(start, PlrOp::P);
    assert(s(p));
    assert(s(major_on(x))) by {
        if start.quality == Quality::Minor {
            assert(p == major_on(x));
        } else {
            assert(start == major_on(x));
        }
    }
    assert forall|t: Chord| t.wf() implies #[trigger] s(t) by {
        lemma_closed_contains(s, x, t);
    }
}

/// Every triad with its root in 0-11 is reached from every other one by some
/// sequence of PLR steps.
pub proof fn law_plr_connected(s: Chord, t: Chord)
    requires
        s.wf(),
        t.wf(),
    ensures
        exists|ops: Seq<PlrOp>| #[trigger] apply_ops(s, ops) == t,
{
    let reached = |c: Chord| exists|ops: Seq<PlrOp>| #[trigger] apply_ops(s, ops) == c;
    assert(closed_under_plr(reached)) by {
        assert forall|c: Chord, op: PlrOp| #![trigger reached(c), plr(c, op)]
            c.wf() && reached(c) implies reached(plr(c, op)) by {
            let ops = choose|ops: Seq<PlrOp>| #[trigger] apply_ops(s, ops) == c;
            let longer = ops.push(op);
            assert(longer.drop_last() =~= ops);
            assert(apply_ops(s, longer) == plr(c, op));
        }
    }
    assert(reached(s)) by {
        assert(apply_ops(s, Seq::<PlrOp>::empty()) == s);
    }
    lemma_closed_contains_all(reached, s);
    assert(reached(t));
}

/// `e` is the start triad, or a triad with its root in 0-11 at another
/// position than the start's.
pub open spec fn listed(e: Chord, start: Chord) -> bool {
    e == start || (e.wf() && triad_index(e) != triad_index(start))
}

/// Distinct listed triads number at most 24, and exactly 24 when the start
/// and every triad with its root in 0-11 at another position are among them.
pub proof fn lemma_listed_count(s: Seq<Chord>, start: Chord)
    requires
        0 <= triad_index(start) < 24,
        s.no_duplicates(),
        forall|i: int| 0 <= i < s.len() ==> listed(#[trigger] s[i], start),
    ensures
        s.len() <= 24,
        (s.contains(start) && forall|c: Chord|
            c.wf() && triad_index(c) != triad_index(start) ==> #[trigger] s.contains(c)) ==> s.len()
            == 24,
{
    let idx = s.map_values(|c: Chord| triad_index(c));
    assert forall|i: int, j: int| 0 <= i < idx.len() && 0 <= j < idx.len() && i != j implies idx[i]
        != idx[j] by {
        assert(listed(s[i], start) && listed(s[j], start));
        if s[i].wf() {
            lemma_triad_index(s[i]);
        }
        if s[j].wf() {
            lemma_triad_index(s[j]);
        }
    }
    assert(idx.no_duplicates());
    idx.unique_seq_to_set();
    let range = vstd::set_lib::set_int_range(0, 24);
    vstd::set_lib::lemma_int_range(0, 24);
    assert forall|v: int| idx.to_set().contains(v) implies range.contains(v) by {
        let i = choose|i: int| 0 <= i < idx.len() && idx[i] == v;
        assert(listed(s[i], start));
        if s[i].wf() {
            lemma_triad_index(s[i]);
        }
    }
    assert(idx.to_set().subset_of(range));
    vstd::set_lib::lemma_len_subset(idx.to_set(), range);
    if s.contains(start) && forall|c: Chord|
        c.wf() && triad_index(c) != triad_index(start) ==> #[trigger] s.contains(c) {
        assert forall|v: int| range.contains(v) implies idx.to_set().contains(v) by {
            if v == triad_index(start) {
                let i = choose|i: int| 0 <= i < s.len() && s[i] == start;
                assert(idx[i] == v);
            } else {
                lemma_triad_at(v);
                assert(s.contains(triad_at(v)));
                let i = choose|i: int| 0 <= i < s.len() && s[i] == triad_at(v);
                assert(idx[i] == v);
            }
        }
        assert(idx.to_set() =~= range);
    }
}

/// When the start is a major triad with its root in 12-23, it takes the
/// position of the minor triad `x` a twelfth below; the three neighbours of
/// `x` are still reached from the start without passing through `x`.
proof fn lemma_alias_neighbours(reached: spec_fn(Chord) -> bool, start: Chord)
    requires
        start.quality == Quality::Major,
        12 <= start.root < 24,
        reached(start),
        forall|c: Chord, op: PlrOp|
            #![trigger reached(c), plr(c, op)]
            reached(c) ==> reached(plr(c, op)) || triad_index(plr(c, op)) == triad_index(start),
    ensures
        forall|op: PlrOp| #[trigger] reached(plr(triad_at(triad_index(start)), op)),
{
    let r0 = start.root - 12;
    let x = triad_at(triad_index(start));
    assert(x == Chord { root: r0 as u8, quality: Quality::Minor });
    vstd::arithmetic::div_mod::lemma_mod_add_multiples_vanish(r0 + 4, 12);
    lemma_mod12_small(r0 + 3);
    lemma_mod12_small(r0 + 4);
    lemma_mod12_small(r0 + 7);
    lemma_mod12_small(r0 + 8);
    let a3 = (r0 + 3) % 12;
    let a4 = (r0 + 4) % 12;
    let a7 = (r0 + 7) % 12;
    let a8 = (r0 + 8) % 12;
    lemma_mod12_small(a4 + 8);
    lemma_mod12_small(a4 + 3);
    lemma_mod12_small(a4 + 4);
    lemma_mod12_small(a7 + 8);
    // L from the start, then L again, back to the major triad on r0
    let c1 = plr(start, PlrOp::L);
    assert(c1 == Chord { root: a4 as u8, quality: Quality::Minor });
    assert(reached(c1));
    let c2 = plr(c1, PlrOp::L);
    assert(c2 == Chord { root: r0 as u8, quality: Quality::Major });
    assert(reached(c2));
    // R, P, L from there to the major triad on r0 + 3
    let c3 = plr(c1, PlrOp::R);
    assert(c3 == Chord { root: a7 as u8, quality: Quality::Major });
    assert(reached(c3));
    let c4 = plr(c3, PlrOp::P);
    assert(c4 == Chord { root: a7 as u8, quality: Quality::Minor });
    assert(reached(c4));
    let c5 = plr(c4, PlrOp::L);
    assert(c5 == Chord { root: a3 as u8, quality: Quality::Major });
    assert(reached(c5));
    // P, L, P to the major triad on r0 + 8
    let c6 = plr(c1, PlrOp::P);
    assert(c6 == Chord { root: a4 as u8, quality: Quality::Major });
    assert(reached(c6));
    let c7 = plr(c6, PlrOp::L);
    assert(c7 == Chord { root: a8 as u8, quality: Quality::Minor });
    assert(reached(c7));
    let c8 = plr(c7, PlrOp::P);
    assert(c8 == Chord { root: a8 as u8, quality: Quality::Major });
    assert(reached(c8));
    assert(plr(x, PlrOp::P) == c2);
    assert(plr(x, PlrOp::L) == c8);
    assert(plr(x, PlrOp::R) == c5);
}

/// `r[j]` is the first triad of `r` with a step onto `c`, and `o` is the
/// first of P, L, R that steps onto `c` from it.
pub open spec fn first_touch(r: Seq<Chord>, c: Chord, j: int, o: PlrOp) -> bool {
    &&& 0 <= j < r.len()
    &&& plr(r[j], o) == c
    &&& forall|j2: int, o2: PlrOp| #![trigger plr(r[j2], o2)] 0 <= j2 < j ==> plr(r[j2], o2) != c
    &&& forall|o2: PlrOp| op_rank(o2) < op_rank(o) ==> plr(r[j], o2) != c
}

/// The step from `r[j]` by `o` comes before the step from `r[j2]` by `o2`:
/// it leaves an earlier triad, or the same triad by an earlier operation.
pub open spec fn touch_before(j: int, o: PlrOp, j2: int, o2: PlrOp) -> bool {
    j < j2 || (j == j2 && op_rank(o) < op_rank(o2))
}

/// The last triad of `p` is the one that follows the others in depth-first
/// order: of the triads one step from the others and not yet in `p`, away
/// from the position of the first, it is the one whose first step from the
/// others comes last.
pub open spec fn found_last(p: Seq<Chord>) -> bool {
    exists|j: int, o: PlrOp|
        #[trigger] first_touch(p.drop_last(), p.last(), j, o) && forall|d: Chord, j2: int, o2: PlrOp|
            #[trigger] first_touch(p.drop_last(), d, j2, o2) && triad_index(d) != triad_index(p[0])
                && !p.contains(d) ==> touch_before(j2, o2, j, o)
}

/// The first step onto a triad from a list is found only one way.
proof fn lemma_first_touch_unique(
    r: Seq<Chord>,
    c: Chord,
    j1: int,
    o1: PlrOp,
    j2: int,
    o2: PlrOp,
)
    requires
        first_touch(r, c, j1, o1),
        first_touch(r, c, j2, o2),
    ensures
        j1 == j2,
        o1 == o2,
{
    if j1 < j2 {
        assert(plr(r[j1], o1) == c);
    } else if j2 < j1 {
        assert(plr(r[j2], o2) == c);
    } else if op_rank(o1) < op_rank(o2) {
        assert(plr(r[j1], o1) == c);
    } else if op_rank(o2) < op_rank(o1) {
        assert(plr(r[j2], o2) == c);
    } else {
        assert(o1 == o2) by {
            match o1 {
                PlrOp::P => {},
                PlrOp::L => {},
                PlrOp::R => {},
            }
        }
    }
}

/// A first step stays first when the list grows at its end.
proof fn lemma_first_touch_extend(r: Seq<Chord>, x: Chord, c: Chord, j: int, o: PlrOp)
    requires
        first_touch(r, c, j, o),
    ensures
        first_touch(r.push(x), c, j, o),
{
    let r2 = r.push(x);
    assert forall|j2: int, o2: PlrOp| #![trigger plr(r2[j2], o2)] 0 <= j2 < j implies plr(r2[j2], o2)
        != c by {
        assert(r2[j2] == r[j2]);
        assert(plr(r[j2], o2) != c);
    }
    assert(r2[j] == r[j]);
}

/// Taking the last triad off the stack lists it after the others in
/// depth-first order: every other triad waiting on the stack was first
/// reached earlier, and every triad one step from the list that is not
/// listed is waiting on the stack.
#[verifier::rlimit(30)]
proof fn lemma_dfs_pop(
    start: Chord,
    visited: Seq<bool>,
    result: Seq<Chord>,
    stack: Seq<Chord>,
    tj: Seq<int>,
    to: Seq<PlrOp>,
)
    requires
        result.len() > 0,
        result[0] == start,
        stack.len() > 0,
        tj.len() == stack.len(),
        to.len() == stack.len(),
        !result.contains(stack.last()),
        forall|a: int|
            0 <= a < stack.len() ==> #[trigger] first_touch(result, stack[a], tj[a], to[a]),
        forall|a: int, b: int|
            #![trigger tj[a], tj[b]]
            0 <= a < b < stack.len() ==> touch_before(tj[a], to[a], tj[b], to[b]),
        forall|c: Chord|
            #![trigger visited[triad_index(c)]]
            c.wf() ==> (visited[triad_index(c)] <==> (result.contains(c) || stack.contains(c)
                || triad_index(c) == triad_index(start))),
        forall|j: int, op: PlrOp|
            0 <= j < result.len() ==> #[trigger] visited[triad_index(plr(result[j], op))],
        forall|i: int| 1 <= i < result.len() ==> #[trigger] found_last(result.take(i + 1)),
    ensures
        forall|i: int|
            1 <= i < result.len() + 1 ==> #[trigger] found_last(
                result.push(stack.last()).take(i + 1),
            ),
        forall|a: int|
            0 <= a < stack.len() - 1 ==> #[trigger] first_touch(
                result.push(stack.last()),
                stack[a],
                tj[a],
                to[a],
            ),
        forall|a: int| 0 <= a < stack.len() - 1 ==> #[trigger] tj[a] < result.len(),
{
    let n = result.len() as int;
    let last = stack.len() - 1;
    let cur = stack[last];
    let r2 = result.push(cur);
    let jl = tj[last];
    let ol = to[last];
    assert(first_touch(result, stack[last], tj[last], to[last]));
    assert(r2.drop_last() =~= result);
    assert(r2.last() == cur);
    assert(first_touch(r2.drop_last(), r2.last(), jl, ol));
    assert(r2[0] == start);
    assert forall|d: Chord, j2: int, o2: PlrOp|
        #[trigger] first_touch(r2.drop_last(), d, j2, o2) && triad_index(d) != triad_index(r2[0])
            && !r2.contains(d) implies touch_before(j2, o2, jl, ol) by {
        lemma_plr_wf(result[j2], o2);
        assert(visited[triad_index(plr(result[j2], o2))]);
        assert(!result.contains(d)) by {
            if result.contains(d) {
                let k = choose|k: int| 0 <= k < result.len() && result[k] == d;
                assert(r2[k] == d);
            }
        }
        assert(stack.contains(d));
        let a = choose|a: int| 0 <= a < stack.len() && stack[a] == d;
        assert(a != last) by {
            assert(r2[n] == cur);
        }
        assert(first_touch(result, stack[a], tj[a], to[a]));
        lemma_first_touch_unique(result, d, j2, o2, tj[a], to[a]);
        assert(touch_before(tj[a], to[a], tj[last], to[last]));
    }
    assert(found_last(r2));
    assert(r2.take(n + 1) =~= r2);
    assert forall|i: int| 1 <= i < n + 1 implies #[trigger] found_last(r2.take(i + 1)) by {
        if i < n {
            assert(r2.take(i + 1) =~= result.take(i + 1));
        }
    }
    assert forall|a: int| 0 <= a < stack.len() - 1 implies #[trigger] first_touch(
        r2,
        stack[a],
        tj[a],
        to[a],
    ) by {
        lemma_first_touch_extend(result, cur, stack[a], tj[a], to[a]);
    }
}

/// Pushing a newly found neighbour of the triad being listed: its first step
/// is the current one, which comes after every step that put a triad on the
/// stack before.
proof fn lemma_dfs_push(
    visited: Seq<bool>,
    result: Seq<Chord>,
    stack: Seq<Chord>,
    tj: Seq<int>,
    to: Seq<PlrOp>,
    op: PlrOp,
    g: int,
)
    requires
        result.len() > 0,
        tj.len() == stack.len(),
        to.len() == stack.len(),
        forall|a: int|
            0 <= a < stack.len() ==> #[trigger] first_touch(result, stack[a], tj[a], to[a]),
        forall|a: int, b: int|
            #![trigger tj[a], tj[b]]
            0 <= a < b < stack.len() ==> touch_before(tj[a], to[a], tj[b], to[b]),
        forall|a: int|
            0 <= a < stack.len() ==> #[trigger] tj[a] < result.len() - 1 || (tj[a] == result.len()
                - 1 && op_rank(to[a]) < g),
        op_rank(op) == g,
        !visited[triad_index(plr(result.last(), op))],
        forall|j: int, o: PlrOp|
            0 <= j < result.len() - 1 ==> #[trigger] visited[triad_index(plr(result[j], o))],
        forall|o: PlrOp|
            op_rank(o) < g ==> #[trigger] visited[triad_index(plr(result.last(), o))],
    ensures
        ({
            let s2 = stack.push(plr(result.last(), op));
            let tj2 = tj.push(result.len() - 1);
            let to2 = to.push(op);
            &&& forall|a: int|
                0 <= a < s2.len() ==> #[trigger] first_touch(result, s2[a], tj2[a], to2[a])
            &&& forall|a: int, b: int|
                #![trigger tj2[a], tj2[b]]
                0 <= a < b < s2.len() ==> touch_before(tj2[a], to2[a], tj2[b], to2[b])
            &&& forall|a: int|
                0 <= a < s2.len() ==> #[trigger] tj2[a] < result.len() - 1 || (tj2[a]
                    == result.len() - 1 && op_rank(to2[a]) < g + 1)
        }),
{
    let i = result.len() - 1;
    let next = plr(result.last(), op);
    let s2 = stack.push(next);
    let tj2 = tj.push(i);
    let to2 = to.push(op);
    assert(result[i] == result.last());
    assert forall|j2: int, o2: PlrOp| #![trigger plr(result[j2], o2)] 0 <= j2 < i implies plr(
        result[j2],
        o2,
    ) != next by {
        assert(visited[triad_index(plr(result[j2], o2))]);
    }
    assert forall|o2: PlrOp| op_rank(o2) < op_rank(op) implies plr(result[i], o2) != next by {
        assert(visited[triad_index(plr(result.last(), o2))]);
    }
    assert(first_touch(result, next, i, op));
    assert forall|a: int| 0 <= a < s2.len() implies #[trigger] first_touch(
        result,
        s2[a],
        tj2[a],
        to2[a],
    ) by {
        if a < stack.len() {
            assert(first_touch(result, stack[a], tj[a], to[a]));
        }
    }
    assert forall|a: int, b: int|
        #![trigger tj2[a], tj2[b]]
        0 <= a < b < s2.len() implies touch_before(tj2[a], to2[a], tj2[b], to2[b]) by {
        if b < stack.len() {
            assert(touch_before(tj[a], to[a], tj[b], to[b]));
        } else {
            assert(tj[a] < i || (tj[a] == i && op_rank(to[a]) < g));
        }
    }
    assert forall|a: int| 0 <= a < s2.len() implies #[trigger] tj2[a] < result.len() - 1 || (tj2[a]
        == result.len() - 1 && op_rank(to2[a]) < g + 1) by {
        if a < stack.len() {
            assert(tj[a] < i || (tj[a] == i && op_rank(to[a]) < g));
        }
    }
}

/// Generate all 24 major and minor triads reachable via PLR operations from a starting chord.
///
/// The triads come in depth-first order from `start`, each once: the start
/// first, as given, then each time the triad first reached most recently
/// among those not yet listed, trying P, L and R in that order from each
/// listed triad. When the start's root is outside 0-11 it stands in for the
/// triad at its position in the table of 24, which is then left out.
pub fn all_triads_via_plr(start: Chord) -> (triads: Vec<Chord>)
    requires
        triad_index(start) < 24,
    ensures
        triads@.len() == 24,
        triads@.no_duplicates(),
        triads@[0] == start,
        forall|i: int|
            1 <= i < triads@.len() ==> #[trigger] triads@[i].wf() && triad_index(triads@[i])
                != triad_index(start),
        forall|c: Chord|
            c.wf() && triad_index(c) != triad_index(start) ==> #[trigger] triads@.contains(c),
        start.wf() ==> forall|c: Chord| c.wf() ==> #[trigger] triads@.contains(c),
        forall|i: int| 1 <= i < triads@.len() ==> #[trigger] found_last(triads@.take(i + 1)),
{
    let generators: [PlrOp; 3] = [PlrOp::P, PlrOp::L, PlrOp::R];
    assert(generators@ =~= seq![PlrOp::P, PlrOp::L, PlrOp::R]);
    let mut visited: Vec<bool> = Vec::new();
    while visited.len() < 24
        invariant
            visited@.len() <= 24,
            forall|i: int| 0 <= i < visited@.len() ==> !#[trigger] visited@[i],
        decreases 24 - visited@.len(),
    {
        visited.push(false);
    }
    let ghost si = triad_index(start);
    let mut result: Vec<Chord> = Vec::new();
    let mut queue: Vec<Chord> = Vec::new();
    queue.push(start);
    let start_idx = chord_index(start);
    visited.set(start_idx, true);
    let ghost mut tj: Seq<int> = seq![0int];
    let ghost mut to: Seq<PlrOp> = seq![PlrOp::P];
    proof {
        assert forall|c: Chord| c.wf() implies (#[trigger] visited@[triad_index(c)] <==> (
        result@.contains(c) || queue@.contains(c) || triad_index(c) == si)) by {
            lemma_triad_index(c);
        }
        assert(queue@[0] == start);
    }
    loop
        invariant
            generators@ == seq![PlrOp::P, PlrOp::L, PlrOp::R],
            si == triad_index(start),
            0 <= si < 24,
            visited@.len() == 24,
            visited@[si],
            forall|i: int| 0 <= i < result@.len() ==> listed(#[trigger] result@[i], start),
            forall|i: int| 0 <= i < queue@.len() ==> listed(#[trigger] queue@[i], start),
            result@.no_duplicates(),
            queue@.no_duplicates(),
            forall|i: int, j: int|
                0 <= i < result@.len() && 0 <= j < queue@.len() ==> result@[i] != queue@[j],
            forall|c: Chord|
                #![trigger visited@[triad_index(c)]]
                c.wf() ==> (visited@[triad_index(c)] <==> (result@.contains(c) || queue@.contains(
                    c,
                ) || triad_index(c) == si)),
            forall|j: int, op: PlrOp|
                0 <= j < result@.len() ==> #[trigger] visited@[triad_index(plr(result@[j], op))],
            result@.len() + queue@.len() <= 24,
            result@.len() == 0 ==> queue@ == seq![start],
            result@.len() > 0 ==> result@[0] == start,
            tj.len() == queue@.len(),
            to.len() == queue@.len(),
            result@.len() > 0 ==> forall|a: int|
                0 <= a < queue@.len() ==> #[trigger] first_touch(result@, queue@[a], tj[a], to[a]),
            forall|a: int, b: int|
                #![trigger tj[a], tj[b]]
                0 <= a < b < queue@.len() ==> touch_before(tj[a], to[a], tj[b], to[b]),
            forall|i: int| 1 <= i < result@.len() ==> #[trigger] found_last(result@.take(i + 1)),
        ensures
            forall|i: int| 1 <= i < result@.len() ==> #[trigger] found_last(result@.take(i + 1)),
            si == triad_index(start),
            0 <= si < 24,
            visited@.len() == 24,
            forall|i: int| 0 <= i < result@.len() ==> listed(#[trigger] result@[i], start),
            result@.no_duplicates(),
            forall|c: Chord|
                #![trigger visited@[triad_index(c)]]
                c.wf() ==> (visited@[triad_index(c)] <==> (result@.contains(c) || triad_index(c)
                    == si)),
            forall|j: int, op: PlrOp|
                0 <= j < result@.len() ==> #[trigger] visited@[triad_index(plr(result@[j], op))],
            result@.len() > 0,
            result@[0] == start,
        decreases 2 * (24 - result@.len() - queue@.len()) + queue@.len(),
    {
        let ghost old_result = result@;
        let ghost old_queue = queue@;
        let popped = queue.pop();
        match popped {
            None => {
                proof {
                    assert forall|c: Chord| c.wf() implies (#[trigger] visited@[triad_index(c)]
                        <==> (result@.contains(c) || triad_index(c) == si)) by {
                        if queue@.contains(c) {
                            let k = choose|k: int| 0 <= k < queue@.len() && queue@[k] == c;
                        }
                    }
                }
                break ;
            },
            Some(current) => {
                proof {
                    if old_result.len() > 0 {
                        assert(!old_result.contains(old_queue.last())) by {
                            if old_result.contains(old_queue.last()) {
                                let k = choose|k: int|
                                    0 <= k < old_result.len() && old_result[k] == old_queue.last();
                                assert(old_result[k] != old_queue[old_queue.len() - 1]);
                            }
                        }
                        lemma_dfs_pop(start, visited@, old_result, old_queue, tj, to);
                    }
                    tj = tj.drop_last();
                    to = to.drop_last();
                }
                result.push(current);
                proof {
                    assert(listed(old_queue[old_queue.len() - 1], start));
                    assert(result@.no_duplicates()) by {
                        assert forall|i: int| 0 <= i < old_result.len() implies old_result[i]
                            != current by {
                            assert(old_queue[old_queue.len() - 1] == current);
                        }
                    }
                    assert forall|i: int| 0 <= i < result@.len() implies listed(
                        #[trigger] result@[i],
                        start,
                    ) by {
                        if i < old_result.len() {
                            assert(result@[i] == old_result[i]);
                        }
                    }
                    assert forall|i: int| 0 <= i < queue@.len() implies listed(
                        #[trigger] queue@[i],
                        start,
                    ) by {
                        assert(queue@[i] == old_queue[i]);
                    }
                    assert forall|c: Chord|
                        #![trigger visited@[triad_index(c)]]
                        c.wf() implies (visited@[triad_index(c)] <==> (result@.contains(c)
                            || queue@.contains(c) || triad_index(c) == si)) by {
                        if old_result.contains(c) {
                            let k = choose|k: int| 0 <= k < old_result.len() && old_result[k] == c;
                            assert(result@[k] == c);
                        }
                        if old_queue.contains(c) {
                            let k = choose|k: int| 0 <= k < old_queue.len() && old_queue[k] == c;
                            if k == old_queue.len() - 1 {
                                assert(result@[old_result.len() as int] == c);
                            } else {
                                assert(queue@[k] == c);
                            }
                        }
                        if result@.contains(c) {
                            let k = choose|k: int| 0 <= k < result@.len() && result@[k] == c;
                            if k < old_result.len() {
                                assert(old_result[k] == c);
                            } else {
                                assert(old_queue[old_queue.len() - 1] == c);
                            }
                        }
                        if queue@.contains(c) {
                            let k = choose|k: int| 0 <= k < queue@.len() && queue@[k] == c;
                            assert(old_queue[k] == c);
                        }
                    }
                }
                let mut g: usize = 0;
                while g < 3
                    invariant
                        0 <= g <= 3,
                        generators@ == seq![PlrOp::P, PlrOp::L, PlrOp::R],
                        si == triad_index(start),
                        0 <= si < 24,
                        result@.len() > 0,
                        current == result@[result@.len() - 1],
                        visited@.len() == 24,
                        visited@[si],
                        forall|i: int| 0 <= i < result@.len() ==> listed(#[trigger] result@[i], start),
                        forall|i: int| 0 <= i < queue@.len() ==> listed(#[trigger] queue@[i], start),
                        result@.no_duplicates(),
                        queue@.no_duplicates(),
                        forall|i: int, j: int|
                            0 <= i < result@.len() && 0 <= j < queue@.len() ==> result@[i]
                                != queue@[j],
                        forall|c: Chord|
                            #![trigger visited@[triad_index(c)]]
                            c.wf() ==> (visited@[triad_index(c)] <==> (result@.contains(c)
                                || queue@.contains(c) || triad_index(c) == si)),
                        forall|j: int, op: PlrOp|
                            0 <= j < result@.len() - 1 ==> #[trigger] visited@[triad_index(
                                plr(result@[j], op),
                            )],
                        forall|o: PlrOp|
                            op_rank(o) < g ==> #[trigger] visited@[triad_index(plr(current, o))],
                        result@.len() + queue@.len() <= 24,
                        tj.len() == queue@.len(),
                        to.len() == queue@.len(),
                        forall|a: int|
                            0 <= a < queue@.len() ==> #[trigger] first_touch(
                                result@,
                                queue@[a],
                                tj[a],
                                to[a],
                            ),
                        forall|a: int, b: int|
                            #![trigger tj[a], tj[b]]
                            0 <= a < b < queue@.len() ==> touch_before(tj[a], to[a], tj[b], to[b]),
                        forall|a: int|
                            0 <= a < queue@.len() ==> #[trigger] tj[a] < result@.len() - 1 || (tj[a]
                                == result@.len() - 1 && op_rank(to[a]) < g),
                        forall|i: int|
                            1 <= i < result@.len() ==> #[trigger] found_last(result@.take(i + 1)),
                        result@[0] == start,
                        queue@.len() >= old_queue.len() - 1,
                    decreases 3 - g,
                {
                    let op = generators[g];
                    proof {
                        assert(op_rank(op) == g) by {
                            if g == 0 {
                                assert(op == PlrOp::P);
                            } else if g == 1 {
                                assert(op == PlrOp::L);
                            } else {
                                assert(op == PlrOp::R);
                            }
                        }
                        assert(listed(current, start));
                        if current.wf() {
                            lemma_wf_fits(current, op);
                        }
                        lemma_plr_wf(current, op);
                        lemma_triad_index(plr(current, op));
                    }
                    let next = apply_plr(current, op);
                    let idx = chord_index(next);
                    if !visited[idx] {
                        let ghost before = queue@;
                        proof {
                            lemma_dfs_push(visited@, result@, queue@, tj, to, op, g as int);
                            tj = tj.push(result@.len() - 1);
                            to = to.push(op);
                        }
                        visited.set(idx, true);
                        queue.push(next);
                        proof {
                            assert(!result@.contains(next) && !before.contains(next));
                            assert(listed(next, start));
                            assert forall|i: int| 0 <= i < before.len() implies before[i]
                                != next by {
                                assert(before.contains(before[i]));
                            }
                            assert forall|i: int| 0 <= i < result@.len() implies result@[i]
                                != next by {
                                assert(result@.contains(result@[i]));
                            }
                            assert forall|i: int| 0 <= i < queue@.len() implies listed(
                                #[trigger] queue@[i],
                                start,
                            ) by {
                                if i < before.len() {
                                    assert(queue@[i] == before[i]);
                                }
                            }
                            assert forall|c: Chord|
                                #![trigger visited@[triad_index(c)]]
                                c.wf() implies (visited@[triad_index(c)] <==> (
                                result@.contains(c) || queue@.contains(c) || triad_index(c)
                                    == si)) by {
                                lemma_triad_index(c);
                                if triad_index(c) == idx {
                                    assert(c == next);
                                    assert(queue@[before.len() as int] == next);
                                } else {
                                    if before.contains(c) {
                                        let k = choose|k: int|
                                            0 <= k < before.len() && before[k] == c;
                                        assert(queue@[k] == c);
                                    }
                                    if queue@.contains(c) {
                                        let k = choose|k: int|
                                            0 <= k < queue@.len() && queue@[k] == c;
                                        assert(k < before.len());
                                        assert(before[k] == c);
                                    }
                                }
                            }
                            vstd::seq_lib::lemma_no_dup_in_concat(result@, queue@);
                            assert forall|i: int| 0 <= i < (result@ + queue@).len() implies listed(
                                #[trigger] (result@ + queue@)[i],
                                start,
                            ) by {
                                if i < result@.len() {
                                    assert((result@ + queue@)[i] == result@[i]);
                                } else {
                                    assert((result@ + queue@)[i] == queue@[i - result@.len()]);
                                }
                            }
                            lemma_listed_count(result@ + queue@, start);
                        }
                    }
                    g = g + 1;
                }
                proof {
                    assert forall|j: int, op: PlrOp|
                        0 <= j < result@.len() implies #[trigger] visited@[triad_index(
                            plr(result@[j], op),
                        )] by {
                        if j == result@.len() - 1 {
                            assert(op_rank(op) < 3);
                        }
                    }
                }
            },
        }
    }
    proof {
        let in_result = |c: Chord| result@.contains(c);
        // Each step from a triad in the result lands in the result or on the
        // position of the start.
        assert forall|c: Chord, op: PlrOp| #![trigger in_result(c), plr(c, op)] in_result(c) implies (
        in_result(plr(c, op)) || triad_index(plr(c, op)) == si) by {
            let j = choose|j: int| 0 <= j < result@.len() && result@[j] == c;
            assert(visited@[triad_index(plr(result@[j], op))]);
            lemma_plr_wf(c, op);
        }
        lemma_triad_at(si);
        let x = triad_at(si);
        let covered = |c: Chord| in_result(c) || c == x;
        assert(in_result(start)) by {
            assert(result@[0] == start);
        }
        if !in_result(x) {
            assert(!start.wf()) by {
                if start.wf() {
                    lemma_triad_index(start);
                }
            }
            lemma_alias_neighbours(in_result, start);
        }
        assert(closed_under_plr(covered)) by {
            assert forall|c: Chord, op: PlrOp| #![trigger covered(c), plr(c, op)]
                c.wf() && covered(c) implies covered(plr(c, op)) by {
                lemma_plr_wf(c, op);
                lemma_triad_index(plr(c, op));
                if in_result(c) {
                    assert(in_result(plr(c, op)) || triad_index(plr(c, op)) == si);
                } else {
                    assert(in_result(plr(x, op)));
                }
            }
        }
        lemma_closed_contains_all(covered, x);
        assert forall|c: Chord| c.wf() && triad_index(c) != si implies #[trigger] result@.contains(
            c,
        ) by {
            assert(covered(c));
            lemma_triad_index(c);
        }
        assert forall|i: int| 1 <= i < result@.len() implies #[trigger] result@[i].wf()
            && triad_index(result@[i]) != si by {
            assert(listed(result@[i], start));
            assert(result@[i] != result@[0]);
        }
        if start.wf() {
            lemma_triad_index(start);
            assert forall|c: Chord| c.wf() implies #[trigger] result@.contains(c) by {
                if triad_index(c) == si {
                    lemma_triad_index(c);
                    assert(c == start);
                } else {
                    assert(covered(c));
                }
            }
        }
        lemma_listed_count(result@, start);
    }
    result
}

/// The number of triads that PLR operations reach from C major: all 24.
pub fn plr_group_order() -> (n: usize)
    ensures
        n == 24,
{
    all_triads_via_plr(Chord::major(0)).len()
}

/// Every triad that `ops` passes through after leaving `c`, the last one
/// included, sits at another position in the table of 24 than `bad`.
pub open spec fn avoids_position(c: Chord, ops: Seq<PlrOp>, bad: int) -> bool {
    forall|i: int| 1 <= i <= ops.len() ==> triad_index(#[trigger] apply_ops(c, ops.take(i))) != bad
}

/// Every triad that `ops` passes through after leaving `s`, the last one
/// included, sits at another position in the table of 24 than `s`.
pub open spec fn avoids_start(s: Chord, ops: Seq<PlrOp>) -> bool {
    avoids_position(s, ops, triad_index(s))
}

/// A step onto a triad away from `bad`, followed by a path that stays away
/// from `bad`, stays away from `bad`.
proof fn lemma_avoids_prepend(c: Chord, op: PlrOp, rest: Seq<PlrOp>, bad: int)
    requires
        triad_index(plr(c, op)) != bad,
        avoids_position(plr(c, op), rest, bad),
    ensures
        avoids_position(c, seq![op] + rest, bad),
{
    let whole = seq![op] + rest;
    assert forall|i: int| 1 <= i <= whole.len() implies triad_index(
        #[trigger] apply_ops(c, whole.take(i)),
    ) != bad by {
        assert(whole.take(i) =~= seq![op] + rest.take(i - 1));
        crate::sequence::lemma_apply_ops_prepend(c, op, rest.take(i - 1));
        if i == 1 {
            assert(rest.take(0) =~= Seq::<PlrOp>::empty());
            assert(apply_ops(plr(c, op), rest.take(0)) == plr(c, op));
        }
    }
}

/// `t` is reached from `s` by some sequence of at most `k` PLR steps that
/// never comes back to the position of `s`.
pub open spec fn reachable_within(s: Chord, t: Chord, k: int) -> bool {
    exists|ops: Seq<PlrOp>|
        ops.len() <= k && #[trigger] apply_ops(s, ops) == t && avoids_start(s, ops)
}

/// The triad the search holds at position `x`: the start at its own position,
/// the triad of the table anywhere else.
pub open spec fn node_at(source: Chord, x: int) -> Chord {
    if x == triad_index(source) {
        source
    } else {
        triad_at(x)
    }
}

proof fn lemma_reach_zero(s: Chord, t: Chord)
    requires
        reachable_within(s, t, 0),
    ensures
        t == s,
{
    let ops = choose|ops: Seq<PlrOp>|
        ops.len() <= 0 && #[trigger] apply_ops(s, ops) == t && avoids_start(s, ops);
}

proof fn lemma_reach_self(s: Chord)
    ensures
        reachable_within(s, s, 0),
{
    let ops = Seq::<PlrOp>::empty();
    assert(apply_ops(s, ops) == s);
    assert(avoids_start(s, ops));
}

proof fn lemma_reach_more(s: Chord, t: Chord, k: int, k2: int)
    requires
        reachable_within(s, t, k),
        k <= k2,
    ensures
        reachable_within(s, t, k2),
{
    let ops = choose|ops: Seq<PlrOp>|
        ops.len() <= k && #[trigger] apply_ops(s, ops) == t && avoids_start(s, ops);
    assert(apply_ops(s, ops) == t);
}

/// A triad reached without coming back to the start sits at its own position
/// in the table, or is the start.
proof fn lemma_reach_node(s: Chord, t: Chord, k: int)
    requires
        0 <= triad_index(s) < 24,
        reachable_within(s, t, k),
    ensures
        0 <= triad_index(t) < 24,
        node_at(s, triad_index(t)) == t,
{
    let ops = choose|ops: Seq<PlrOp>|
        ops.len() <= k && #[trigger] apply_ops(s, ops) == t && avoids_start(s, ops);
    if ops.len() > 0 {
        assert(ops.take(ops.len() as int) =~= ops);
        assert(triad_index(apply_ops(s, ops.take(ops.len() as int))) != triad_index(s));
        crate::sequence::lemma_apply_ops_wf(s, ops);
        lemma_triad_index(t);
    }
}

/// One more step to a triad away from the start extends a path.
proof fn lemma_reach_step(s: Chord, u: Chord, k: int, op: PlrOp)
    requires
        reachable_within(s, u, k),
        triad_index(plr(u, op)) != triad_index(s),
    ensures
        reachable_within(s, plr(u, op), k + 1),
{
    let ops = choose|ops: Seq<PlrOp>|
        ops.len() <= k && #[trigger] apply_ops(s, ops) == u && avoids_start(s, ops);
    let longer = ops.push(op);
    assert(longer.drop_last() =~= ops);
    assert(apply_ops(s, longer) == plr(u, op));
    assert forall|i: int| 1 <= i <= longer.len() implies triad_index(
        #[trigger] apply_ops(s, longer.take(i)),
    ) != triad_index(s) by {
        if i <= ops.len() {
            assert(longer.take(i) =~= ops.take(i));
        } else {
            assert(longer.take(i) =~= longer);
        }
    }
}

/// A triad within `k + 1` steps is within `k` steps or one step from a triad
/// within `k` steps.
proof fn lemma_reach_last_step(s: Chord, t: Chord, k: int) -> (prev: (Chord, PlrOp))
    requires
        k >= 0,
        reachable_within(s, t, k + 1),
        !reachable_within(s, t, k),
    ensures
        reachable_within(s, prev.0, k),
        t == plr(prev.0, prev.1),
{
    let ops = choose|ops: Seq<PlrOp>|
        ops.len() <= k + 1 && #[trigger] apply_ops(s, ops) == t && avoids_start(s, ops);
    assert(ops.len() == k + 1);
    let front = ops.drop_last();
    let p = apply_ops(s, front);
    assert forall|i: int| 1 <= i <= front.len() implies triad_index(
        #[trigger] apply_ops(s, front.take(i)),
    ) != triad_index(s) by {
        assert(front.take(i) =~= ops.take(i));
    }
    assert(front.len() <= k);
    assert(t == plr(p, ops.last()));
    (p, ops.last())
}

/// From a start with its root in 0-11, every triad reached at all is reached
/// at least as quickly without coming back to the start.
proof fn lemma_shortcut(s: Chord, ops: Seq<PlrOp>)
    requires
        s.wf(),
    ensures
        reachable_within(s, apply_ops(s, ops), ops.len() as int),
        !avoids_start(s, ops) ==> reachable_within(s, apply_ops(s, ops), ops.len() - 1),
    decreases ops.len(),
{
    let t = apply_ops(s, ops);
    if avoids_start(s, ops) {
    } else {
        let i = choose|i: int|
            1 <= i <= ops.len() && triad_index(#[trigger] apply_ops(s, ops.take(i))) == triad_index(
                s,
            );
        let mid = apply_ops(s, ops.take(i));
        crate::sequence::lemma_apply_ops_wf(s, ops.take(i));
        lemma_triad_index(mid);
        lemma_triad_index(s);
        assert(mid == s);
        assert(ops =~= ops.take(i) + ops.skip(i));
        crate::sequence::lemma_apply_ops_concat(s, ops.take(i), ops.skip(i));
        lemma_shortcut(s, ops.skip(i));
        lemma_reach_more(s, t, ops.skip(i).len() as int, ops.len() as int);
        lemma_reach_more(s, t, ops.skip(i).len() as int, ops.len() - 1);
    }
}

/// Once every triad of the current level is expanded, every triad within one
/// more step has been visited.
proof fn lemma_next_level_visited(
    source: Chord,
    visited: Seq<bool>,
    parent: Seq<Option<(usize, PlrOp)>>,
    queue: Seq<usize>,
    dist: Seq<int>,
    head: int,
    level: int,
)
    requires
        0 <= triad_index(source) < 24,
        level >= 0,
        visited.len() == 24,
        dist.len() == 24,
        0 <= head < queue.len(),
        dist[queue[head] as int] > level,
        forall|i: int| 0 <= i < queue.len() ==> #[trigger] queue[i] < 24 && visited[queue[i] as int],
        forall|x: int| 0 <= x < 24 && #[trigger] visited[x] ==> queue.contains(x as usize),
        forall|i: int, j: int|
            0 <= i <= j < queue.len() ==> dist[#[trigger] queue[i] as int] <= dist[
            #[trigger] queue[j] as int],
        forall|c: Chord| #[trigger] reachable_within(source, c, level) ==> visited[triad_index(c)],
        forall|i: int, op: PlrOp|
            0 <= i < head ==> #[trigger] visited[triad_index(
                plr(node_at(source, queue[i] as int), op),
            )],
        search_tree(source, visited, parent, dist),
    ensures
        forall|c: Chord| #[trigger] reachable_within(source, c, level + 1) ==> visited[triad_index(c)],
{
    reveal(distances_exact);
    assert forall|c: Chord| #[trigger] reachable_within(source, c, level + 1) implies visited[triad_index(
        c,
    )] by {
        if !reachable_within(source, c, level) {
            let (p, op) = lemma_reach_last_step(source, c, level);
            let pi = triad_index(p);
            assert(visited[pi]);
            lemma_reach_node(source, p, level);
            assert(queue.contains(pi as usize));
            let k = choose|k: int| 0 <= k < queue.len() && queue[k] == pi as usize;
            if dist[pi] > level {
                lemma_reach_more(source, p, level, dist[pi] - 1);
            }
            if k >= head {
                assert(dist[queue[head] as int] <= dist[queue[k] as int]);
            }
            assert(k < head);
            assert(node_at(source, queue[k] as int) == p);
            assert(visited[triad_index(plr(node_at(source, queue[k] as int), op))]);
        }
    }
}

/// Distinct positions below 24 number at most 24.
proof fn lemma_distinct_positions_count(q: Seq<usize>)
    requires
        q.no_duplicates(),
        forall|i: int| 0 <= i < q.len() ==> #[trigger] q[i] < 24,
    ensures
        q.len() <= 24,
{
    let ints = q.map_values(|x: usize| x as int);
    assert forall|i: int, j: int| 0 <= i < ints.len() && 0 <= j < ints.len() && i != j implies ints[i]
        != ints[j] by {}
    assert(ints.no_duplicates());
    ints.unique_seq_to_set();
    let range = vstd::set_lib::set_int_range(0, 24);
    vstd::set_lib::lemma_int_range(0, 24);
    assert forall|v: int| ints.to_set().contains(v) implies range.contains(v) by {
        let i = choose|i: int| 0 <= i < ints.len() && ints[i] == v;
    }
    vstd::set_lib::lemma_len_subset(ints.to_set(), range);
}

/// `x` was first visited by the step recorded in `parent` from a visited
/// triad one step nearer the start.
spec fn good_parent(
    source: Chord,
    parent: Option<(usize, PlrOp)>,
    visited: Seq<bool>,
    dist: Seq<int>,
    x: int,
) -> bool {
    match parent {
        Some((p, op)) => p < 24 && visited[p as int] && dist[p as int] + 1 == dist[x] && plr(
            node_at(source, p as int),
            op,
        ) == node_at(source, x),
        None => false,
    }
}

/// Every visited triad sits at its recorded distance from `source`, which is
/// the fewest steps that reach it without coming back to the start.
#[verifier::opaque]
spec fn distances_exact(source: Chord, visited: Seq<bool>, dist: Seq<int>) -> bool {
    forall|x: int|
        0 <= x < 24 && #[trigger] visited[x] ==> dist[x] >= 0 && reachable_within(
            source,
            node_at(source, x),
            dist[x],
        ) && (dist[x] > 0 ==> !reachable_within(source, node_at(source, x), dist[x] - 1))
}

/// Every visited triad but the start records the step that first reached it.
#[verifier::opaque]
spec fn parents_recorded(
    source: Chord,
    visited: Seq<bool>,
    parent: Seq<Option<(usize, PlrOp)>>,
    dist: Seq<int>,
) -> bool {
    forall|x: int|
        0 <= x < 24 && #[trigger] visited[x] && x != triad_index(source) ==> good_parent(
            source,
            parent[x],
            visited,
            dist,
            x,
        )
}

/// The tree of first steps built by the search.
spec fn search_tree(
    source: Chord,
    visited: Seq<bool>,
    parent: Seq<Option<(usize, PlrOp)>>,
    dist: Seq<int>,
) -> bool {
    &&& 0 <= triad_index(source) < 24
    &&& visited.len() == 24
    &&& parent.len() == 24
    &&& dist.len() == 24
    &&& visited[triad_index(source)]
    &&& dist[triad_index(source)] == 0
    &&& parent[triad_index(source)] is None
    &&& distances_exact(source, visited, dist)
    &&& parents_recorded(source, visited, parent, dist)
}

/// What the tree says of one visited triad.
proof fn lemma_tree_facts(
    source: Chord,
    visited: Seq<bool>,
    parent: Seq<Option<(usize, PlrOp)>>,
    dist: Seq<int>,
    x: int,
)
    requires
        search_tree(source, visited, parent, dist),
        0 <= x < 24,
        visited[x],
    ensures
        visited.len() == 24,
        parent.len() == 24,
        dist.len() == 24,
        dist[x] >= 0,
        reachable_within(source, node_at(source, x), dist[x]),
        dist[x] > 0 ==> !reachable_within(source, node_at(source, x), dist[x] - 1),
        x == triad_index(source) ==> parent[x] is None,
        x != triad_index(source) ==> good_parent(source, parent[x], visited, dist, x),
{
    reveal(distances_exact);
    reveal(parents_recorded);
}

/// The state of the breadth-first search from `source` towards the triad at
/// `target_idx`: `queue` lists the visited positions in the order they were
/// reached, the first `head` of them have been taken off the queue (none of
/// them the target), the first `expanded` of them have had all their
/// neighbours visited, `level` is the distance of the last one taken off, and
/// every triad within `level` steps has been visited.
#[verifier::opaque]
spec fn search_state(
    source: Chord,
    target_idx: int,
    visited: Seq<bool>,
    parent: Seq<Option<(usize, PlrOp)>>,
    queue: Seq<usize>,
    dist: Seq<int>,
    level: int,
    head: int,
    expanded: int,
) -> bool {
    &&& 0 <= triad_index(source) < 24
    &&& search_tree(source, visited, parent, dist)
    &&& visited.len() == 24
    &&& parent.len() == 24
    &&& dist.len() == 24
    &&& 0 <= expanded <= head <= queue.len() <= 24
    &&& queue.len() > 0
    &&& queue[0] == triad_index(source)
    &&& dist[triad_index(source)] == 0
    &&& forall|i: int| 0 <= i < queue.len() ==> #[trigger] queue[i] < 24 && visited[queue[i] as int]
    &&& queue.no_duplicates()
    &&& forall|x: int| 0 <= x < 24 && #[trigger] visited[x] ==> queue.contains(x as usize)
    &&& forall|i: int, j: int|
        0 <= i <= j < queue.len() ==> dist[#[trigger] queue[i] as int] <= dist[
        #[trigger] queue[j] as int]
    &&& head > 0 ==> level == dist[queue[head - 1] as int]
    &&& head == 0 ==> level == 0
    &&& level >= 0
    &&& forall|i: int| head <= i < queue.len() ==> dist[#[trigger] queue[i] as int] <= level + 1
    &&& forall|c: Chord| #[trigger] reachable_within(source, c, level) ==> visited[triad_index(c)]
    &&& forall|i: int, op: PlrOp|
        0 <= i < expanded ==> #[trigger] visited[triad_index(
            plr(node_at(source, queue[i] as int), op),
        )]
    &&& forall|i: int| 0 <= i < head ==> #[trigger] queue[i] != target_idx
}

/// Sizes and ranges of the search state.
proof fn lemma_search_bounds(
    source: Chord,
    target_idx: int,
    visited: Seq<bool>,
    parent: Seq<Option<(usize, PlrOp)>>,
    queue: Seq<usize>,
    dist: Seq<int>,
    level: int,
    head: int,
    expanded: int,
)
    requires
        search_state(source, target_idx, visited, parent, queue, dist, level, head, expanded),
    ensures
        0 <= triad_index(source) < 24,
        visited.len() == 24,
        parent.len() == 24,
        dist.len() == 24,
        0 <= expanded <= head <= queue.len() <= 24,
        forall|i: int| 0 <= i < queue.len() ==> #[trigger] queue[i] < 24,
{
    reveal(search_state);
}

/// The search starts with only the start visited and queued.
proof fn lemma_search_start(source: Chord, target_idx: int)
    requires
        0 <= triad_index(source) < 24,
    ensures
        search_state(
            source,
            target_idx,
            Seq::new(24, |i: int| i == triad_index(source)),
            Seq::new(24, |i: int| None),
            seq![triad_index(source) as usize],
            Seq::new(24, |i: int| 0int),
            0,
            0,
            0,
        ),
{
    reveal(search_state);
    reveal(distances_exact);
    reveal(parents_recorded);
    lemma_reach_self(source);
    let visited = Seq::new(24, |i: int| i == triad_index(source));
    let queue = seq![triad_index(source) as usize];
    assert forall|c: Chord| #[trigger] reachable_within(source, c, 0) implies visited[triad_index(c)] by {
        lemma_reach_zero(source, c);
    }
    assert forall|x: int| 0 <= x < 24 && #[trigger] visited[x] implies queue.contains(x as usize) by {
        assert(queue[0] == x as usize);
    }
    assert(node_at(source, triad_index(source)) == source);
}

/// Taking the next triad off the queue: it is not the target, and the level
/// becomes its distance.
proof fn lemma_search_take(
    source: Chord,
    target_idx: int,
    visited: Seq<bool>,
    parent: Seq<Option<(usize, PlrOp)>>,
    queue: Seq<usize>,
    dist: Seq<int>,
    level: int,
    head: int,
)
    requires
        search_state(source, target_idx, visited, parent, queue, dist, level, head, head),
        head < queue.len(),
        queue[head] != target_idx,
    ensures
        search_state(
            source,
            target_idx,
            visited,
            parent,
            queue,
            dist,
            dist[queue[head] as int],
            head + 1,
            head,
        ),
        queue[head] < 24,
        visited[queue[head] as int],
{
    reveal(search_state);
    let d = dist[queue[head] as int];
    if d > level {
        lemma_next_level_visited(source, visited, parent, queue, dist, head, level);
    }
    if head > 0 {
        assert(dist[queue[head - 1] as int] <= dist[queue[head] as int]);
    }
}

/// Recording a newly visited triad one step beyond a visited triad at
/// distance `level`, when nothing within `level` steps was left unvisited.
proof fn lemma_tree_visit(
    source: Chord,
    visited: Seq<bool>,
    parent: Seq<Option<(usize, PlrOp)>>,
    dist: Seq<int>,
    u: usize,
    level: int,
    op: PlrOp,
)
    requires
        search_tree(source, visited, parent, dist),
        u < 24,
        visited[u as int],
        dist[u as int] == level,
        !visited[triad_index(plr(node_at(source, u as int), op))],
        !reachable_within(source, plr(node_at(source, u as int), op), level),
    ensures
        ({
            let n = triad_index(plr(node_at(source, u as int), op));
            search_tree(
                source,
                visited.update(n, true),
                parent.update(n, Some((u, op))),
                dist.update(n, level + 1),
            )
        }),
{
    let current = node_at(source, u as int);
    let next = plr(current, op);
    let n = triad_index(next);
    lemma_plr_wf(current, op);
    lemma_triad_index(next);
    assert(n != triad_index(source));
    lemma_exact_visit(source, visited, dist, u, level, op);
    lemma_parents_visit(source, visited, parent, dist, u, level, op);
}

proof fn lemma_exact_visit(
    source: Chord,
    visited: Seq<bool>,
    dist: Seq<int>,
    u: usize,
    level: int,
    op: PlrOp,
)
    requires
        distances_exact(source, visited, dist),
        0 <= triad_index(source) < 24,
        visited.len() == 24,
        dist.len() == 24,
        visited[triad_index(source)],
        u < 24,
        visited[u as int],
        dist[u as int] == level,
        !visited[triad_index(plr(node_at(source, u as int), op))],
        !reachable_within(source, plr(node_at(source, u as int), op), level),
    ensures
        distances_exact(
            source,
            visited.update(triad_index(plr(node_at(source, u as int), op)), true),
            dist.update(triad_index(plr(node_at(source, u as int), op)), level + 1),
        ),
{
    reveal(distances_exact);
    let current = node_at(source, u as int);
    let next = plr(current, op);
    let n = triad_index(next);
    lemma_plr_wf(current, op);
    lemma_triad_index(next);
    assert(n != triad_index(source));
    assert(node_at(source, n) == next);
    let visited2 = visited.update(n, true);
    let dist2 = dist.update(n, level + 1);
    assert(visited[u as int]);
    lemma_reach_step(source, current, level, op);
    assert forall|x: int| 0 <= x < 24 && #[trigger] visited2[x] implies dist2[x] >= 0
        && reachable_within(source, node_at(source, x), dist2[x]) && (dist2[x] > 0
        ==> !reachable_within(source, node_at(source, x), dist2[x] - 1)) by {
        if x != n {
            assert(visited[x]);
        }
    }
}

proof fn lemma_parents_visit(
    source: Chord,
    visited: Seq<bool>,
    parent: Seq<Option<(usize, PlrOp)>>,
    dist: Seq<int>,
    u: usize,
    level: int,
    op: PlrOp,
)
    requires
        parents_recorded(source, visited, parent, dist),
        0 <= triad_index(source) < 24,
        visited.len() == 24,
        parent.len() == 24,
        dist.len() == 24,
        visited[triad_index(source)],
        u < 24,
        visited[u as int],
        dist[u as int] == level,
        !visited[triad_index(plr(node_at(source, u as int), op))],
    ensures
        ({
            let n = triad_index(plr(node_at(source, u as int), op));
            parents_recorded(
                source,
                visited.update(n, true),
                parent.update(n, Some((u, op))),
                dist.update(n, level + 1),
            )
        }),
{
    reveal(parents_recorded);
    let current = node_at(source, u as int);
    let next = plr(current, op);
    let n = triad_index(next);
    lemma_plr_wf(current, op);
    lemma_triad_index(next);
    assert(n != triad_index(source));
    assert(node_at(source, n) == next);
    let visited2 = visited.update(n, true);
    let parent2 = parent.update(n, Some((u, op)));
    let dist2 = dist.update(n, level + 1);
    assert forall|x: int| 0 <= x < 24 && #[trigger] visited2[x] && x != triad_index(source) implies good_parent(
        source,
        parent2[x],
        visited2,
        dist2,
        x,
    ) by {
        if x != n {
            assert(visited[x]);
            assert(good_parent(source, parent[x], visited, dist, x));
            let (p, o) = parent[x].unwrap();
            assert(visited[p as int]);
            assert(p as int != n);
        } else {
            assert(u as int != n);
        }
    }
}

/// Visiting a new neighbour of the triad being expanded puts it one step
/// further than that triad.
proof fn lemma_search_visit(
    source: Chord,
    target_idx: int,
    visited: Seq<bool>,
    parent: Seq<Option<(usize, PlrOp)>>,
    queue: Seq<usize>,
    dist: Seq<int>,
    level: int,
    head: int,
    op: PlrOp,
)
    requires
        search_state(source, target_idx, visited, parent, queue, dist, level, head, head - 1),
        head > 0,
        !visited[triad_index(plr(node_at(source, queue[head - 1] as int), op))],
    ensures
        ({
            let current = node_at(source, queue[head - 1] as int);
            let n = triad_index(plr(current, op));
            &&& 0 <= n < 24
            &&& search_state(
                source,
                target_idx,
                visited.update(n, true),
                parent.update(n, Some((queue[head - 1], op))),
                queue.push(n as usize),
                dist.update(n, level + 1),
                level,
                head,
                head - 1,
            )
        }),
{
    reveal(search_state);
    let u = queue[head - 1];
    let current = node_at(source, u as int);
    let next = plr(current, op);
    let n = triad_index(next);
    assert(visited[u as int]);
    lemma_plr_wf(current, op);
    lemma_triad_index(next);
    let visited2 = visited.update(n, true);
    let parent2 = parent.update(n, Some((u, op)));
    let queue2 = queue.push(n as usize);
    let dist2 = dist.update(n, level + 1);
    assert(!queue.contains(n as usize)) by {
        if queue.contains(n as usize) {
            let k = choose|k: int| 0 <= k < queue.len() && queue[k] == n as usize;
            assert(visited[queue[k] as int]);
        }
    }
    assert(queue2.no_duplicates());
    lemma_distinct_positions_count(queue2);
    assert(dist[u as int] == level);
    assert(!reachable_within(source, next, level));
    lemma_tree_visit(source, visited, parent, dist, u, level, op);
    assert forall|x: int| 0 <= x < 24 && #[trigger] visited2[x] implies queue2.contains(x as usize) by {
        if x == n {
            assert(queue2[queue.len() as int] == n as usize);
        } else {
            assert(visited[x]);
            let k = choose|k: int| 0 <= k < queue.len() && queue[k] == x as usize;
            assert(queue2[k] == x as usize);
        }
    }
    assert forall|i: int| 0 <= i < queue2.len() implies #[trigger] queue2[i] < 24
        && visited2[queue2[i] as int] by {
        if i < queue.len() {
            assert(queue2[i] == queue[i]);
        }
    }
    assert forall|i: int, j: int| 0 <= i <= j < queue2.len() implies dist2[#[trigger] queue2[i] as int]
        <= dist2[#[trigger] queue2[j] as int] by {
        if j < queue.len() {
            assert(queue2[i] == queue[i] && queue2[j] == queue[j]);
            assert(queue[i] as int != n && queue[j] as int != n);
        } else if i < queue.len() {
            assert(queue2[i] == queue[i]);
            assert(queue[i] as int != n);
            if i >= head {
                assert(dist[queue[i] as int] <= level + 1);
            } else {
                assert(dist[queue[i] as int] <= dist[queue[head - 1] as int]);
            }
        }
    }
    assert forall|i: int| head <= i < queue2.len() implies dist2[#[trigger] queue2[i] as int] <= level
        + 1 by {
        if i < queue.len() {
            assert(queue2[i] == queue[i]);
            assert(queue[i] as int != n);
        }
    }
    assert(dist2[queue2[head - 1] as int] == level) by {
        assert(queue2[head - 1] == queue[head - 1]);
        assert(queue[head - 1] as int != n);
    }
    assert forall|i: int, o: PlrOp| 0 <= i < head - 1 implies #[trigger] visited2[triad_index(
        plr(node_at(source, queue2[i] as int), o),
    )] by {
        assert(queue2[i] == queue[i]);
        assert(visited[triad_index(plr(node_at(source, queue[i] as int), o))]);
    }
    assert forall|i: int| 0 <= i < head implies #[trigger] queue2[i] != target_idx by {
        assert(queue2[i] == queue[i]);
    }
    assert forall|c: Chord| #[trigger] reachable_within(source, c, level) implies visited2[triad_index(
        c,
    )] by {
        assert(visited[triad_index(c)]);
    }
}

/// Checking a neighbour that was already visited changes nothing.
proof fn lemma_search_expanded(
    source: Chord,
    target_idx: int,
    visited: Seq<bool>,
    parent: Seq<Option<(usize, PlrOp)>>,
    queue: Seq<usize>,
    dist: Seq<int>,
    level: int,
    head: int,
)
    requires
        search_state(source, target_idx, visited, parent, queue, dist, level, head, head - 1),
        head > 0,
        forall|op: PlrOp|
            #[trigger] visited[triad_index(plr(node_at(source, queue[head - 1] as int), op))],
    ensures
        search_state(source, target_idx, visited, parent, queue, dist, level, head, head),
{
    reveal(search_state);
}

/// The queue cannot run out before the position of `goal` is taken off it:
/// the visited triads, with the start standing in at its own position, would
/// then be closed under P, L and R, so `goal` would be among them.
proof fn lemma_search_reaches_goal(
    source: Chord,
    goal: Chord,
    visited: Seq<bool>,
    parent: Seq<Option<(usize, PlrOp)>>,
    queue: Seq<usize>,
    dist: Seq<int>,
    level: int,
    head: int,
)
    requires
        goal.wf(),
        triad_index(goal) != triad_index(source),
        search_state(
            source,
            triad_index(goal),
            visited,
            parent,
            queue,
            dist,
            level,
            head,
            head,
        ),
    ensures
        head < queue.len(),
{
    reveal(search_state);
    if head >= queue.len() {
        let si = triad_index(source);
        let reached = |c: Chord|
            c == source || (c.wf() && triad_index(c) != si && visited[triad_index(c)]);
        assert forall|c: Chord, op: PlrOp| #![trigger reached(c), plr(c, op)] reached(c) implies (
        reached(plr(c, op)) || triad_index(plr(c, op)) == si) by {
            let ci = if c == source {
                si
            } else {
                triad_index(c)
            };
            if c != source {
                lemma_triad_index(c);
            }
            assert(node_at(source, ci) == c);
            assert(visited[ci]);
            let k = choose|k: int| 0 <= k < queue.len() && queue[k] == ci as usize;
            assert(visited[triad_index(plr(node_at(source, queue[k] as int), op))]);
            lemma_plr_wf(c, op);
        }
        lemma_triad_at(si);
        let x = triad_at(si);
        let covered = |c: Chord| reached(c) || c == x;
        if !source.wf() {
            assert(source.quality == Quality::Major && 12 <= source.root < 24);
            lemma_alias_neighbours(reached, source);
        } else {
            lemma_triad_index(source);
        }
        assert(closed_under_plr(covered)) by {
            assert forall|c: Chord, op: PlrOp| #![trigger covered(c), plr(c, op)]
                c.wf() && covered(c) implies covered(plr(c, op)) by {
                lemma_plr_wf(c, op);
                lemma_triad_index(plr(c, op));
                if reached(c) {
                    assert(reached(plr(c, op)) || triad_index(plr(c, op)) == si);
                } else {
                    assert(reached(plr(x, op)));
                }
            }
        }
        lemma_closed_contains_all(covered, x);
        assert(covered(goal));
        lemma_triad_index(goal);
        assert(visited[triad_index(goal)]);
        let k = choose|k: int| 0 <= k < queue.len() && queue[k] == triad_index(goal) as usize;
        assert(queue[k] != triad_index(goal));
    }
}

/// What the finished search tells about the triads it visited.
proof fn lemma_search_tree(
    source: Chord,
    target_idx: int,
    visited: Seq<bool>,
    parent: Seq<Option<(usize, PlrOp)>>,
    queue: Seq<usize>,
    dist: Seq<int>,
    level: int,
    head: int,
)
    requires
        search_state(source, target_idx, visited, parent, queue, dist, level, head, head),
        head < queue.len(),
        queue[head] == target_idx,
    ensures
        search_tree(source, visited, parent, dist),
        visited.len() == 24,
        parent.len() == 24,
        dist.len() == 24,
        0 <= target_idx < 24,
        visited[target_idx],
{
    reveal(search_state);
}

/// A path as long as the fewest steps that reach `goal` without coming back
/// to the start is shortest among such paths, and shortest of all when the
/// start has its root in 0-11.
proof fn lemma_no_shorter_path(source: Chord, goal: Chord, path: Seq<PlrOp>, d: int)
    requires
        path.len() == d,
        d > 0 ==> !reachable_within(source, goal, d - 1),
    ensures
        forall|ops: Seq<PlrOp>|
            #![trigger apply_ops(source, ops)]
            ops.len() < path.len() && avoids_start(source, ops) ==> apply_ops(source, ops) != goal,
        source.wf() ==> forall|ops: Seq<PlrOp>|
            #![trigger apply_ops(source, ops)]
            ops.len() < path.len() ==> apply_ops(source, ops) != goal,
{
    assert forall|ops: Seq<PlrOp>| #![trigger apply_ops(source, ops)]
        ops.len() < path.len() && avoids_start(source, ops) implies apply_ops(source, ops) != goal by {
        if apply_ops(source, ops) == goal {
            assert(reachable_within(source, goal, d - 1));
        }
    }
    if source.wf() {
        assert forall|ops: Seq<PlrOp>| #![trigger apply_ops(source, ops)]
            ops.len() < path.len() implies apply_ops(source, ops) != goal by {
            if apply_ops(source, ops) == goal {
                lemma_shortcut(source, ops);
                lemma_reach_more(source, goal, ops.len() as int, d - 1);
            }
        }
    }
}

/// Among the paths as long as `p` that take `s` to `t` without coming back
/// to the position of `s`, `p` comes first in dictionary order, P before L
/// before R.
pub open spec fn first_avoiding_path(s: Chord, t: Chord, p: Seq<PlrOp>) -> bool {
    forall|ops: Seq<PlrOp>|
        #![trigger apply_ops(s, ops)]
        ops.len() == p.len() && avoids_start(s, ops) && apply_ops(s, ops) == t ==> ops == p
            || lex_before(p, ops)
}

/// Among the paths as long as `p` that take `s` to `t`, `p` comes first in
/// dictionary order, P before L before R.
pub open spec fn first_path(s: Chord, t: Chord, p: Seq<PlrOp>) -> bool {
    forall|ops: Seq<PlrOp>|
        #![trigger apply_ops(s, ops)]
        ops.len() == p.len() && apply_ops(s, ops) == t ==> ops == p || lex_before(p, ops)
}

/// From a start with its root in 0-11, a path as long as the fewest steps
/// that reach `goal` without coming back to the start, and first in
/// dictionary order among those that avoid the start, is first among all
/// paths of its length to `goal`.
proof fn lemma_first_path(source: Chord, goal: Chord, p: Seq<PlrOp>, d: int)
    requires
        source.wf(),
        p.len() == d,
        d > 0 ==> !reachable_within(source, goal, d - 1),
        first_avoiding_path(source, goal, p),
    ensures
        first_path(source, goal, p),
{
    assert forall|ops: Seq<PlrOp>| #![trigger apply_ops(source, ops)]
        ops.len() == p.len() && apply_ops(source, ops) == goal implies ops == p || lex_before(p, ops) by {
        if !avoids_start(source, ops) {
            lemma_shortcut(source, ops);
        }
    }
}

/// A path that avoids `bad` still avoids it after one more step that lands
/// away from `bad`.
proof fn lemma_avoids_push(s: Chord, p: Seq<PlrOp>, o: PlrOp, bad: int)
    requires
        avoids_position(s, p, bad),
        triad_index(plr(apply_ops(s, p), o)) != bad,
    ensures
        avoids_position(s, p.push(o), bad),
        apply_ops(s, p.push(o)) == plr(apply_ops(s, p), o),
{
    let q = p.push(o);
    assert(q.drop_last() =~= p);
    assert forall|i: int| 1 <= i <= q.len() implies triad_index(
        #[trigger] apply_ops(s, q.take(i)),
    ) != bad by {
        if i <= p.len() {
            assert(q.take(i) =~= p.take(i));
        } else {
            assert(q.take(i) =~= q);
        }
    }
}

/// A path that avoids `bad` avoids it without its last step too.
proof fn lemma_avoids_drop_last(s: Chord, ops: Seq<PlrOp>, bad: int)
    requires
        avoids_position(s, ops, bad),
        ops.len() > 0,
    ensures
        avoids_position(s, ops.drop_last(), bad),
{
    let q = ops.drop_last();
    assert forall|i: int| 1 <= i <= q.len() implies triad_index(
        #[trigger] apply_ops(s, q.take(i)),
    ) != bad by {
        assert(q.take(i) =~= ops.take(i));
    }
}

/// `p` is the path the search keeps for position `x`: it takes the start to
/// the triad there in `d` steps without coming back to the start, and comes
/// first in dictionary order among such paths.
spec fn path_fits(source: Chord, x: int, p: Seq<PlrOp>, d: int) -> bool {
    &&& apply_ops(source, p) == node_at(source, x)
    &&& p.len() == d
    &&& avoids_start(source, p)
    &&& first_avoiding_path(source, node_at(source, x), p)
}

/// The step recorded for position `x` extends the path kept for its parent,
/// which stands before place `head` in the queue; when it stands just before,
/// the step's operation comes before the `g`-th of P, L, R.
spec fn tree_step(
    par: Option<(usize, PlrOp)>,
    paths: Seq<Seq<PlrOp>>,
    queue: Seq<usize>,
    x: int,
    head: int,
    g: int,
) -> bool {
    match par {
        Some((p, o)) => paths[x] == paths[p as int].push(o) && exists|k: int|
            0 <= k < head && #[trigger] queue[k] == p && (k == head - 1 ==> op_rank(o) < g),
        None => false,
    }
}

/// The paths kept by the search: each visited position keeps the first, in
/// dictionary order, of the shortest paths to it that avoid the start;
/// positions at the same distance are queued in the order of their paths;
/// and each recorded step extends the path of a parent taken off the queue
/// earlier, or of the one being expanded by an operation before the `g`-th.
#[verifier::opaque]
spec fn paths_ordered(
    source: Chord,
    visited: Seq<bool>,
    parent: Seq<Option<(usize, PlrOp)>>,
    queue: Seq<usize>,
    dist: Seq<int>,
    paths: Seq<Seq<PlrOp>>,
    head: int,
    g: int,
) -> bool {
    &&& paths.len() == 24
    &&& paths[triad_index(source)] == Seq::<PlrOp>::empty()
    &&& forall|x: int|
        0 <= x < 24 && #[trigger] visited[x] ==> path_fits(source, x, paths[x], dist[x])
    &&& forall|i: int, j: int|
        #![trigger queue[i], queue[j]]
        0 <= i < j < queue.len() && dist[queue[i] as int] == dist[queue[j] as int] ==> lex_before(
            paths[queue[i] as int],
            paths[queue[j] as int],
        )
    &&& forall|x: int|
        0 <= x < 24 && #[trigger] visited[x] && x != triad_index(source) ==> tree_step(
            parent[x],
            paths,
            queue,
            x,
            head,
            g,
        )
}

/// At the start only the start is visited, with the empty path.
proof fn lemma_paths_start(source: Chord)
    requires
        0 <= triad_index(source) < 24,
    ensures
        paths_ordered(
            source,
            Seq::new(24, |i: int| i == triad_index(source)),
            Seq::new(24, |i: int| None),
            seq![triad_index(source) as usize],
            Seq::new(24, |i: int| 0int),
            Seq::new(24, |i: int| Seq::<PlrOp>::empty()),
            0,
            3,
        ),
{
    reveal(paths_ordered);
    let si = triad_index(source);
    let e = Seq::<PlrOp>::empty();
    assert(apply_ops(source, e) == source);
    assert(avoids_start(source, e));
    assert(node_at(source, si) == source);
    assert forall|ops: Seq<PlrOp>| #![trigger apply_ops(source, ops)]
        ops.len() == e.len() && avoids_start(source, ops) && apply_ops(source, ops) == source implies ops
        == e || lex_before(e, ops) by {
        assert(ops =~= e);
    }
    assert(path_fits(source, si, e, 0));
}

/// Moving on to a later operation, or to the next triad of the queue once all
/// three operations are done, keeps the paths ordered.
proof fn lemma_paths_advance(
    source: Chord,
    visited: Seq<bool>,
    parent: Seq<Option<(usize, PlrOp)>>,
    queue: Seq<usize>,
    dist: Seq<int>,
    paths: Seq<Seq<PlrOp>>,
    head: int,
    g: int,
    head2: int,
    g2: int,
)
    requires
        paths_ordered(source, visited, parent, queue, dist, paths, head, g),
        (head2 == head && g <= g2) || (head2 == head + 1 && g >= 3),
    ensures
        paths_ordered(source, visited, parent, queue, dist, paths, head2, g2),
{
    reveal(paths_ordered);
    assert forall|x: int|
        0 <= x < 24 && #[trigger] visited[x] && x != triad_index(source) implies tree_step(
        parent[x],
        paths,
        queue,
        x,
        head2,
        g2,
    ) by {
        assert(tree_step(parent[x], paths, queue, x, head, g));
        let (p, o) = parent[x].unwrap();
        let k = choose|k: int|
            0 <= k < head && #[trigger] queue[k] == p && (k == head - 1 ==> op_rank(o) < g);
        assert(queue[k] == p);
    }
}

/// What the kept paths say of one visited position.
proof fn lemma_paths_facts(
    source: Chord,
    visited: Seq<bool>,
    parent: Seq<Option<(usize, PlrOp)>>,
    queue: Seq<usize>,
    dist: Seq<int>,
    paths: Seq<Seq<PlrOp>>,
    head: int,
    g: int,
    x: int,
)
    requires
        paths_ordered(source, visited, parent, queue, dist, paths, head, g),
        0 <= x < 24,
        visited[x],
    ensures
        paths.len() == 24,
        paths[triad_index(source)] == Seq::<PlrOp>::empty(),
        path_fits(source, x, paths[x], dist[x]),
        x != triad_index(source) ==> parent[x] is Some && paths[x] == paths[parent[x].unwrap().0 as int].push(
            parent[x].unwrap().1,
        ),
{
    reveal(paths_ordered);
    if x != triad_index(source) {
        assert(tree_step(parent[x], paths, queue, x, head, g));
    }
}

/// A path to a newly found triad as short as any and avoiding the start is
/// no earlier in dictionary order than the path kept for the triad being
/// expanded followed by the step that found it.
#[verifier::rlimit(40)]
proof fn lemma_path_beats(
    source: Chord,
    target_idx: int,
    visited: Seq<bool>,
    parent: Seq<Option<(usize, PlrOp)>>,
    queue: Seq<usize>,
    dist: Seq<int>,
    paths: Seq<Seq<PlrOp>>,
    level: int,
    head: int,
    g: int,
    op: PlrOp,
    ops: Seq<PlrOp>,
)
    requires
        search_state(source, target_idx, visited, parent, queue, dist, level, head, head - 1),
        paths_ordered(source, visited, parent, queue, dist, paths, head, g),
        head > 0,
        op_rank(op) == g,
        forall|o: PlrOp|
            op_rank(o) < g ==> #[trigger] visited[triad_index(
                plr(node_at(source, queue[head - 1] as int), o),
            )],
        !visited[triad_index(plr(node_at(source, queue[head - 1] as int), op))],
        ops.len() == level + 1,
        avoids_start(source, ops),
        apply_ops(source, ops) == plr(node_at(source, queue[head - 1] as int), op),
    ensures
        ops == paths[queue[head - 1] as int].push(op) || lex_before(
            paths[queue[head - 1] as int].push(op),
            ops,
        ),
{
    reveal(search_state);
    reveal(paths_ordered);
    reveal(distances_exact);
    let u = queue[head - 1] as int;
    let cur = node_at(source, u);
    let next = plr(cur, op);
    let n = triad_index(next);
    let si = triad_index(source);
    assert(visited[u]);
    assert(n != si);
    let front = ops.drop_last();
    let o = ops.last();
    assert(ops =~= front.push(o));
    let w = apply_ops(source, front);
    assert(plr(w, o) == next);
    lemma_avoids_drop_last(source, ops, si);
    assert(reachable_within(source, w, level));
    let wi = triad_index(w);
    assert(visited[wi]);
    lemma_reach_node(source, w, level);
    assert(path_fits(source, wi, paths[wi], dist[wi]));
    if dist[wi] > level {
        lemma_reach_more(source, w, level, dist[wi] - 1);
        assert(false);
    }
    if dist[wi] < level {
        lemma_reach_step(source, w, dist[wi], o);
        lemma_reach_more(source, next, dist[wi] + 1, level);
        assert(visited[n]);
        assert(false);
    }
    assert(queue.contains(wi as usize));
    let k = choose|k: int| 0 <= k < queue.len() && queue[k] == wi as usize;
    if k < head - 1 {
        assert(visited[triad_index(plr(node_at(source, queue[k] as int), o))]);
        assert(false);
    }
    assert(front == paths[wi] || lex_before(paths[wi], front));
    let pu = paths[u];
    if k == head - 1 {
        assert(wi == u);
        if op_rank(o) < g {
            assert(visited[triad_index(plr(cur, o))]);
            assert(false);
        }
        if front == pu {
            if op_rank(o) == g {
                assert(o == op);
            } else {
                lemma_lex_last(pu, op, o);
            }
        } else {
            lemma_lex_push(pu, front, op, o);
        }
    } else {
        assert(dist[queue[head - 1] as int] == dist[queue[k] as int]);
        assert(lex_before(pu, paths[wi]));
        if front != paths[wi] {
            lemma_lex_trans(pu, paths[wi], front);
        }
        lemma_lex_push(pu, front, op, o);
    }
}

/// What the search state says while the triad last taken off the queue is
/// being expanded.
proof fn lemma_expand_facts(
    source: Chord,
    target_idx: int,
    visited: Seq<bool>,
    parent: Seq<Option<(usize, PlrOp)>>,
    queue: Seq<usize>,
    dist: Seq<int>,
    level: int,
    head: int,
)
    requires
        search_state(source, target_idx, visited, parent, queue, dist, level, head, head - 1),
        head > 0,
    ensures
        0 <= triad_index(source) < 24,
        visited.len() == 24,
        parent.len() == 24,
        dist.len() == 24,
        head <= queue.len(),
        forall|i: int| 0 <= i < queue.len() ==> #[trigger] queue[i] < 24 && visited[queue[i] as int],
        visited[triad_index(source)],
        dist[triad_index(source)] == 0,
        level >= 0,
        dist[queue[head - 1] as int] == level,
        parents_recorded(source, visited, parent, dist),
{
    reveal(search_state);
}

/// The path kept for a newly found triad: the path of the triad being
/// expanded followed by the step that found it.
proof fn lemma_new_path_fits(
    source: Chord,
    target_idx: int,
    visited: Seq<bool>,
    parent: Seq<Option<(usize, PlrOp)>>,
    queue: Seq<usize>,
    dist: Seq<int>,
    paths: Seq<Seq<PlrOp>>,
    level: int,
    head: int,
    g: int,
    op: PlrOp,
)
    requires
        search_state(source, target_idx, visited, parent, queue, dist, level, head, head - 1),
        paths_ordered(source, visited, parent, queue, dist, paths, head, g),
        head > 0,
        op_rank(op) == g,
        forall|o: PlrOp|
            op_rank(o) < g ==> #[trigger] visited[triad_index(
                plr(node_at(source, queue[head - 1] as int), o),
            )],
        !visited[triad_index(plr(node_at(source, queue[head - 1] as int), op))],
    ensures
        path_fits(
            source,
            triad_index(plr(node_at(source, queue[head - 1] as int), op)),
            paths[queue[head - 1] as int].push(op),
            level + 1,
        ),
{
    lemma_expand_facts(source, target_idx, visited, parent, queue, dist, level, head);
    let ui = queue[head - 1] as int;
    let cur = node_at(source, ui);
    let next = plr(cur, op);
    let n = triad_index(next);
    let si = triad_index(source);
    assert(visited[ui]);
    assert(n != si);
    lemma_plr_wf(cur, op);
    lemma_triad_index(next);
    assert(node_at(source, n) == next);
    let pn = paths[ui].push(op);
    assert(path_fits(source, ui, paths[ui], dist[ui])) by {
        reveal(paths_ordered);
    }
    lemma_avoids_push(source, paths[ui], op, si);
    assert forall|ops: Seq<PlrOp>| #![trigger apply_ops(source, ops)]
        ops.len() == pn.len() && avoids_start(source, ops) && apply_ops(source, ops) == next implies ops
        == pn || lex_before(pn, ops) by {
        lemma_path_beats(
            source,
            target_idx,
            visited,
            parent,
            queue,
            dist,
            paths,
            level,
            head,
            g,
            op,
            ops,
        );
    }
}

/// Queuing the new triad at the end keeps same-distance triads in the order
/// of their paths: every queued triad one step further than the expanded one
/// was found from an earlier triad, or from this one by an earlier operation.
#[verifier::spinoff_prover]
#[verifier::rlimit(40)]
proof fn lemma_order_push(
    source: Chord,
    visited: Seq<bool>,
    parent: Seq<Option<(usize, PlrOp)>>,
    queue: Seq<usize>,
    dist: Seq<int>,
    paths: Seq<Seq<PlrOp>>,
    level: int,
    head: int,
    g: int,
    op: PlrOp,
    n: int,
)
    requires
        paths_ordered(source, visited, parent, queue, dist, paths, head, g),
        parents_recorded(source, visited, parent, dist),
        0 <= triad_index(source) < 24,
        visited.len() == 24,
        dist.len() == 24,
        0 < head <= queue.len(),
        forall|i: int| 0 <= i < queue.len() ==> #[trigger] queue[i] < 24 && visited[queue[i] as int],
        dist[triad_index(source)] == 0,
        level >= 0,
        dist[queue[head - 1] as int] == level,
        op_rank(op) == g,
        0 <= n < 24,
        !visited[n],
    ensures
        ({
            let queue2 = queue.push(n as usize);
            let dist2 = dist.update(n, level + 1);
            let paths2 = paths.update(n, paths[queue[head - 1] as int].push(op));
            forall|i: int, j: int|
                #![trigger queue2[i], queue2[j]]
                0 <= i < j < queue2.len() && dist2[queue2[i] as int] == dist2[queue2[j] as int]
                    ==> lex_before(paths2[queue2[i] as int], paths2[queue2[j] as int])
        }),
{
    reveal(paths_ordered);
    reveal(parents_recorded);
    let ui = queue[head - 1] as int;
    let si = triad_index(source);
    let queue2 = queue.push(n as usize);
    let dist2 = dist.update(n, level + 1);
    let paths2 = paths.update(n, paths[ui].push(op));
    assert(visited[ui]);
    assert forall|i: int, j: int|
        #![trigger queue2[i], queue2[j]]
        0 <= i < j < queue2.len() && dist2[queue2[i] as int] == dist2[queue2[j] as int] implies lex_before(
        paths2[queue2[i] as int],
        paths2[queue2[j] as int],
    ) by {
        assert(queue2[i] == queue[i]);
        assert(visited[queue[i] as int]);
        if j < queue.len() {
            assert(queue2[j] == queue[j]);
            assert(visited[queue[j] as int]);
            assert(dist[queue[i] as int] == dist[queue[j] as int]);
        } else {
            let xi = queue[i] as int;
            assert(queue2[j] as int == n);
            assert(dist[xi] == level + 1);
            assert(xi != si);
            assert(tree_step(parent[xi], paths, queue, xi, head, g));
            assert(good_parent(source, parent[xi], visited, dist, xi));
            let (p, o) = parent[xi].unwrap();
            let k = choose|k: int|
                0 <= k < head && #[trigger] queue[k] == p && (k == head - 1 ==> op_rank(o) < g);
            assert(dist[p as int] == level);
            if k == head - 1 {
                lemma_lex_last(paths[ui], o, op);
            } else {
                assert(dist[queue[k] as int] == dist[queue[head - 1] as int]);
                assert(lex_before(paths[p as int], paths[ui]));
                lemma_lex_push(paths[p as int], paths[ui], o, op);
            }
        }
    }
}

/// The step recorded for the new triad comes from the triad being expanded;
/// the steps recorded before are unchanged.
#[verifier::spinoff_prover]
#[verifier::rlimit(40)]
proof fn lemma_steps_push(
    source: Chord,
    visited: Seq<bool>,
    parent: Seq<Option<(usize, PlrOp)>>,
    queue: Seq<usize>,
    dist: Seq<int>,
    paths: Seq<Seq<PlrOp>>,
    level: int,
    head: int,
    g: int,
    op: PlrOp,
    n: int,
)
    requires
        paths_ordered(source, visited, parent, queue, dist, paths, head, g),
        parents_recorded(source, visited, parent, dist),
        visited.len() == 24,
        parent.len() == 24,
        0 < head <= queue.len(),
        forall|i: int| 0 <= i < queue.len() ==> #[trigger] queue[i] < 24 && visited[queue[i] as int],
        op_rank(op) == g,
        0 <= n < 24,
        !visited[n],
    ensures
        ({
            let u = queue[head - 1];
            let visited2 = visited.update(n, true);
            let parent2 = parent.update(n, Some((u, op)));
            let queue2 = queue.push(n as usize);
            let paths2 = paths.update(n, paths[u as int].push(op));
            forall|x: int|
                0 <= x < 24 && #[trigger] visited2[x] && x != triad_index(source) ==> tree_step(
                    parent2[x],
                    paths2,
                    queue2,
                    x,
                    head,
                    g + 1,
                )
        }),
{
    reveal(paths_ordered);
    reveal(parents_recorded);
    let u = queue[head - 1];
    let ui = u as int;
    let visited2 = visited.update(n, true);
    let parent2 = parent.update(n, Some((u, op)));
    let queue2 = queue.push(n as usize);
    let paths2 = paths.update(n, paths[ui].push(op));
    assert(visited[ui]);
    assert forall|x: int|
        0 <= x < 24 && #[trigger] visited2[x] && x != triad_index(source) implies tree_step(
        parent2[x],
        paths2,
        queue2,
        x,
        head,
        g + 1,
    ) by {
        if x == n {
            assert(queue2[head - 1] == u);
        } else {
            assert(visited[x]);
            assert(tree_step(parent[x], paths, queue, x, head, g));
            assert(good_parent(source, parent[x], visited, dist, x));
            let (p, o) = parent[x].unwrap();
            let k = choose|k: int|
                0 <= k < head && #[trigger] queue[k] == p && (k == head - 1 ==> op_rank(o) < g);
            assert(visited[p as int]);
            assert(queue2[k] == p);
        }
    }
}

/// Visiting a new neighbour of the triad being expanded, with the `g`-th of
/// P, L, R, keeps the paths ordered: the new triad keeps the path of the
/// expanded triad followed by that step.
proof fn lemma_paths_visit(
    source: Chord,
    target_idx: int,
    visited: Seq<bool>,
    parent: Seq<Option<(usize, PlrOp)>>,
    queue: Seq<usize>,
    dist: Seq<int>,
    paths: Seq<Seq<PlrOp>>,
    level: int,
    head: int,
    g: int,
    op: PlrOp,
)
    requires
        search_state(source, target_idx, visited, parent, queue, dist, level, head, head - 1),
        paths_ordered(source, visited, parent, queue, dist, paths, head, g),
        head > 0,
        op_rank(op) == g,
        forall|o: PlrOp|
            op_rank(o) < g ==> #[trigger] visited[triad_index(
                plr(node_at(source, queue[head - 1] as int), o),
            )],
        !visited[triad_index(plr(node_at(source, queue[head - 1] as int), op))],
    ensures
        ({
            let u = queue[head - 1];
            let n = triad_index(plr(node_at(source, u as int), op));
            paths_ordered(
                source,
                visited.update(n, true),
                parent.update(n, Some((u, op))),
                queue.push(n as usize),
                dist.update(n, level + 1),
                paths.update(n, paths[u as int].push(op)),
                head,
                g + 1,
            )
        }),
{
    lemma_expand_facts(source, target_idx, visited, parent, queue, dist, level, head);
    let u = queue[head - 1];
    let ui = u as int;
    let cur = node_at(source, ui);
    let next = plr(cur, op);
    let n = triad_index(next);
    let si = triad_index(source);
    lemma_plr_wf(cur, op);
    lemma_triad_index(next);
    assert(n != si);
    lemma_new_path_fits(source, target_idx, visited, parent, queue, dist, paths, level, head, g, op);
    lemma_order_push(source, visited, parent, queue, dist, paths, level, head, g, op, n);
    lemma_steps_push(source, visited, parent, queue, dist, paths, level, head, g, op, n);
    reveal(paths_ordered);
    let visited2 = visited.update(n, true);
    let dist2 = dist.update(n, level + 1);
    let paths2 = paths.update(n, paths[ui].push(op));
    assert forall|x: int| 0 <= x < 24 && #[trigger] visited2[x] implies path_fits(
        source,
        x,
        paths2[x],
        dist2[x],
    ) by {
        if x != n {
            assert(visited[x]);
        }
    }
}

/// Navigate the neo-Riemannian torus.
///
/// The torus is the graph of triads connected by P, L, R edges.
/// This returns the shortest PLR path from source to target (BFS). Trying P,
/// L and R in that order from each triad, the search returns, of the shortest
/// paths, the first in dictionary order with P before L before R.
///
/// Triads are looked up by their position in the table of 24. A target with
/// no position there gives no path; a target whose root is outside 0-11 gets
/// a path to the triad at its position. A start whose root is outside 0-11
/// stands in for the triad at its position, so the search never steps onto
/// that position and takes only paths that avoid it.
pub fn torus_path(source: Chord, target: Chord) -> (path: Option<PlrSequence>)
    requires
        source == target || triad_index(source) < 24,
    ensures
        source == target ==> path is Some && path.unwrap()@.len() == 0,
        source != target ==> (path is Some <==> triad_index(target) < 24),
        path is Some ==> crate::sequence::ops_fit(source, path.unwrap()@),
        source != target && triad_index(target) == triad_index(source) ==> path.unwrap()@.len()
            == 0,
        source != target && path is Some && triad_index(target) != triad_index(source) ==> {
            let p = path.unwrap()@;
            let goal = triad_at(triad_index(target));
            &&& apply_ops(source, p) == goal
            &&& avoids_start(source, p)
            &&& forall|ops: Seq<PlrOp>|
                #![trigger apply_ops(source, ops)]
                ops.len() < p.len() && avoids_start(source, ops) ==> apply_ops(source, ops) != goal
            &&& first_avoiding_path(source, goal, p)
        },
        source.wf() && target.wf() ==> path is Some && apply_ops(source, path.unwrap()@) == target,
        source.wf() && target.wf() ==> forall|ops: Seq<PlrOp>|
            #![trigger apply_ops(source, ops)]
            ops.len() < path.unwrap()@.len() ==> apply_ops(source, ops) != target,
        source.wf() && target.wf() ==> first_path(source, target, path.unwrap()@),
{
    if source == target {
        let same = PlrSequence::identity();
        proof {
            assert forall|ops: Seq<PlrOp>| #![trigger apply_ops(source, ops)]
                ops.len() == same@.len() && apply_ops(source, ops) == target implies ops == same@
                || lex_before(same@, ops) by {
                assert(ops =~= same@);
            }
        }
        return Some(same);
    }
    let generators: [PlrOp; 3] = [PlrOp::P, PlrOp::L, PlrOp::R];
    assert(generators@ =~= seq![PlrOp::P, PlrOp::L, PlrOp::R]);
    let start_idx = chord_index(source);
    let target_idx = chord_index(target);
    let ghost goal = triad_at(target_idx as int);
    proof {
        if target_idx < 24 {
            lemma_triad_at(target_idx as int);
        }
    }
    let mut visited: Vec<bool> = Vec::new();
    let mut parent_op: Vec<Option<(usize, PlrOp)>> = Vec::new();
    while visited.len() < 24
        invariant
            visited@.len() <= 24,
            parent_op@.len() == visited@.len(),
            forall|i: int| 0 <= i < visited@.len() ==> !#[trigger] visited@[i],
            forall|i: int| 0 <= i < parent_op@.len() ==> #[trigger] parent_op@[i] is None,
        decreases 24 - visited@.len(),
    {
        visited.push(false);
        parent_op.push(None);
    }
    visited.set(start_idx, true);
    let mut queue: Vec<usize> = Vec::new();
    queue.push(start_idx);
    let mut head: usize = 0;
    let mut found = false;
    let ghost mut dist: Seq<int> = Seq::new(24, |i: int| 0int);
    let ghost mut level: int = 0;
    let ghost mut paths: Seq<Seq<PlrOp>> = Seq::new(24, |i: int| Seq::<PlrOp>::empty());
    proof {
        lemma_search_start(source, target_idx as int);
        lemma_paths_start(source);
        assert(visited@ =~= Seq::new(24, |i: int| i == triad_index(source)));
        assert(parent_op@ =~= Seq::new(24, |i: int| None));
        assert(queue@ =~= seq![triad_index(source) as usize]);
    }
    loop
        invariant_except_break
            !found,
        invariant
            start_idx == triad_index(source),
            start_idx < 24,
            target_idx == triad_index(target),
            target_idx < 24 ==> goal.wf() && triad_index(goal) == target_idx,
            generators@ == seq![PlrOp::P, PlrOp::L, PlrOp::R],
            search_state(
                source,
                target_idx as int,
                visited@,
                parent_op@,
                queue@,
                dist,
                level,
                head as int,
                head as int,
            ),
            paths_ordered(source, visited@, parent_op@, queue@, dist, paths, head as int, 3),
        ensures
            paths_ordered(source, visited@, parent_op@, queue@, dist, paths, head as int, 3),
            search_state(
                source,
                target_idx as int,
                visited@,
                parent_op@,
                queue@,
                dist,
                level,
                head as int,
                head as int,
            ),
            found ==> head < queue@.len() && queue@[head as int] == target_idx,
            !found ==> head >= queue@.len(),
        decreases 2 * (24 - queue@.len()) + (queue@.len() - head),
    {
        proof {
            lemma_search_bounds(
                source,
                target_idx as int,
                visited@,
                parent_op@,
                queue@,
                dist,
                level,
                head as int,
                head as int,
            );
        }
        if head >= queue.len() {
            break ;
        }
        let idx = queue[head];
        if idx == target_idx {
            found = true;
            break ;
        }
        proof {
            lemma_search_take(
                source,
                target_idx as int,
                visited@,
                parent_op@,
                queue@,
                dist,
                level,
                head as int,
            );
            lemma_paths_advance(
                source,
                visited@,
                parent_op@,
                queue@,
                dist,
                paths,
                head as int,
                3,
                head + 1,
                0,
            );
            level = dist[idx as int];
        }
        let ghost queue_len_before = queue@.len();
        head = head + 1;
        let current = if idx == start_idx {
            source
        } else {
            chord_at(idx)
        };
        let mut g: usize = 0;
        while g < 3
            invariant
                0 <= g <= 3,
                start_idx == triad_index(source),
                start_idx < 24,
                target_idx == triad_index(target),
                target_idx < 24 ==> goal.wf() && triad_index(goal) == target_idx,
                generators@ == seq![PlrOp::P, PlrOp::L, PlrOp::R],
                0 < head <= queue@.len(),
                queue@.len() >= queue_len_before,
                idx == queue@[head - 1],
                idx < 24,
                current == node_at(source, idx as int),
                current.root < 24,
                search_state(
                    source,
                    target_idx as int,
                    visited@,
                    parent_op@,
                    queue@,
                    dist,
                    level,
                    head as int,
                    head - 1,
                ),
                paths_ordered(source, visited@, parent_op@, queue@, dist, paths, head as int, g as int),
                forall|o: PlrOp|
                    op_rank(o) < g ==> #[trigger] visited@[triad_index(plr(current, o))],
            decreases 3 - g,
        {
            let op = generators[g];
            proof {
                assert(op_rank(op) == g) by {
                    if g == 0 {
                        assert(op == PlrOp::P);
                    } else if g == 1 {
                        assert(op == PlrOp::L);
                    } else {
                        assert(op == PlrOp::R);
                    }
                }
                lemma_plr_wf(current, op);
                lemma_triad_index(plr(current, op));
                lemma_search_bounds(
                    source,
                    target_idx as int,
                    visited@,
                    parent_op@,
                    queue@,
                    dist,
                    level,
                    head as int,
                    head - 1,
                );
            }
            let next = apply_plr(current, op);
            let next_idx = chord_index(next);
            if !visited[next_idx] {
                proof {
                    lemma_search_visit(
                        source,
                        target_idx as int,
                        visited@,
                        parent_op@,
                        queue@,
                        dist,
                        level,
                        head as int,
                        op,
                    );
                    lemma_paths_visit(
                        source,
                        target_idx as int,
                        visited@,
                        parent_op@,
                        queue@,
                        dist,
                        paths,
                        level,
                        head as int,
                        g as int,
                        op,
                    );
                    paths = paths.update(next_idx as int, paths[idx as int].push(op));
                    dist = dist.update(next_idx as int, level + 1);
                }
                visited.set(next_idx, true);
                parent_op.set(next_idx, Some((idx, op)));
                queue.push(next_idx);
            } else {
                proof {
                    lemma_paths_advance(
                        source,
                        visited@,
                        parent_op@,
                        queue@,
                        dist,
                        paths,
                        head as int,
                        g as int,
                        head as int,
                        g + 1,
                    );
                }
            }
            g = g + 1;
        }
        proof {
            assert forall|op: PlrOp| #[trigger] visited@[triad_index(
                plr(node_at(source, queue@[head - 1] as int), op),
            )] by {
                assert(op_rank(op) < 3);
            }
            lemma_search_expanded(
                source,
                target_idx as int,
                visited@,
                parent_op@,
                queue@,
                dist,
                level,
                head as int,
            );
            lemma_search_bounds(
                source,
                target_idx as int,
                visited@,
                parent_op@,
                queue@,
                dist,
                level,
                head as int,
                head as int,
            );
        }
    }
    if !found {
        proof {
            if target_idx < 24 {
                assert(target_idx != start_idx) by {
                    reveal(search_state);
                    assert(queue@[0] == start_idx);
                }
                lemma_search_reaches_goal(
                    source,
                    goal,
                    visited@,
                    parent_op@,
                    queue@,
                    dist,
                    level,
                    head as int,
                );
            }
        }
        return None;
    }
    proof {
        lemma_search_tree(
            source,
            target_idx as int,
            visited@,
            parent_op@,
            queue@,
            dist,
            level,
            head as int,
        );
    }
    // Reconstruct path
    let mut ops: Vec<PlrOp> = Vec::new();
    let mut idx = target_idx;
    let ghost reached = node_at(source, target_idx as int);
    proof {
        assert(ops@.reverse() =~= Seq::<PlrOp>::empty());
        lemma_tree_facts(source, visited@, parent_op@, dist, target_idx as int);
    }
    loop
        invariant
            search_tree(source, visited@, parent_op@, dist),
            start_idx == triad_index(source),
            reached == node_at(source, target_idx as int),
            idx < 24,
            visited@[idx as int],
            dist[idx as int] >= 0,
            apply_ops(node_at(source, idx as int), ops@.reverse()) == reached,
            avoids_position(node_at(source, idx as int), ops@.reverse(), start_idx as int),
            ops@.len() + dist[idx as int] == dist[target_idx as int],
            paths_ordered(source, visited@, parent_op@, queue@, dist, paths, head as int, 3),
            paths[target_idx as int] == paths[idx as int] + ops@.reverse(),
        ensures
            paths[target_idx as int] == ops@.reverse(),
            idx == start_idx,
            apply_ops(source, ops@.reverse()) == reached,
            avoids_start(source, ops@.reverse()),
            ops@.len() == dist[target_idx as int],
        decreases dist[idx as int],
    {
        proof {
            lemma_tree_facts(source, visited@, parent_op@, dist, idx as int);
        }
        match parent_op[idx] {
            Some((p, op)) => {
                proof {
                    lemma_tree_facts(source, visited@, parent_op@, dist, p as int);
                    lemma_paths_facts(
                        source,
                        visited@,
                        parent_op@,
                        queue@,
                        dist,
                        paths,
                        head as int,
                        3,
                        idx as int,
                    );
                    assert(ops@.push(op).reverse() =~= seq![op] + ops@.reverse());
                    assert(paths[idx as int] + ops@.reverse() =~= paths[p as int] + ops@.push(
                        op,
                    ).reverse());
                    crate::sequence::lemma_apply_ops_prepend(
                        node_at(source, p as int),
                        op,
                        ops@.reverse(),
                    );
                    lemma_avoids_prepend(
                        node_at(source, p as int),
                        op,
                        ops@.reverse(),
                        start_idx as int,
                    );
                }
                ops.push(op);
                idx = p;
            },
            None => {
                proof {
                    lemma_paths_facts(
                        source,
                        visited@,
                        parent_op@,
                        queue@,
                        dist,
                        paths,
                        head as int,
                        3,
                        idx as int,
                    );
                    assert(paths[idx as int] + ops@.reverse() =~= ops@.reverse());
                }
                break ;
            },
        }
    }
    let forward = reversed_ops(&ops);
    proof {
        lemma_tree_facts(source, visited@, parent_op@, dist, target_idx as int);
        lemma_no_shorter_path(source, reached, forward@, dist[target_idx as int]);
        lemma_paths_facts(
            source,
            visited@,
            parent_op@,
            queue@,
            dist,
            paths,
            head as int,
            3,
            target_idx as int,
        );
        assert(forward@ == paths[target_idx as int]);
        let d = dist[target_idx as int];
        if target_idx != start_idx {
            assert(reached == goal);
            assert(reachable_within(source, goal, d));
        } else {
            assert(d == 0);
        }
        if source.wf() && target.wf() {
            lemma_triad_index(target);
            lemma_triad_index(source);
            assert(goal == target);
            lemma_first_path(source, target, forward@, d);
        }
        if forward@.len() > 0 {
            assert(source.root < 24);
        }
    }
    Some(PlrSequence::from_ops(forward.as_slice()))
}

} // verus!
