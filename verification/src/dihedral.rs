//! The relations that make the PLR group dihedral of order 24: L and R are
//! involutions, LR has order twelve, and P is a word in L and R.
use crate::chord::{lemma_mod12_shift, lemma_mod12_small, Chord, Quality};
use crate::plr::{plr, PlrOp};
use crate::sequence::{apply_ops, lemma_apply_ops_concat, lemma_apply_ops_prepend};
use vstd::prelude::*;

verus! {

/// L then R, repeated `k` times.
pub open spec fn lr_repeated(k: nat) -> Seq<PlrOp>
    decreases k,
{
    if k == 0 {
        Seq::empty()
    } else {
        lr_repeated((k - 1) as nat) + seq![PlrOp::L, PlrOp::R]
    }
}

/// How far `k` rounds of L then R move the root of a triad of quality `q`:
/// a fifth up per round for a major triad, a fourth up for a minor one.
pub open spec fn lr_shift(q: Quality, k: int) -> int {
    match q {
        Quality::Major => 7 * k,
        Quality::Minor => 5 * k,
    }
}

/// One round of L then R transposes a triad, keeping its quality.
proof fn lemma_lr_once(c: Chord)
    requires
        c.wf(),
    ensures
        apply_ops(c, seq![PlrOp::L, PlrOp::R]) == (Chord {
            root: ((c.root + lr_shift(c.quality, 1)) % 12) as u8,
            quality: c.quality,
        }),
{
    lemma_apply_ops_prepend(c, PlrOp::L, seq![PlrOp::R]);
    assert(seq![PlrOp::L] + seq![PlrOp::R] =~= seq![PlrOp::L, PlrOp::R]);
    let d = plr(c, PlrOp::L);
    lemma_apply_ops_prepend(d, PlrOp::R, Seq::<PlrOp>::empty());
    assert(seq![PlrOp::R] + Seq::<PlrOp>::empty() =~= seq![PlrOp::R]);
    let r = c.root as int;
    lemma_mod12_small(r + 4);
    lemma_mod12_small(r + 8);
    lemma_mod12_small(r + 7);
    lemma_mod12_small(r + 5);
    lemma_mod12_small((r + 4) % 12 + 3);
    lemma_mod12_small((r + 8) % 12 + 9);
    lemma_mod12_shift(r + 4, 3);
    lemma_mod12_shift(r + 8, 9);
    lemma_mod12_shift(r + 5, 12);
    assert((r + 17) % 12 == (r + 5) % 12) by {
        vstd::arithmetic::div_mod::lemma_mod_add_multiples_vanish(r + 5, 12);
    }
}

/// `k` rounds of L then R transpose a triad by `lr_shift(q, k)`.
pub proof fn lemma_lr_repeated(c: Chord, k: nat)
    requires
        c.wf(),
    ensures
        apply_ops(c, lr_repeated(k)) == (Chord {
            root: ((c.root + lr_shift(c.quality, k as int)) % 12) as u8,
            quality: c.quality,
        }),
    decreases k,
{
    if k == 0 {
        vstd::arithmetic::div_mod::lemma_small_mod(c.root as nat, 12);
    } else {
        let prev = (k - 1) as nat;
        lemma_lr_repeated(c, prev);
        lemma_apply_ops_concat(c, lr_repeated(prev), seq![PlrOp::L, PlrOp::R]);
        let mid = apply_ops(c, lr_repeated(prev));
        lemma_lr_once(mid);
        lemma_mod12_shift(c.root + lr_shift(c.quality, prev as int), lr_shift(c.quality, 1));
    }
}

/// LR has order twelve: twelve rounds of L then R return every triad to
/// itself, and from one to eleven rounds move every triad with its root in
/// 0-11.
pub proof fn law_lr_order_twelve(c: Chord, k: nat)
    requires
        c.wf(),
    ensures
        apply_ops(c, lr_repeated(12)) == c,
        0 < k < 12 ==> apply_ops(c, lr_repeated(k)) != c,
{
    lemma_lr_repeated(c, 12);
    lemma_lr_repeated(c, k);
    let r = c.root as int;
    vstd::arithmetic::div_mod::lemma_small_mod(c.root as nat, 12);
    match c.quality {
        Quality::Major => {
            assert((r + 84) % 12 == r % 12) by {
                vstd::arithmetic::div_mod::lemma_mod_multiples_vanish(7, r, 12);
            }
        },
        Quality::Minor => {
            assert((r + 60) % 12 == r % 12) by {
                vstd::arithmetic::div_mod::lemma_mod_multiples_vanish(5, r, 12);
            }
        },
    }
    if 0 < k < 12 {
        let s = lr_shift(c.quality, k as int);
        assert(s % 12 != 0) by {
            assert(k == 1 || k == 2 || k == 3 || k == 4 || k == 5 || k == 6 || k == 7 || k == 8
                || k == 9 || k == 10 || k == 11);
        }
        lemma_mod12_shift(s, r);
        if (r + s) % 12 == r {
            vstd::arithmetic::div_mod::lemma_sub_mod_noop(r + s, r, 12);
            assert(s % 12 == (r - r) % 12);
        }
    }
}

/// P is generated by L and R: R followed by three rounds of L then R acts as
/// P on every triad.
pub proof fn law_p_from_l_and_r(c: Chord)
    ensures
        apply_ops(
            c,
            seq![PlrOp::R, PlrOp::L, PlrOp::R, PlrOp::L, PlrOp::R, PlrOp::L, PlrOp::R],
        ) == plr(c, PlrOp::P),
{
    reveal_with_fuel(lr_repeated, 4);
    assert(seq![PlrOp::R] + lr_repeated(3) =~= seq![
        PlrOp::R,
        PlrOp::L,
        PlrOp::R,
        PlrOp::L,
        PlrOp::R,
        PlrOp::L,
        PlrOp::R,
    ]);
    lemma_apply_ops_prepend(c, PlrOp::R, lr_repeated(3));
    let d = plr(c, PlrOp::R);
    lemma_lr_repeated(d, 3);
    let r = c.root as int;
    lemma_mod12_shift(r, 9);
    lemma_mod12_shift(r, 3);
    lemma_mod12_shift(r + 9, 15);
    lemma_mod12_shift(r + 3, 21);
    assert((r + 24) % 12 == r % 12) by {
        vstd::arithmetic::div_mod::lemma_mod_multiples_vanish(2, r, 12);
    }
}

} // verus!
