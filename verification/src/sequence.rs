//! Sequences of PLR operations: the elements of the PLR group as words in
//! its generators.
use crate::chord::Chord;
use crate::plr::{apply_plr, law_plr_involution, lemma_plr_wf, lemma_wf_fits, plr, plr_fits, PlrOp};
use vstd::prelude::*;

verus! {

/// The triad reached from `c` by applying `ops` from first to last.
pub open spec fn apply_ops(c: Chord, ops: Seq<PlrOp>) -> Chord
    decreases ops.len(),
{
    if ops.len() == 0 {
        c
    } else {
        plr(apply_ops(c, ops.drop_last()), ops.last())
    }
}

/// The first step of `ops` from `c`, if there is one, keeps the root within a byte;
/// every later step starts from a triad with its root in 0-11.
pub open spec fn ops_fit(c: Chord, ops: Seq<PlrOp>) -> bool {
    ops.len() > 0 ==> plr_fits(c, ops[0])
}

/// A sequence of PLR operations forming a group element.
#[derive(Debug, Clone, PartialEq, Eq)]
pub struct PlrSequence {
    ops: Vec<PlrOp>,
}

impl View for PlrSequence {
    type V = Seq<PlrOp>;

    closed spec fn view(&self) -> Seq<PlrOp> {
        self.ops@
    }
}

impl PlrSequence {
    /// The identity element (empty sequence).
    pub fn identity() -> (s: Self)
        ensures
            s@ == Seq::<PlrOp>::empty(),
    {
        PlrSequence { ops: Vec::new() }
    }

    /// Create from a slice of PLR operations.
    pub fn from_ops(ops: &[PlrOp]) -> (s: Self)
        ensures
            s@ == ops@,
    {
        let mut v: Vec<PlrOp> = Vec::new();
        let mut i: usize = 0;
        while i < ops.len()
            invariant
                0 <= i <= ops@.len(),
                v@ == ops@.take(i as int),
            decreases ops@.len() - i,
        {
            v.push(ops[i]);
            i = i + 1;
            assert(v@ =~= ops@.take(i as int));
        }
        assert(v@ =~= ops@);
        PlrSequence { ops: v }
    }

    /// The operations, first to last.
    pub fn ops(&self) -> (ops: &Vec<PlrOp>)
        ensures
            ops@ == self@,
    {
        &self.ops
    }

    /// Compose two sequences: self followed by other.
    pub fn compose(&self, other: &PlrSequence) -> (s: PlrSequence)
        ensures
            s@ == self@ + other@,
    {
        let mut v: Vec<PlrOp> = Vec::new();
        let mut i: usize = 0;
        while i < self.ops.len()
            invariant
                0 <= i <= self.ops@.len(),
                v@ == self.ops@.take(i as int),
            decreases self.ops@.len() - i,
        {
            v.push(self.ops[i]);
            i = i + 1;
            assert(v@ =~= self.ops@.take(i as int));
        }
        assert(v@ =~= self.ops@);
        let mut j: usize = 0;
        while j < other.ops.len()
            invariant
                0 <= j <= other.ops@.len(),
                v@ == self.ops@ + other.ops@.take(j as int),
            decreases other.ops@.len() - j,
        {
            v.push(other.ops[j]);
            j = j + 1;
            assert(v@ =~= self.ops@ + other.ops@.take(j as int));
        }
        assert(v@ =~= self.ops@ + other.ops@);
        PlrSequence { ops: v }
    }

    /// Apply this sequence of PLR operations to a chord.
    pub fn apply(&self, chord: Chord) -> (result: Chord)
        requires
            ops_fit(chord, self@),
        ensures
            result == apply_ops(chord, self@),
    {
        let mut c = chord;
        let mut i: usize = 0;
        while i < self.ops.len()
            invariant
                0 <= i <= self.ops@.len(),
                c == apply_ops(chord, self.ops@.take(i as int)),
                i == 0 ==> c == chord,
                i > 0 ==> c.wf(),
                ops_fit(chord, self.ops@),
            decreases self.ops@.len() - i,
        {
            let op = self.ops[i];
            proof {
                if i > 0 {
                    lemma_wf_fits(c, op);
                }
                lemma_plr_wf(c, op);
                assert(self.ops@.take(i + 1).drop_last() =~= self.ops@.take(i as int));
            }
            c = apply_plr(c, op);
            i = i + 1;
        }
        assert(self.ops@.take(self.ops@.len() as int) =~= self.ops@);
        c
    }

    /// Compute the inverse sequence.
    ///
    /// For PLR group elements, each generator is its own inverse (P² = L² = R² = id),
    /// so the inverse of a sequence is the reverse sequence.
    pub fn inverse(&self) -> (s: PlrSequence)
        ensures
            s@ == self@.reverse(),
    {
        PlrSequence { ops: reversed_ops(&self.ops) }
    }

    /// Length of the operation sequence.
    pub fn len(&self) -> (n: usize)
        ensures
            n == self@.len(),
    {
        self.ops.len()
    }

    /// Whether this is the identity (empty sequence).
    pub fn is_empty(&self) -> (b: bool)
        ensures
            b == (self@.len() == 0),
    {
        self.ops.len() == 0
    }

    /// Alias for is_empty, since we have len.
    pub fn is_identity(&self) -> (b: bool)
        ensures
            b == (self@.len() == 0),
    {
        self.is_empty()
    }
}

/// The operations of `ops` in reverse order.
pub(crate) fn reversed_ops(ops: &Vec<PlrOp>) -> (r: Vec<PlrOp>)
    ensures
        r@ == ops@.reverse(),
{
    let mut v: Vec<PlrOp> = Vec::new();
    let mut i: usize = ops.len();
    while i > 0
        invariant
            0 <= i <= ops@.len(),
            v@ == ops@.skip(i as int).reverse(),
        decreases i,
    {
        i = i - 1;
        v.push(ops[i]);
        assert(v@ =~= ops@.skip(i as int).reverse());
    }
    assert(ops@.skip(0) =~= ops@);
    v
}

/// Applying `op` followed by `rest` to `c` is applying `rest` to the image of
/// `c` under `op`.
pub proof fn lemma_apply_ops_prepend(c: Chord, op: PlrOp, rest: Seq<PlrOp>)
    ensures
        apply_ops(c, seq![op] + rest) == apply_ops(plr(c, op), rest),
{
    lemma_apply_ops_concat(c, seq![op], rest);
    assert(seq![op].drop_last() =~= Seq::<PlrOp>::empty());
    assert(apply_ops(c, Seq::<PlrOp>::empty()) == c);
    assert(seq![op].last() == op);
}

/// Applying `a` and then `b` is applying their concatenation.
pub proof fn lemma_apply_ops_concat(c: Chord, a: Seq<PlrOp>, b: Seq<PlrOp>)
    ensures
        apply_ops(c, a + b) == apply_ops(apply_ops(c, a), b),
    decreases b.len(),
{
    if b.len() == 0 {
        assert(a + b =~= a);
    } else {
        assert((a + b).drop_last() =~= a + b.drop_last());
        lemma_apply_ops_concat(c, a, b.drop_last());
    }
}

/// Applying a non-empty sequence leaves a triad with its root in 0-11.
pub proof fn lemma_apply_ops_wf(c: Chord, ops: Seq<PlrOp>)
    requires
        c.wf() || ops.len() > 0,
    ensures
        apply_ops(c, ops).wf(),
{
    if ops.len() > 0 {
        lemma_plr_wf(apply_ops(c, ops.drop_last()), ops.last());
    }
}

/// The reverse of a sequence undoes it: applying `ops` and then its reverse
/// gives back any triad whose root is in 0-11.
pub proof fn lemma_apply_reverse_undoes(c: Chord, ops: Seq<PlrOp>)
    requires
        c.wf(),
    ensures
        apply_ops(apply_ops(c, ops), ops.reverse()) == c,
    decreases ops.len(),
{
    if ops.len() > 0 {
        let front = ops.drop_last();
        let op = ops.last();
        let mid = apply_ops(c, front);
        assert(ops.reverse() =~= seq![op] + front.reverse());
        lemma_apply_ops_prepend(apply_ops(c, ops), op, front.reverse());
        lemma_apply_ops_wf(c, front);
        law_plr_involution(mid, op);
        lemma_apply_reverse_undoes(c, front);
    }
}

/// Composition acts as the first sequence followed by the second.
pub proof fn law_compose_applies_in_order(a: PlrSequence, b: PlrSequence, c: Chord)
    ensures
        apply_ops(c, a@ + b@) == apply_ops(apply_ops(c, a@), b@),
{
    lemma_apply_ops_concat(c, a@, b@);
}

/// The inverse sequence undoes the sequence, on either side: for every triad
/// with its root in 0-11, `s.inverse()` applied after `s` and `s` applied after
/// `s.inverse()` both give the triad back.
pub proof fn law_inverse_undoes(s: PlrSequence, c: Chord)
    requires
        c.wf(),
    ensures
        apply_ops(apply_ops(c, s@), s@.reverse()) == c,
        apply_ops(apply_ops(c, s@.reverse()), s@) == c,
{
    lemma_apply_reverse_undoes(c, s@);
    lemma_apply_reverse_undoes(c, s@.reverse());
    assert(s@.reverse().reverse() =~= s@);
}

/// The identity sequence leaves every triad unchanged.
pub proof fn law_identity_fixes(c: Chord)
    ensures
        apply_ops(c, Seq::<PlrOp>::empty()) == c,
{
}

/// Composition is associative and the identity is neutral on either side.
pub proof fn law_compose_monoid(a: PlrSequence, b: PlrSequence, c: PlrSequence)
    ensures
        (a@ + b@) + c@ == a@ + (b@ + c@),
        Seq::<PlrOp>::empty() + a@ == a@,
        a@ + Seq::<PlrOp>::empty() == a@,
{
    assert((a@ + b@) + c@ =~= a@ + (b@ + c@));
    assert(Seq::<PlrOp>::empty() + a@ =~= a@);
    assert(a@ + Seq::<PlrOp>::empty() =~= a@);
}

/// Inverting twice gives back the sequence, and the inverse of a composition
/// is the composition of the inverses in the other order.
pub proof fn law_inverse_of_inverse_and_compose(a: PlrSequence, b: PlrSequence)
    ensures
        a@.reverse().reverse() == a@,
        (a@ + b@).reverse() == b@.reverse() + a@.reverse(),
{
    assert(a@.reverse().reverse() =~= a@);
    assert((a@ + b@).reverse() =~= b@.reverse() + a@.reverse());
}

/// The place of an operation in the order P, L, R.
pub open spec fn op_rank(op: PlrOp) -> int {
    match op {
        PlrOp::P => 0,
        PlrOp::L => 1,
        PlrOp::R => 2,
    }
}

/// `a` and `b` agree before position `k`, and at `k` the operation of `a`
/// comes earlier in the order P, L, R than the operation of `b`.
pub open spec fn first_below_at(a: Seq<PlrOp>, b: Seq<PlrOp>, k: int) -> bool {
    &&& 0 <= k < a.len()
    &&& k < b.len()
    &&& forall|i: int| 0 <= i < k ==> a[i] == b[i]
    &&& op_rank(a[k]) < op_rank(b[k])
}

/// `a` comes before `b` in dictionary order, P before L before R; the two
/// have the same length.
pub open spec fn lex_before(a: Seq<PlrOp>, b: Seq<PlrOp>) -> bool {
    a.len() == b.len() && exists|k: int| #[trigger] first_below_at(a, b, k)
}

/// Dictionary order is transitive.
pub proof fn lemma_lex_trans(a: Seq<PlrOp>, b: Seq<PlrOp>, c: Seq<PlrOp>)
    requires
        lex_before(a, b),
        lex_before(b, c),
    ensures
        lex_before(a, c),
{
    let k1 = choose|k: int| #[trigger] first_below_at(a, b, k);
    let k2 = choose|k: int| #[trigger] first_below_at(b, c, k);
    if k1 <= k2 {
        assert(first_below_at(a, c, k1));
    } else {
        assert(first_below_at(a, c, k2));
    }
}

/// One more operation at the end of each keeps the order.
pub proof fn lemma_lex_push(a: Seq<PlrOp>, b: Seq<PlrOp>, x: PlrOp, y: PlrOp)
    requires
        lex_before(a, b),
    ensures
        lex_before(a.push(x), b.push(y)),
{
    let k = choose|k: int| #[trigger] first_below_at(a, b, k);
    assert(first_below_at(a.push(x), b.push(y), k));
}

/// The same sequence followed by two operations is ordered by those operations.
pub proof fn lemma_lex_last(a: Seq<PlrOp>, x: PlrOp, y: PlrOp)
    requires
        op_rank(x) < op_rank(y),
    ensures
        lex_before(a.push(x), a.push(y)),
{
    assert(first_below_at(a.push(x), a.push(y), a.len() as int));
}

} // verus!
