//! Mathematical model of the sowing rules.
//!
//! Positions are modelled from the mover's point of view: `my` is the row of
//! pits owned by the side to move, `op` the opponent's row, and the two
//! stores likewise.  Ending a turn swaps the two roles, so one model state
//! stands for a board position regardless of which physical side moves.
//! All search contracts are stated against this model.

use vstd::prelude::*;

verus! {

/// A physical side of the board.
#[derive(Debug, Copy, Clone, Hash, Eq, PartialEq, Structural)]
pub enum Side {
    First,
    Second,
}

impl Side {
    /// Row index of this side, `0` for `First` and `1` for `Second`.
    pub fn as_usize(self) -> (r: usize)
        ensures
            r == self.idx(),
    {
        match self {
            Side::First => 0,
            Side::Second => 1,
        }
    }

    /// The opposing side.
    pub fn turned(self) -> (r: Side)
        ensures
            r == self.spec_turned(),
    {
        match self {
            Side::First => Side::Second,
            Side::Second => Side::First,
        }
    }

    pub open spec fn idx(self) -> int {
        match self {
            Side::First => 0,
            Side::Second => 1,
        }
    }

    pub open spec fn spec_turned(self) -> Side {
        match self {
            Side::First => Side::Second,
            Side::Second => Side::First,
        }
    }
}

/// Which capture rule and terminal valuation govern a board.
#[derive(Debug, Copy, Clone, PartialEq, Eq, Structural)]
pub enum RuleSet {
    /// A last seed landing in an own, previously empty pit captures that
    /// seed together with the opposite pit's seeds, but only when stealing
    /// is enabled and the opposite pit is non-empty; the final margin counts
    /// stores and leftover pit seeds alike.
    TakeBoth { stealing: bool },
    /// A last seed landing in an own, previously empty pit banks the
    /// opposite pit's seeds and stays on the board itself; the final margin
    /// counts banked stores only.
    TakeOpposite,
}

/// A position seen from the side to move.
#[verifier::ext_equal]
pub struct GState {
    pub rule: RuleSet,
    pub my: Seq<int>,
    pub op: Seq<int>,
    pub my_store: int,
    pub op_store: int,
}

/// Sum of the entries of a row.
pub open spec fn row_sum(s: Seq<int>) -> int
    decreases s.len(),
{
    if s.len() == 0 {
        0
    } else {
        row_sum(s.drop_last()) + s.last()
    }
}

/// Sum of the entries of a row, each weighted by its index.
pub open spec fn row_isum(s: Seq<int>) -> int
    decreases s.len(),
{
    if s.len() == 0 {
        0
    } else {
        row_isum(s.drop_last()) + (s.len() - 1) * s.last()
    }
}

pub open spec fn nonneg(s: Seq<int>) -> bool {
    forall|i: int| 0 <= i < s.len() ==> s[i] >= 0
}

/// Structural well-formedness of a model state.
pub open spec fn wf_g(g: GState) -> bool {
    &&& 1 <= g.my.len()
    &&& g.my.len() == g.op.len()
    &&& nonneg(g.my)
    &&& nonneg(g.op)
    &&& g.my_store >= 0
    &&& g.op_store >= 0
}

pub open spec fn pit_count(g: GState) -> int {
    g.my.len() as int
}

pub open spec fn pitsum_g(g: GState) -> int {
    row_sum(g.my) + row_sum(g.op)
}

/// Total number of seeds on the board; conserved by every move.
pub open spec fn total_g(g: GState) -> int {
    pitsum_g(g) + g.my_store + g.op_store
}

/// Store margin from the mover's point of view.
pub open spec fn diff_g(g: GState) -> int {
    g.my_store - g.op_store
}

/// The game is over once either row is empty.
pub open spec fn finished_g(g: GState) -> bool {
    row_sum(g.my) == 0 || row_sum(g.op) == 0
}

/// Final margin from the mover's point of view, as the rule set counts it.
pub open spec fn margin_g(g: GState) -> int {
    match g.rule {
        RuleSet::TakeBoth { .. } => (row_sum(g.my) + g.my_store) - (row_sum(g.op)
            + g.op_store),
        RuleSet::TakeOpposite => g.my_store - g.op_store,
    }
}

/// The same position seen from the other side.
pub open spec fn swap_g(g: GState) -> GState {
    GState { rule: g.rule, my: g.op, op: g.my, my_store: g.op_store, op_store: g.my_store }
}

/// One seed added to every pit with index in `[a, b)`.
pub open spec fn add_range(s: Seq<int>, a: int, b: int) -> Seq<int> {
    Seq::new(s.len(), |i: int| if a <= i && i < b { s[i] + 1 } else { s[i] })
}

pub open spec fn dist_pre(g: GState, own: bool, pos: int, num: int) -> bool {
    &&& 0 <= num
    &&& 1 <= g.my.len()
    &&& g.my.len() == g.op.len()
    &&& 0 <= pos
    &&& pos <= g.my.len()
    &&& (!own ==> pos < g.my.len())
}

/// Drop `num` seeds one per pit starting at `pos`, on the mover's row when
/// `own` holds, skipping the opponent's store and banking one seed in the
/// mover's store at the end of each own lap.  Returns the resulting state,
/// whether the last seed fell on the mover's own lap, and where it fell
/// (`pit_count` standing for the mover's store).
pub open spec fn distribute(g: GState, own: bool, pos: int, num: int) -> (GState, bool, int)
    decreases num,
    when dist_pre(g, own, pos, num)
{
    let p: int = g.my.len() as int;
    if own {
        if pos + num <= p {
            (
                GState { my: add_range(g.my, pos, pos + num), ..g },
                true,
                pos + num - 1,
            )
        } else {
            let g1 = GState {
                my: add_range(g.my, pos, p),
                my_store: g.my_store + 1,
                ..g
            };
            if pos + num == p + 1 {
                (g1, true, p)
            } else {
                distribute(g1, false, 0, pos + num - p - 1)
            }
        }
    } else {
        if pos + num <= p {
            (GState { op: add_range(g.op, pos, pos + num), ..g }, false, pos + num - 1)
        } else {
            distribute(GState { op: add_range(g.op, pos, p), ..g }, true, 0, pos + num - p)
        }
    }
}

pub open spec fn legal_g(g: GState, pos: int) -> bool {
    0 <= pos < g.my.len() && g.my[pos] > 0
}

/// Sow the pit at `pos`.  Returns the resulting state, already seen from the
/// side whose turn it then is, and whether the mover kept the turn.
pub open spec fn sow_g(g: GState, pos: int) -> (GState, bool) {
    let p: int = g.my.len() as int;
    let num: int = g.my[pos];
    let g0 = GState { my: g.my.update(pos, 0), ..g };
    let (g1, own, end) = distribute(g0, true, pos + 1, num);
    if own && end == p {
        if finished_g(g1) {
            (swap_g(g1), false)
        } else {
            (g1, true)
        }
    } else if own && g1.my[end] == 1 {
        match g.rule {
            RuleSet::TakeBoth { stealing } => {
                let mirror: int = p - 1 - end;
                if stealing && g1.op[mirror] > 0 {
                    let g2 = GState {
                        my: g1.my.update(end, 0),
                        op: g1.op.update(mirror, 0),
                        my_store: g1.my_store + g1.op[mirror] + 1,
                        ..g1
                    };
                    (swap_g(g2), false)
                } else {
                    (swap_g(g1), false)
                }
            },
            RuleSet::TakeOpposite => {
                let mirror: int = p - 1 - end;
                let g2 = GState {
                    op: g1.op.update(mirror, 0),
                    my_store: g1.my_store + g1.op[mirror],
                    ..g1
                };
                (swap_g(g2), false)
            },
        }
    } else {
        (swap_g(g1), false)
    }
}

/// Seeds banked by the mover during this sow.
pub open spec fn sow_delta(g: GState, pos: int) -> int {
    let (h, kept) = sow_g(g, pos);
    if kept {
        h.my_store - g.my_store
    } else {
        h.op_store - g.my_store
    }
}

/// Termination measure: strictly decreases with every legal sow.
pub open spec fn mu(g: GState) -> int {
    let p: int = pit_count(g);
    let t: int = total_g(g);
    pitsum_g(g) * ((p - 1) * t + 1) + ((p - 1) * t - psi_g(g))
}

/// Positional potential: seeds weighted by how far they sit along their row.
pub open spec fn psi_g(g: GState) -> int {
    row_isum(g.my) + row_isum(g.op)
}

pub proof fn lemma_row_sum_nonneg(s: Seq<int>)
    requires
        nonneg(s),
    ensures
        row_sum(s) >= 0,
    decreases s.len(),
{
    if s.len() > 0 {
        lemma_row_sum_nonneg(s.drop_last());
    }
}

pub proof fn lemma_elem_le_row_sum(s: Seq<int>, i: int)
    requires
        nonneg(s),
        0 <= i < s.len(),
    ensures
        s[i] <= row_sum(s),
    decreases s.len(),
{
    if i == s.len() - 1 {
        lemma_row_sum_nonneg(s.drop_last());
    } else {
        lemma_elem_le_row_sum(s.drop_last(), i);
    }
}

pub proof fn lemma_row_sum_update(s: Seq<int>, i: int, v: int)
    requires
        0 <= i < s.len(),
    ensures
        row_sum(s.update(i, v)) == row_sum(s) - s[i] + v,
    decreases s.len(),
{
    if i == s.len() - 1 {
        assert(s.update(i, v).drop_last() =~= s.drop_last());
    } else {
        assert(s.update(i, v).drop_last() =~= s.drop_last().update(i, v));
        lemma_row_sum_update(s.drop_last(), i, v);
    }
}

pub proof fn lemma_row_isum_update(s: Seq<int>, i: int, v: int)
    requires
        0 <= i < s.len(),
    ensures
        row_isum(s.update(i, v)) == row_isum(s) - i * s[i] + i * v,
    decreases s.len(),
{
    if i == s.len() - 1 {
        assert(s.update(i, v).drop_last() =~= s.drop_last());
    } else {
        assert(s.update(i, v).drop_last() =~= s.drop_last().update(i, v));
        lemma_row_isum_update(s.drop_last(), i, v);
    }
}

pub proof fn lemma_row_sum_add_range(s: Seq<int>, a: int, b: int)
    requires
        0 <= a <= b <= s.len(),
    ensures
        row_sum(add_range(s, a, b)) == row_sum(s) + (b - a),
    decreases s.len(),
{
    if s.len() == 0 {
        assert(add_range(s, a, b) =~= s);
    } else {
        let n: int = s.len() - 1;
        if b <= n {
            assert(add_range(s, a, b).drop_last() =~= add_range(s.drop_last(), a, b));
            lemma_row_sum_add_range(s.drop_last(), a, b);
        } else if a <= n {
            assert(add_range(s, a, b).drop_last() =~= add_range(s.drop_last(), a, n));
            lemma_row_sum_add_range(s.drop_last(), a, n);
        } else {
            // a == b == s.len(): nothing changes
            assert(add_range(s, a, b) =~= s);
        }
    }
}

pub proof fn lemma_row_isum_add_range_lb(s: Seq<int>, a: int, b: int)
    requires
        0 <= a <= b <= s.len(),
    ensures
        row_isum(add_range(s, a, b)) >= row_isum(s) + (b - a) * a,
    decreases s.len(),
{
    if s.len() == 0 {
        assert(add_range(s, a, b) =~= s);
        assert((b - a) * a == 0) by (nonlinear_arith)
            requires
                a == 0,
                b == 0,
        ;
    } else {
        let n: int = s.len() - 1;
        if b <= n {
            assert(add_range(s, a, b).drop_last() =~= add_range(s.drop_last(), a, b));
            lemma_row_isum_add_range_lb(s.drop_last(), a, b);
            assert(add_range(s, a, b).last() == s.last());
        } else if a <= n {
            assert(add_range(s, a, b).drop_last() =~= add_range(s.drop_last(), a, n));
            lemma_row_isum_add_range_lb(s.drop_last(), a, n);
            assert(add_range(s, a, b).last() == s.last() + 1);
            assert(n * (s.last() + 1) == n * s.last() + n) by (nonlinear_arith);
            assert((n - a) * a + n >= (b - a) * a) by (nonlinear_arith)
                requires
                    a <= n,
                    b <= n + 1,
                    0 <= a,
            ;
        } else {
            // a == b == s.len(): nothing changes
            assert(add_range(s, a, b) =~= s);
            assert((b - a) * a == 0) by (nonlinear_arith)
                requires
                    a == b,
            ;
        }
    }
}

pub proof fn lemma_row_isum_le(s: Seq<int>)
    requires
        nonneg(s),
    ensures
        row_isum(s) <= (s.len() - 1) * row_sum(s),
        row_isum(s) >= 0,
    decreases s.len(),
{
    if s.len() > 0 {
        let n: int = s.len() - 1;
        lemma_row_isum_le(s.drop_last());
        lemma_row_sum_nonneg(s.drop_last());
        assert((n - 1) * row_sum(s.drop_last()) + n * s.last() <= n * (row_sum(s.drop_last())
            + s.last())) by (nonlinear_arith)
            requires
                row_sum(s.drop_last()) >= 0,
                s.last() >= 0,
                n >= 0,
        ;
    }
}

/// The measure is non-negative on well-formed states.
pub proof fn lemma_mu_nonneg(g: GState)
    requires
        wf_g(g),
    ensures
        mu(g) >= 0,
        pitsum_g(g) >= 0,
        total_g(g) >= pitsum_g(g),
        psi_g(g) <= (pit_count(g) - 1) * total_g(g),
{
    let p: int = pit_count(g);
    let t: int = total_g(g);
    lemma_row_sum_nonneg(g.my);
    lemma_row_sum_nonneg(g.op);
    lemma_row_isum_le(g.my);
    lemma_row_isum_le(g.op);
    assert((p - 1) * row_sum(g.my) + (p - 1) * row_sum(g.op) == (p - 1) * pitsum_g(g))
        by (nonlinear_arith);
    assert(psi_g(g) <= (p - 1) * pitsum_g(g));
    assert((p - 1) * pitsum_g(g) <= (p - 1) * t) by (nonlinear_arith)
        requires
            p >= 1,
            pitsum_g(g) <= t,
    ;
    assert(pitsum_g(g) * ((p - 1) * t + 1) >= 0) by (nonlinear_arith)
        requires
            pitsum_g(g) >= 0,
            (p - 1) * t >= psi_g(g),
            psi_g(g) >= 0,
    ;
}

/// What a distribution pass does: it conserves seeds, only feeds the mover's
/// store, keeps rows non-negative, and touches no store at all exactly on a
/// single own-row lap.
pub proof fn lemma_distribute(g: GState, own: bool, pos: int, num: int)
    requires
        dist_pre(g, own, pos, num),
        num >= 1,
        nonneg(g.my),
        nonneg(g.op),
    ensures
        ({
            let (h, own2, end) = distribute(g, own, pos, num);
            let p: int = g.my.len() as int;
            &&& h.rule == g.rule
            &&& h.my.len() == g.my.len()
            &&& h.op.len() == g.op.len()
            &&& h.op_store == g.op_store
            &&& h.my_store >= g.my_store
            &&& nonneg(h.my)
            &&& nonneg(h.op)
            &&& row_sum(h.my) + row_sum(h.op) + h.my_store == row_sum(g.my) + row_sum(g.op)
                + g.my_store + num
            &&& (own2 ==> 0 <= end <= p)
            &&& (!own2 ==> 0 <= end < p)
            &&& (own2 && end == p ==> h.my_store > g.my_store)
            &&& ((own && h.my_store == g.my_store) ==> {
                &&& pos + num <= p
                &&& h.op == g.op
                &&& h.my == add_range(g.my, pos, pos + num)
                &&& own2
                &&& end == pos + num - 1
            })
        }),
    decreases num,
{
    let p: int = g.my.len() as int;
    if own {
        if pos + num <= p {
            lemma_row_sum_add_range(g.my, pos, pos + num);
        } else {
            let g1 = GState { my: add_range(g.my, pos, p), my_store: g.my_store + 1, ..g };
            lemma_row_sum_add_range(g.my, pos, p);
            if pos + num == p + 1 {
            } else {
                lemma_distribute(g1, false, 0, pos + num - p - 1);
            }
        }
    } else {
        if pos + num <= p {
            lemma_row_sum_add_range(g.op, pos, pos + num);
        } else {
            lemma_row_sum_add_range(g.op, pos, p);
            lemma_distribute(GState { op: add_range(g.op, pos, p), ..g }, true, 0, pos + num - p);
        }
    }
}

/// A distribution pass reads and writes the rows alone: states that differ
/// only in their stores are carried to states that differ only in their
/// stores, with the same landing spot and the same store gain.
pub proof fn lemma_distribute_stores(ga: GState, gb: GState, own: bool, pos: int, num: int)
    requires
        dist_pre(ga, own, pos, num),
        ga.my == gb.my,
        ga.op == gb.op,
        ga.rule == gb.rule,
    ensures
        ({
            let (ha, owna, enda) = distribute(ga, own, pos, num);
            let (hb, ownb, endb) = distribute(gb, own, pos, num);
            &&& ha.my == hb.my
            &&& ha.op == hb.op
            &&& ha.rule == hb.rule
            &&& owna == ownb
            &&& enda == endb
            &&& ha.my_store - ga.my_store == hb.my_store - gb.my_store
            &&& ha.op_store == ga.op_store
            &&& hb.op_store == gb.op_store
        }),
    decreases num,
{
    let p: int = ga.my.len() as int;
    if own {
        if pos + num <= p {
        } else if pos + num == p + 1 {
        } else {
            lemma_distribute_stores(
                GState { my: add_range(ga.my, pos, p), my_store: ga.my_store + 1, ..ga },
                GState { my: add_range(gb.my, pos, p), my_store: gb.my_store + 1, ..gb },
                false,
                0,
                pos + num - p - 1,
            );
        }
    } else {
        if pos + num <= p {
        } else {
            lemma_distribute_stores(
                GState { op: add_range(ga.op, pos, p), ..ga },
                GState { op: add_range(gb.op, pos, p), ..gb },
                true,
                0,
                pos + num - p,
            );
        }
    }
}

/// What one legal sow does: it keeps the state well formed, conserves the
/// seed total, moves `sow_delta` seeds into the mover's store, and strictly
/// decreases the termination measure.
pub proof fn lemma_sow(g: GState, pos: int)
    requires
        wf_g(g),
        legal_g(g, pos),
    ensures
        ({
            let (h, kept) = sow_g(g, pos);
            let d: int = sow_delta(g, pos);
            &&& wf_g(h)
            &&& h.rule == g.rule
            &&& pit_count(h) == pit_count(g)
            &&& total_g(h) == total_g(g)
            &&& mu(h) < mu(g)
            &&& d >= 0
            &&& pitsum_g(h) == pitsum_g(g) - d
            &&& (kept ==> h.my_store == g.my_store + d && h.op_store == g.op_store
                && !finished_g(h))
            &&& (!kept ==> h.my_store == g.op_store && h.op_store == g.my_store + d)
            &&& (kept ==> diff_g(h) == diff_g(g) + d)
            &&& (!kept ==> diff_g(h) == -(diff_g(g) + d))
        }),
{
    let p: int = g.my.len() as int;
    let t: int = total_g(g);
    let num: int = g.my[pos];
    let g0 = GState { my: g.my.update(pos, 0), ..g };
    lemma_row_sum_update(g.my, pos, 0);
    lemma_row_isum_update(g.my, pos, 0);
    assert(nonneg(g0.my));
    lemma_distribute(g0, true, pos + 1, num);
    let (g1, own, end) = distribute(g0, true, pos + 1, num);
    let (h, kept) = sow_g(g, pos);
    let d: int = sow_delta(g, pos);
    lemma_mu_nonneg(g);
    lemma_row_isum_le(g.my);
    lemma_row_isum_le(g.op);
    let kk: int = (p - 1) * t + 1;

    // The final state before any role swap.
    let g2 = if kept {
        h
    } else {
        swap_g(h)
    };
    assert(g2.my_store == g.my_store + d);
    assert(g2.op_store == g.op_store);
    assert(g2.rule == g.rule);

    // Per-branch facts: conservation, non-negativity, and, when no seed at
    // all was banked, a strict gain in positional potential.
    if own && end == p {
        assert(g2 == g1);
        assert(d >= 1);
    } else if own && g1.my[end] == 1 {
        match g.rule {
            RuleSet::TakeBoth { stealing } => {
                let mirror: int = p - 1 - end;
                if stealing && g1.op[mirror] > 0 {
                    lemma_row_sum_update(g1.my, end, 0);
                    lemma_row_sum_update(g1.op, mirror, 0);
                    assert(d >= 1);
                } else {
                    assert(g2 == g1);
                }
            },
            RuleSet::TakeOpposite => {
                let mirror: int = p - 1 - end;
                lemma_row_sum_update(g1.op, mirror, 0);
                if d == 0 {
                    assert(g1.my_store == g0.my_store && g1.op[mirror] == 0);
                    assert(g2.op =~= g1.op);
                    assert(psi_g(g2) == psi_g(g1));
                }
            },
        }
    } else {
        assert(g2 == g1);
    }
    assert(nonneg(g2.my));
    assert(nonneg(g2.op));
    assert(row_sum(g2.my) + row_sum(g2.op) + g2.my_store + g2.op_store == t);
    assert(d >= 0);

    if d == 0 {
        // No seed was banked, so the pass was one lap on the mover's own
        // row and the sown seeds all moved to strictly larger indices.
        assert(g1.my_store == g0.my_store);
        assert(g1.my == add_range(g0.my, pos + 1, pos + 1 + num) && g1.op == g0.op);
        lemma_row_isum_add_range_lb(g0.my, pos + 1, pos + 1 + num);
        assert(num * (pos + 1) == num * pos + num) by (nonlinear_arith);
        assert(pos * num == num * pos) by (nonlinear_arith);
        assert(row_isum(g1.my) >= row_isum(g.my) + num);
        assert(psi_g(g2) >= psi_g(g) + 1);
    }

    // Well-formedness and the shared measure computation.
    lemma_row_sum_nonneg(g2.my);
    lemma_row_sum_nonneg(g2.op);
    assert(wf_g(h));
    assert(pit_count(h) == p);
    assert(total_g(h) == t);
    assert(pitsum_g(h) == pitsum_g(g2));
    assert(psi_g(h) == psi_g(g2));
    assert(pitsum_g(h) == pitsum_g(g) - d);
    lemma_row_isum_le(h.my);
    lemma_row_isum_le(h.op);
    lemma_mu_nonneg(h);
    assert(mu(h) == pitsum_g(h) * kk + ((p - 1) * t - psi_g(h)));
    assert(mu(g) == pitsum_g(g) * kk + ((p - 1) * t - psi_g(g)));
    if d >= 1 {
        assert(pitsum_g(h) * kk + kk <= pitsum_g(g) * kk) by (nonlinear_arith)
            requires
                pitsum_g(h) <= pitsum_g(g) - 1,
                kk >= 1,
        ;
        assert(psi_g(h) >= 0);
        assert(psi_g(g) <= (p - 1) * t);
        assert(mu(h) < mu(g));
    } else {
        assert(pitsum_g(h) == pitsum_g(g));
        assert(psi_g(h) >= psi_g(g) + 1);
        assert(mu(h) < mu(g));
    }
}

/// Sowing reads and writes the rows alone: two positions with the same rows
/// and rule sort to the same rows, the same turn outcome, and the same gain,
/// whatever their stores.
pub proof fn lemma_sow_stores(ga: GState, gb: GState, pos: int)
    requires
        wf_g(ga),
        wf_g(gb),
        legal_g(ga, pos),
        ga.my == gb.my,
        ga.op == gb.op,
        ga.rule == gb.rule,
    ensures
        ({
            let (ha, kepta) = sow_g(ga, pos);
            let (hb, keptb) = sow_g(gb, pos);
            &&& ha.my == hb.my
            &&& ha.op == hb.op
            &&& ha.rule == hb.rule
            &&& kepta == keptb
            &&& sow_delta(ga, pos) == sow_delta(gb, pos)
        }),
{
    let p: int = ga.my.len() as int;
    let num: int = ga.my[pos];
    let g0a = GState { my: ga.my.update(pos, 0), ..ga };
    let g0b = GState { my: gb.my.update(pos, 0), ..gb };
    lemma_distribute_stores(g0a, g0b, true, pos + 1, num);
}


/// Value of playing the pit at `pos`: the mover's own continuation on a
/// bonus turn, the negated opponent value otherwise.
pub open spec fn move_value(g: GState, pos: int) -> int
    decreases mu(g), 0int, 0int,
    when wf_g(g) && legal_g(g, pos)
    via move_value_dec
{
    let (t, kept) = sow_g(g, pos);
    if kept {
        value(t)
    } else {
        -value(t)
    }
}

#[via_fn]
proof fn move_value_dec(g: GState, pos: int) {
    lemma_mu_nonneg(g);
    lemma_sow(g, pos);
    let (t, kept) = sow_g(g, pos);
    lemma_mu_nonneg(t);
}

/// Best value over the moves at pits `0 .. n`; below every reachable value
/// when no such move is legal.
pub open spec fn best_from(g: GState, n: int) -> int
    decreases mu(g), 0int, n,
    when wf_g(g) && 0 <= n <= g.my.len()
    via best_from_dec
{
    if n <= 0 {
        -total_g(g) - 1
    } else {
        let rest: int = best_from(g, n - 1);
        if g.my[n - 1] > 0 {
            let mv: int = move_value(g, n - 1);
            if rest < mv {
                mv
            } else {
                rest
            }
        } else {
            rest
        }
    }
}

#[via_fn]
proof fn best_from_dec(g: GState, n: int) {
    lemma_mu_nonneg(g);
}

/// Exact negamax value of a position, from the mover's point of view: the
/// final margin when the game is over, else the best over all legal moves.
pub open spec fn value(g: GState) -> int
    decreases mu(g), 1int, 0int,
    when wf_g(g)
    via value_dec
{
    if finished_g(g) {
        margin_g(g)
    } else {
        best_from(g, g.my.len() as int)
    }
}

#[via_fn]
proof fn value_dec(g: GState) {
    lemma_mu_nonneg(g);
}

pub open spec fn has_legal_below(g: GState, n: int) -> bool {
    exists|pos: int| 0 <= pos < n && #[trigger] g.my[pos] > 0
}

pub proof fn lemma_row_sum_pos(s: Seq<int>)
    requires
        nonneg(s),
        row_sum(s) > 0,
    ensures
        exists|i: int| 0 <= i < s.len() && #[trigger] s[i] > 0,
    decreases s.len(),
{
    if s.len() > 0 {
        if s.last() > 0 {
            assert(s[s.len() - 1] > 0);
        } else {
            lemma_row_sum_pos(s.drop_last());
            let i = choose|i: int| 0 <= i < s.drop_last().len() && #[trigger] s.drop_last()[i]
                > 0;
            assert(s[i] > 0);
        }
    }
}

/// A game that is not over always offers the mover a legal move.
pub proof fn lemma_not_finished_has_legal(g: GState)
    requires
        wf_g(g),
        !finished_g(g),
    ensures
        has_legal_below(g, g.my.len() as int),
{
    lemma_row_sum_nonneg(g.my);
    lemma_row_sum_pos(g.my);
}

/// The value never strays further from the store margin than the seeds that
/// are still on the board.
pub proof fn lemma_value_bound(g: GState)
    requires
        wf_g(g),
    ensures
        diff_g(g) - pitsum_g(g) <= value(g) <= diff_g(g) + pitsum_g(g),
    decreases mu(g), 1int, 0int,
{
    lemma_row_sum_nonneg(g.my);
    lemma_row_sum_nonneg(g.op);
    if finished_g(g) {
    } else {
        lemma_not_finished_has_legal(g);
        lemma_best_from_bound(g, g.my.len() as int);
    }
}

proof fn lemma_best_from_bound(g: GState, n: int)
    requires
        wf_g(g),
        0 <= n <= g.my.len(),
    ensures
        best_from(g, n) <= diff_g(g) + pitsum_g(g),
        has_legal_below(g, n) ==> best_from(g, n) >= diff_g(g) - pitsum_g(g),
    decreases mu(g), 0int, n,
{
    lemma_row_sum_nonneg(g.my);
    lemma_row_sum_nonneg(g.op);
    if n <= 0 {
    } else {
        lemma_best_from_bound(g, n - 1);
        if g.my[n - 1] > 0 {
            let pos: int = n - 1;
            lemma_sow(g, pos);
            let (t, kept) = sow_g(g, pos);
            let d: int = sow_delta(g, pos);
            lemma_mu_nonneg(t);
            lemma_value_bound(t);
            if kept {
                assert(move_value(g, pos) == value(t));
            } else {
                assert(move_value(g, pos) == -value(t));
            }
            assert(diff_g(g) - pitsum_g(g) <= move_value(g, pos) <= diff_g(g) + pitsum_g(g));
            assert(g.my[pos] > 0);
            assert(has_legal_below(g, n));
        } else {
            assert(has_legal_below(g, n) ==> has_legal_below(g, n - 1));
        }
    }
}

/// Normalization: stripping the store margin from the value leaves a
/// quantity that depends on the rows and the rule alone, never on how many
/// seeds either side has already banked.  This is what lets positions
/// reached along different histories share one cache entry.
pub proof fn lemma_value_stores(ga: GState, gb: GState)
    requires
        wf_g(ga),
        wf_g(gb),
        ga.my == gb.my,
        ga.op == gb.op,
        ga.rule == gb.rule,
    ensures
        value(ga) - diff_g(ga) == value(gb) - diff_g(gb),
    decreases mu(ga), 1int, 0int,
{
    if finished_g(ga) {
    } else {
        lemma_not_finished_has_legal(ga);
        lemma_best_from_stores(ga, gb, ga.my.len() as int);
    }
}

proof fn lemma_best_from_stores(ga: GState, gb: GState, n: int)
    requires
        wf_g(ga),
        wf_g(gb),
        ga.my == gb.my,
        ga.op == gb.op,
        ga.rule == gb.rule,
        0 <= n <= ga.my.len(),
    ensures
        has_legal_below(ga, n) ==> best_from(ga, n) - diff_g(ga) == best_from(gb, n)
            - diff_g(gb),
        !has_legal_below(ga, n) ==> best_from(ga, n) == -total_g(ga) - 1 && best_from(gb, n)
            == -total_g(gb) - 1,
    decreases mu(ga), 0int, n,
{
    if n <= 0 {
    } else {
        lemma_best_from_stores(ga, gb, n - 1);
        if ga.my[n - 1] > 0 {
            let pos: int = n - 1;
            lemma_sow(ga, pos);
            lemma_sow(gb, pos);
            lemma_sow_stores(ga, gb, pos);
            let (ta, kept) = sow_g(ga, pos);
            let (tb, _kb) = sow_g(gb, pos);
            let d: int = sow_delta(ga, pos);
            lemma_mu_nonneg(ta);
            lemma_value_stores(ta, tb);
            assert(move_value(ga, pos) - diff_g(ga) == move_value(gb, pos) - diff_g(gb));
            assert(has_legal_below(ga, n));
            if has_legal_below(ga, n - 1) {
            } else {
                // The running best is still the floor, which every real
                // move beats.
                lemma_value_bound(ta);
                lemma_row_sum_nonneg(ga.my);
                lemma_row_sum_nonneg(ga.op);
                lemma_row_sum_nonneg(gb.my);
                lemma_row_sum_nonneg(gb.op);
                assert(move_value(ga, pos) >= diff_g(ga) - pitsum_g(ga));
                assert(move_value(ga, pos) > -total_g(ga) - 1);
                assert(move_value(gb, pos) > -total_g(gb) - 1);
            }
        } else {
            assert(has_legal_below(ga, n) ==> has_legal_below(ga, n - 1));
        }
    }
}

/// `h` ends a turn begun by sowing pit `pos` of `g`: either that sow ends
/// the turn at once, or it earns a bonus and some continuation ends it.
pub open spec fn turn_succ_via(g: GState, pos: int, h: GState) -> bool
    decreases mu(g), 0int, 0int,
    when wf_g(g)
    via turn_succ_via_dec
{
    legal_g(g, pos) && {
        let (t, kept) = sow_g(g, pos);
        if kept {
            turn_succ(t, h)
        } else {
            h == t
        }
    }
}

#[via_fn]
proof fn turn_succ_via_dec(g: GState, pos: int, h: GState) {
    lemma_mu_nonneg(g);
    if legal_g(g, pos) {
        lemma_sow(g, pos);
        let (t, kept) = sow_g(g, pos);
        lemma_mu_nonneg(t);
    }
}

/// Some pit with index below `n` begins a turn of `g` that ends in `h`.
pub open spec fn turn_succ_upto(g: GState, n: int, h: GState) -> bool
    decreases mu(g), 0int, n,
    when wf_g(g) && 0 <= n
    via turn_succ_upto_dec
{
    n > 0 && (turn_succ_via(g, n - 1, h) || turn_succ_upto(g, n - 1, h))
}

#[via_fn]
proof fn turn_succ_upto_dec(g: GState, n: int, h: GState) {
    lemma_mu_nonneg(g);
}

/// `h` is a state the opponent can face after one complete turn of `g`'s
/// mover, bonus-turn chains included.
pub open spec fn turn_succ(g: GState, h: GState) -> bool
    decreases mu(g), 1int, 0int,
    when wf_g(g)
    via turn_succ_dec
{
    turn_succ_upto(g, g.my.len() as int, h)
}

#[via_fn]
proof fn turn_succ_dec(g: GState, h: GState) {
    lemma_mu_nonneg(g);
}

pub proof fn lemma_turn_succ_elim(g: GState, h: GState)
    requires
        wf_g(g),
        turn_succ(g, h),
    ensures
        exists|pos: int| 0 <= pos < g.my.len() && #[trigger] turn_succ_via(g, pos, h),
{
    lemma_turn_succ_upto_elim(g, g.my.len() as int, h);
}

proof fn lemma_turn_succ_upto_elim(g: GState, n: int, h: GState)
    requires
        wf_g(g),
        0 <= n <= g.my.len(),
        turn_succ_upto(g, n, h),
    ensures
        exists|pos: int| 0 <= pos < n && #[trigger] turn_succ_via(g, pos, h),
    decreases n,
{
    if turn_succ_via(g, n - 1, h) {
        assert(0 <= n - 1 < n && turn_succ_via(g, n - 1, h));
    } else {
        lemma_turn_succ_upto_elim(g, n - 1, h);
    }
}

pub proof fn lemma_turn_succ_intro(g: GState, pos: int, h: GState)
    requires
        wf_g(g),
        0 <= pos < g.my.len(),
        turn_succ_via(g, pos, h),
    ensures
        turn_succ(g, h),
{
    lemma_turn_succ_upto_intro(g, pos, g.my.len() as int, h);
}

proof fn lemma_turn_succ_upto_intro(g: GState, pos: int, n: int, h: GState)
    requires
        wf_g(g),
        0 <= pos < n <= g.my.len(),
        turn_succ_via(g, pos, h),
    ensures
        turn_succ_upto(g, n, h),
    decreases n,
{
    if pos < n - 1 {
        lemma_turn_succ_upto_intro(g, pos, n - 1, h);
    }
}

/// Every completed turn leads to a well-formed position with the same seed
/// total and rule and a strictly smaller measure.
pub proof fn lemma_turn_succ_props(g: GState, h: GState)
    requires
        wf_g(g),
        turn_succ(g, h),
    ensures
        wf_g(h),
        mu(h) < mu(g),
        total_g(h) == total_g(g),
        h.rule == g.rule,
        pit_count(h) == pit_count(g),
    decreases mu(g),
{
    lemma_mu_nonneg(g);
    lemma_turn_succ_elim(g, h);
    let pos = choose|pos: int| 0 <= pos < g.my.len() && #[trigger] turn_succ_via(g, pos, h);
    lemma_sow(g, pos);
    let (t, kept) = sow_g(g, pos);
    lemma_mu_nonneg(t);
    if kept {
        lemma_turn_succ_props(t, h);
    }
}

/// An unfinished position always has a completed turn ahead of it.
pub proof fn lemma_turn_succ_exists(g: GState)
    requires
        wf_g(g),
        !finished_g(g),
    ensures
        exists|h: GState| #[trigger] turn_succ(g, h),
    decreases mu(g),
{
    lemma_not_finished_has_legal(g);
    let pos = choose|pos: int| 0 <= pos < g.my.len() && #[trigger] g.my[pos] > 0;
    lemma_sow(g, pos);
    let (t, kept) = sow_g(g, pos);
    lemma_mu_nonneg(t);
    if kept {
        lemma_turn_succ_exists(t);
        let h = choose|h: GState| #[trigger] turn_succ(t, h);
        assert(turn_succ_via(g, pos, h));
        lemma_turn_succ_intro(g, pos, h);
        assert(turn_succ(g, h));
    } else {
        assert(turn_succ_via(g, pos, t));
        lemma_turn_succ_intro(g, pos, t);
        assert(turn_succ(g, t));
    }
}

proof fn lemma_best_from_ge(g: GState, n: int, pos: int)
    requires
        wf_g(g),
        0 <= pos < n <= g.my.len(),
        legal_g(g, pos),
    ensures
        best_from(g, n) >= move_value(g, pos),
    decreases n,
{
    if pos < n - 1 {
        lemma_best_from_ge(g, n - 1, pos);
    }
}

proof fn lemma_best_from_floor(g: GState, n: int)
    requires
        wf_g(g),
        0 <= n <= g.my.len(),
        !has_legal_below(g, n),
    ensures
        best_from(g, n) == -total_g(g) - 1,
    decreases n,
{
    if n > 0 {
        assert(!(g.my[n - 1] > 0));
        assert(has_legal_below(g, n - 1) ==> has_legal_below(g, n));
        lemma_best_from_floor(g, n - 1);
    }
}

proof fn lemma_best_from_attained(g: GState, n: int)
    requires
        wf_g(g),
        0 <= n <= g.my.len(),
        has_legal_below(g, n),
    ensures
        exists|pos: int| 0 <= pos < n && #[trigger] legal_g(g, pos) && best_from(g, n)
            == move_value(g, pos),
    decreases n,
{
    let k: int = n - 1;
    if g.my[k] > 0 {
        if has_legal_below(g, k) {
            lemma_best_from_attained(g, k);
            let prev = choose|pos: int| 0 <= pos < k && #[trigger] legal_g(g, pos)
                && best_from(g, k) == move_value(g, pos);
            if best_from(g, k) < move_value(g, k) {
                assert(legal_g(g, k));
            } else {
                assert(legal_g(g, prev) && best_from(g, n) == move_value(g, prev));
            }
        } else {
            // The running best is the floor; the move at `k` beats it.
            lemma_best_from_floor(g, k);
            lemma_sow(g, k);
            let (t, kept) = sow_g(g, k);
            lemma_mu_nonneg(t);
            lemma_value_bound(t);
            lemma_row_sum_nonneg(g.my);
            lemma_row_sum_nonneg(g.op);
            assert(move_value(g, k) > -total_g(g) - 1);
            assert(legal_g(g, k));
            assert(best_from(g, n) == move_value(g, k));
        }
    } else {
        assert(has_legal_below(g, k));
        lemma_best_from_attained(g, k);
    }
}

/// Negamax over completed turns: the value of an unfinished position is the
/// maximum over its turn successors of the negated successor value, and the
/// maximum is attained.
pub proof fn lemma_value_turns(g: GState)
    requires
        wf_g(g),
        !finished_g(g),
    ensures
        forall|h: GState| #[trigger] turn_succ(g, h) ==> -value(h) <= value(g),
        exists|h: GState| #[trigger] turn_succ(g, h) && value(g) == -value(h),
    decreases mu(g),
{
    lemma_mu_nonneg(g);
    lemma_not_finished_has_legal(g);
    let p: int = g.my.len() as int;

    assert forall|h: GState| #[trigger] turn_succ(g, h) implies -value(h) <= value(g) by {
        lemma_turn_succ_elim(g, h);
        let pos = choose|pos: int| 0 <= pos < g.my.len() && #[trigger] turn_succ_via(
            g,
            pos,
            h,
        );
        lemma_sow(g, pos);
        let (t, kept) = sow_g(g, pos);
        lemma_mu_nonneg(t);
        lemma_best_from_ge(g, p, pos);
        if kept {
            assert(turn_succ(t, h));
            lemma_value_turns(t);
            assert(-value(h) <= value(t));
        }
    }

    lemma_best_from_attained(g, p);
    let pos = choose|pos: int| 0 <= pos < p && #[trigger] legal_g(g, pos) && best_from(g, p)
        == move_value(g, pos);
    lemma_sow(g, pos);
    let (t, kept) = sow_g(g, pos);
    lemma_mu_nonneg(t);
    if kept {
        lemma_value_turns(t);
        let h = choose|h: GState| #[trigger] turn_succ(t, h) && value(t) == -value(h);
        assert(turn_succ_via(g, pos, h));
        lemma_turn_succ_intro(g, pos, h);
        assert(turn_succ(g, h) && value(g) == -value(h));
    } else {
        assert(turn_succ_via(g, pos, t));
        lemma_turn_succ_intro(g, pos, t);
        assert(turn_succ(g, t) && value(g) == -value(t));
    }
}


/// A row of `u8` pits as the model sees it.
pub open spec fn seq_int(s: Seq<u8>) -> Seq<int> {
    s.map_values(|x: u8| x as int)
}

pub proof fn lemma_seq_int(s: Seq<u8>)
    ensures
        seq_int(s).len() == s.len(),
        forall|i: int| 0 <= i < s.len() ==> #[trigger] seq_int(s)[i] == s[i] as int,
        nonneg(seq_int(s)),
{
}

pub proof fn lemma_seq_int_injective(a: Seq<u8>, b: Seq<u8>)
    requires
        seq_int(a) == seq_int(b),
    ensures
        a == b,
{
    assert(seq_int(a).len() == a.len() && seq_int(b).len() == b.len());
    assert forall|i: int| 0 <= i < a.len() implies a[i] == b[i] by {
        assert(seq_int(a)[i] == a[i] as int);
        assert(seq_int(b)[i] == b[i] as int);
        assert(seq_int(a)[i] == seq_int(b)[i]);
    }
    assert(a =~= b);
}

pub proof fn lemma_row_sum_take_step(s: Seq<int>, i: int)
    requires
        0 <= i < s.len(),
    ensures
        row_sum(s.take(i + 1)) == row_sum(s.take(i)) + s[i],
        row_isum(s.take(i + 1)) == row_isum(s.take(i)) + i * s[i],
{
    assert(s.take(i + 1).drop_last() =~= s.take(i));
    assert(s.take(i + 1).last() == s[i]);
}

pub proof fn lemma_row_sum_take_le(s: Seq<int>, i: int)
    requires
        nonneg(s),
        0 <= i <= s.len(),
    ensures
        row_sum(s.take(i)) <= row_sum(s),
        row_sum(s.take(i)) >= 0,
    decreases s.len() - i,
{
    assert(nonneg(s.take(i)));
    lemma_row_sum_nonneg(s.take(i));
    if i == s.len() {
        assert(s.take(i) =~= s);
    } else {
        lemma_row_sum_take_step(s, i);
        lemma_row_sum_take_le(s, i + 1);
    }
}

/// A non-negative row sums to zero exactly when every pit is empty.
pub proof fn lemma_row_sum_zero(s: Seq<int>)
    requires
        nonneg(s),
    ensures
        row_sum(s) == 0 <==> (forall|i: int| 0 <= i < s.len() ==> #[trigger] s[i] == 0),
{
    lemma_row_sum_nonneg(s);
    if row_sum(s) == 0 {
        assert forall|i: int| 0 <= i < s.len() implies #[trigger] s[i] == 0 by {
            lemma_elem_le_row_sum(s, i);
        }
    } else {
        lemma_row_sum_pos(s);
    }
}

/// Sum of a whole row of pits, as a byte.
pub(crate) fn row_total(v: &Vec<u8>) -> (r: u8)
    requires
        row_sum(seq_int(v@)) <= 127,
    ensures
        r as int == row_sum(seq_int(v@)),
{
    proof {
        lemma_seq_int(v@);
    }
    let ghost s: Seq<int> = seq_int(v@);
    let mut r: u8 = 0;
    let mut i: usize = 0;
    proof {
        assert(s.take(0) =~= Seq::<int>::empty());
    }
    while i < v.len()
        invariant
            0 <= i <= v.len(),
            s == seq_int(v@),
            s.len() == v.len(),
            nonneg(s),
            row_sum(s) <= 127,
            r as int == row_sum(s.take(i as int)),
        decreases v.len() - i,
    {
        proof {
            lemma_row_sum_take_step(s, i as int);
            lemma_row_sum_take_le(s, i as int + 1);
            assert(s[i as int] == v@[i as int] as int);
        }
        r = r + v[i];
        i = i + 1;
    }
    proof {
        assert(s.take(v.len() as int) =~= s);
    }
    r
}


/// `m` is the final margin, for the current mover, of some complete play
/// that begins by sowing pit `pos`.
pub open spec fn att_via(g: GState, pos: int, m: int) -> bool
    decreases mu(g), 0int, 0int,
    when wf_g(g)
    via att_via_dec
{
    legal_g(g, pos) && {
        let (t, kept) = sow_g(g, pos);
        if kept {
            attainable(t, m)
        } else {
            attainable(t, -m)
        }
    }
}

#[via_fn]
proof fn att_via_dec(g: GState, pos: int, m: int) {
    lemma_mu_nonneg(g);
    if legal_g(g, pos) {
        lemma_sow(g, pos);
        let (t, kept) = sow_g(g, pos);
        lemma_mu_nonneg(t);
    }
}

/// Some pit with index below `n` begins a play that ends at margin `m`.
pub open spec fn att_upto(g: GState, n: int, m: int) -> bool
    decreases mu(g), 1int, n,
    when wf_g(g) && 0 <= n
    via att_upto_dec
{
    n > 0 && (att_via(g, n - 1, m) || att_upto(g, n - 1, m))
}

#[via_fn]
proof fn att_upto_dec(g: GState, n: int, m: int) {
    lemma_mu_nonneg(g);
}

/// `m` is the final margin, for the current mover, of some complete play
/// from `g`: what a search may report even when pruning keeps it from the
/// best play.
pub open spec fn attainable(g: GState, m: int) -> bool
    decreases mu(g), 2int, 0int,
    when wf_g(g)
    via attainable_dec
{
    if finished_g(g) {
        m == margin_g(g)
    } else {
        att_upto(g, g.my.len() as int, m)
    }
}

#[via_fn]
proof fn attainable_dec(g: GState, m: int) {
    lemma_mu_nonneg(g);
}

pub proof fn lemma_att_elim(g: GState, m: int)
    requires
        wf_g(g),
        !finished_g(g),
        attainable(g, m),
    ensures
        exists|pos: int| 0 <= pos < g.my.len() && #[trigger] att_via(g, pos, m),
{
    lemma_att_upto_elim(g, g.my.len() as int, m);
}

proof fn lemma_att_upto_elim(g: GState, n: int, m: int)
    requires
        wf_g(g),
        0 <= n <= g.my.len(),
        att_upto(g, n, m),
    ensures
        exists|pos: int| 0 <= pos < n && #[trigger] att_via(g, pos, m),
    decreases n,
{
    if att_via(g, n - 1, m) {
        assert(0 <= n - 1 < n && att_via(g, n - 1, m));
    } else {
        lemma_att_upto_elim(g, n - 1, m);
    }
}

pub proof fn lemma_att_intro(g: GState, pos: int, m: int)
    requires
        wf_g(g),
        !finished_g(g),
        0 <= pos < g.my.len(),
        att_via(g, pos, m),
    ensures
        attainable(g, m),
{
    lemma_att_upto_intro(g, pos, g.my.len() as int, m);
}

proof fn lemma_att_upto_intro(g: GState, pos: int, n: int, m: int)
    requires
        wf_g(g),
        0 <= pos < n <= g.my.len(),
        att_via(g, pos, m),
    ensures
        att_upto(g, n, m),
    decreases n,
{
    if pos < n - 1 {
        lemma_att_upto_intro(g, pos, n - 1, m);
    }
}

/// A play's margin through a completed turn: whatever the opponent can
/// reach afterwards, negated, the mover can reach now.
pub proof fn lemma_att_turn(g: GState, h: GState, m: int)
    requires
        wf_g(g),
        !finished_g(g),
        turn_succ(g, h),
        attainable(h, m),
    ensures
        attainable(g, -m),
    decreases mu(g),
{
    lemma_mu_nonneg(g);
    lemma_turn_succ_elim(g, h);
    let pos = choose|pos: int| 0 <= pos < g.my.len() && #[trigger] turn_succ_via(g, pos, h);
    lemma_sow(g, pos);
    let (t, kept) = sow_g(g, pos);
    lemma_mu_nonneg(t);
    if kept {
        assert(turn_succ(t, h));
        lemma_att_turn(t, h, m);
        assert(att_via(g, pos, -m));
    } else {
        assert(h == t);
        assert(att_via(g, pos, -m));
    }
    lemma_att_intro(g, pos, -m);
}

/// An attainable margin never strays further from the store margin than
/// the seeds still on the board.
pub proof fn lemma_att_bound(g: GState, m: int)
    requires
        wf_g(g),
        attainable(g, m),
    ensures
        diff_g(g) - pitsum_g(g) <= m <= diff_g(g) + pitsum_g(g),
    decreases mu(g), 2int, 0int,
{
    lemma_mu_nonneg(g);
    lemma_row_sum_nonneg(g.my);
    lemma_row_sum_nonneg(g.op);
    if finished_g(g) {
    } else {
        lemma_att_elim(g, m);
        let pos = choose|pos: int| 0 <= pos < g.my.len() && #[trigger] att_via(g, pos, m);
        lemma_sow(g, pos);
        let (t, kept) = sow_g(g, pos);
        let d: int = sow_delta(g, pos);
        lemma_mu_nonneg(t);
        if kept {
            lemma_att_bound(t, m);
        } else {
            lemma_att_bound(t, -m);
        }
    }
}

/// An attainable margin is a property of the rows and the rule: under
/// different banked stores the same play yields a margin shifted by the
/// difference of the store margins.
pub proof fn lemma_att_stores(ga: GState, gb: GState, m: int)
    requires
        wf_g(ga),
        wf_g(gb),
        ga.my == gb.my,
        ga.op == gb.op,
        ga.rule == gb.rule,
        attainable(ga, m),
    ensures
        attainable(gb, m - diff_g(ga) + diff_g(gb)),
    decreases mu(ga), 2int, 0int,
{
    lemma_mu_nonneg(ga);
    if finished_g(ga) {
        match ga.rule {
            RuleSet::TakeBoth { .. } => {},
            RuleSet::TakeOpposite => {},
        }
    } else {
        lemma_att_elim(ga, m);
        let pos = choose|pos: int| 0 <= pos < ga.my.len() && #[trigger] att_via(ga, pos, m);
        lemma_sow(ga, pos);
        lemma_sow(gb, pos);
        lemma_sow_stores(ga, gb, pos);
        let (ta, kept) = sow_g(ga, pos);
        let (tb, _kb) = sow_g(gb, pos);
        let d: int = sow_delta(ga, pos);
        lemma_mu_nonneg(ta);
        if kept {
            lemma_att_stores(ta, tb, m);
            assert(diff_g(ta) == diff_g(ga) + d && diff_g(tb) == diff_g(gb) + d);
            assert(att_via(gb, pos, m - diff_g(ga) + diff_g(gb)));
        } else {
            lemma_att_stores(ta, tb, -m);
            assert(diff_g(ta) == -(diff_g(ga) + d) && diff_g(tb) == -(diff_g(gb) + d));
            assert(attainable(tb, -m + diff_g(ga) + d - (diff_g(gb) + d)));
            assert(att_via(gb, pos, m - diff_g(ga) + diff_g(gb)));
        }
        lemma_att_intro(gb, pos, m - diff_g(ga) + diff_g(gb));
    }
}


/// Every move of the sequence is legal when its turn comes.
pub open spec fn play_ok(g: GState, ms: Seq<int>) -> bool
    decreases ms.len(),
{
    ms.len() == 0 || (legal_g(g, ms[0]) && play_ok(sow_g(g, ms[0]).0, ms.drop_first()))
}

/// The position after sowing the listed pits in order.
pub open spec fn play(g: GState, ms: Seq<int>) -> GState
    decreases ms.len(),
{
    if ms.len() == 0 {
        g
    } else {
        play(sow_g(g, ms[0]).0, ms.drop_first())
    }
}

/// Conservation: along any legal move sequence the seed total never
/// changes, and the position stays well formed.
pub proof fn lemma_play_conserves(g: GState, ms: Seq<int>)
    requires
        wf_g(g),
        play_ok(g, ms),
    ensures
        wf_g(play(g, ms)),
        total_g(play(g, ms)) == total_g(g),
        pit_count(play(g, ms)) == pit_count(g),
        play(g, ms).rule == g.rule,
    decreases ms.len(),
{
    if ms.len() > 0 {
        lemma_sow(g, ms[0]);
        lemma_play_conserves(sow_g(g, ms[0]).0, ms.drop_first());
    }
}

/// Termination: a legal move sequence can never be longer than the
/// measure of its starting position, so every game ends after finitely
/// many sows.
pub proof fn lemma_play_bounded(g: GState, ms: Seq<int>)
    requires
        wf_g(g),
        play_ok(g, ms),
    ensures
        ms.len() <= mu(g),
    decreases ms.len(),
{
    lemma_mu_nonneg(g);
    if ms.len() > 0 {
        lemma_sow(g, ms[0]);
        lemma_play_bounded(sow_g(g, ms[0]).0, ms.drop_first());
    }
}


/// A turn successor of a position exists with the same rows whatever the
/// stores are: completed turns are a property of rows and rule alone.
pub proof fn lemma_turn_succ_stores(ga: GState, gb: GState, ha: GState)
    requires
        wf_g(ga),
        wf_g(gb),
        ga.my == gb.my,
        ga.op == gb.op,
        ga.rule == gb.rule,
        turn_succ(ga, ha),
    ensures
        exists|hb: GState| #[trigger] turn_succ(gb, hb) && hb.my == ha.my && hb.op == ha.op
            && hb.rule == ha.rule,
    decreases mu(ga),
{
    lemma_mu_nonneg(ga);
    lemma_turn_succ_elim(ga, ha);
    let pos = choose|pos: int| 0 <= pos < ga.my.len() && #[trigger] turn_succ_via(
        ga,
        pos,
        ha,
    );
    lemma_sow(ga, pos);
    lemma_sow(gb, pos);
    lemma_sow_stores(ga, gb, pos);
    let (ta, kept) = sow_g(ga, pos);
    let (tb, _kb) = sow_g(gb, pos);
    lemma_mu_nonneg(ta);
    if kept {
        lemma_turn_succ_stores(ta, tb, ha);
        let hb = choose|hb: GState| #[trigger] turn_succ(tb, hb) && hb.my == ha.my
            && hb.op == ha.op && hb.rule == ha.rule;
        assert(turn_succ_via(gb, pos, hb));
        lemma_turn_succ_intro(gb, pos, hb);
    } else {
        assert(turn_succ_via(gb, pos, tb));
        lemma_turn_succ_intro(gb, pos, tb);
        assert(turn_succ(gb, tb) && tb.my == ha.my && tb.op == ha.op && tb.rule == ha.rule);
    }
}

/// A chain of completed turns: each listed position follows the one
/// before it, and the game is not yet over where a turn is still taken.
pub open spec fn turn_chain(g: GState, hs: Seq<GState>) -> bool {
    &&& (hs.len() >= 1 ==> !finished_g(g) && turn_succ(g, hs[0]))
    &&& forall|i: int| 0 <= i < hs.len() - 1 ==> !finished_g(#[trigger] hs[i]) && turn_succ(
        hs[i],
        hs[i + 1],
    )
}


/// `g` is the root itself or the end of some chain of completed turns
/// from it.
pub open spec fn chain_reached(g0: GState, g: GState) -> bool {
    g == g0 || exists|hs: Seq<GState>| #[trigger] turn_chain(g0, hs) && hs.len() >= 1
        && hs.last() == g
}

/// A chain of completed turns reaches every position along it.
proof fn lemma_chain_walk(a: GState, b: GState, hs: Seq<GState>)
    requires
        chain_reached(a, b),
        turn_chain(b, hs),
        hs.len() >= 1,
    ensures
        chain_reached(a, hs.last()),
    decreases hs.len(),
{
    lemma_chain_step(a, b, hs[0]);
    if hs.len() == 1 {
        assert(hs.last() == hs[0]);
    } else {
        let tail = hs.drop_first();
        assert(turn_chain(hs[0], tail)) by {
            if tail.len() >= 1 {
                assert(!finished_g(hs[0]) && turn_succ(hs[0], hs[1]));
                assert(tail[0] == hs[1]);
            }
            assert forall|i: int| 0 <= i < tail.len() - 1 implies !finished_g(
                #[trigger] tail[i],
            ) && turn_succ(tail[i], tail[i + 1]) by {
                assert(tail[i] == hs[i + 1] && tail[i + 1] == hs[i + 2]);
                assert(!finished_g(hs[i + 1]) && turn_succ(hs[i + 1], hs[i + 2]));
            }
        }
        lemma_chain_walk(a, hs[0], tail);
        assert(tail.last() == hs.last());
    }
}

/// A reachable position keeps the root's rule, configuration and seed
/// total, and stays well formed.
pub proof fn lemma_chain_reached_props(g0: GState, g: GState)
    requires
        wf_g(g0),
        chain_reached(g0, g),
    ensures
        wf_g(g),
        total_g(g) == total_g(g0),
        g.rule == g0.rule,
        pit_count(g) == pit_count(g0),
{
    if g != g0 {
        let hs = choose|hs: Seq<GState>| #[trigger] turn_chain(g0, hs) && hs.len() >= 1
            && hs.last() == g;
        lemma_chain_props_walk(g0, hs);
    }
}

proof fn lemma_chain_props_walk(g0: GState, hs: Seq<GState>)
    requires
        wf_g(g0),
        turn_chain(g0, hs),
        hs.len() >= 1,
    ensures
        wf_g(hs.last()),
        total_g(hs.last()) == total_g(g0),
        hs.last().rule == g0.rule,
        pit_count(hs.last()) == pit_count(g0),
    decreases hs.len(),
{
    lemma_turn_succ_props(g0, hs[0]);
    if hs.len() == 1 {
        assert(hs.last() == hs[0]);
    } else {
        let tail = hs.drop_first();
        assert(turn_chain(hs[0], tail)) by {
            if tail.len() >= 1 {
                assert(!finished_g(hs[0]) && turn_succ(hs[0], hs[1]));
                assert(tail[0] == hs[1]);
            }
            assert forall|i: int| 0 <= i < tail.len() - 1 implies !finished_g(
                #[trigger] tail[i],
            ) && turn_succ(tail[i], tail[i + 1]) by {
                assert(tail[i] == hs[i + 1] && tail[i + 1] == hs[i + 2]);
                assert(!finished_g(hs[i + 1]) && turn_succ(hs[i + 1], hs[i + 2]));
            }
        }
        lemma_chain_props_walk(hs[0], tail);
        assert(tail.last() == hs.last());
    }
}

/// Reachability by chains of completed turns is transitive.
pub proof fn lemma_chain_trans(a: GState, b: GState, c: GState)
    requires
        chain_reached(a, b),
        chain_reached(b, c),
    ensures
        chain_reached(a, c),
{
    if b == c {
    } else {
        let hs = choose|hs: Seq<GState>| #[trigger] turn_chain(b, hs) && hs.len() >= 1
            && hs.last() == c;
        lemma_chain_walk(a, b, hs);
    }
}

/// Reachability extends across one more completed turn.
pub proof fn lemma_chain_step(g0: GState, x: GState, y: GState)
    requires
        chain_reached(g0, x),
        !finished_g(x),
        turn_succ(x, y),
    ensures
        chain_reached(g0, y),
{
    if x == g0 {
        let hs = seq![y];
        assert(hs[0] == y && hs.last() == y && hs.len() == 1);
        assert(turn_chain(g0, hs));
        assert(turn_chain(g0, hs) && hs.len() >= 1 && hs.last() == y);
    } else {
        let hs = choose|hs: Seq<GState>| #[trigger] turn_chain(g0, hs) && hs.len() >= 1
            && hs.last() == x;
        let hs2 = hs.push(y);
        assert(turn_chain(g0, hs2)) by {
            assert(hs2[0] == hs[0]);
            assert forall|i: int| 0 <= i < hs2.len() - 1 implies !finished_g(
                #[trigger] hs2[i],
            ) && turn_succ(hs2[i], hs2[i + 1]) by {
                if i < hs.len() - 1 {
                    assert(hs2[i] == hs[i] && hs2[i + 1] == hs[i + 1]);
                    assert(!finished_g(hs[i]) && turn_succ(hs[i], hs[i + 1]));
                } else {
                    assert(hs2[i] == hs.last() && hs2[i + 1] == y);
                }
            }
        }
        assert(hs2.last() == y && hs2.len() >= 1);
        assert(turn_chain(g0, hs2) && hs2.len() >= 1 && hs2.last() == y);
    }
}

} // verus!
