//! Settlement-mode search: the exact outcome of every position as win,
//! lose or draw together with the plies left to the end, memoized under the
//! packed canonical key.  Cached counts are relative to the caching node;
//! a read adds the reader's depth back.

use vstd::prelude::*;

use crate::board::{key_spec, lemma_bits_for, lemma_key_injective, pow2i, Board, CompactKey};
use crate::db::base::DB;
use crate::db::in_momory::InMemoryDB;
use crate::rules::{
    chain_reached, finished_g, legal_g, lemma_chain_step, lemma_chain_trans,
    lemma_mu_nonneg, lemma_not_finished_has_legal,
    lemma_sow, lemma_sow_stores, lemma_turn_succ_elim, lemma_turn_succ_intro,
    lemma_turn_succ_props, mu, pit_count, sow_g, total_g, turn_succ, turn_succ_via, wf_g,
    GState, RuleSet,
};
use crate::search::score::{
    compact_db_closed, fits_width, keys_reached, lemma_compact_db_closed_node,
    lemma_compact_db_closed_terminal, lemma_compact_store_covers_chains, lemma_key_in_range,
    lemma_small_total_fits_width, new_keys_reached,
};

verus! {

use vstd::std_specs::cmp::PartialOrdSpec;

/// A settled outcome, from the mover's point of view: a forced win or loss
/// in so many plies, or a draw.
#[derive(Debug, Copy, Clone, PartialEq, Eq, Structural)]
pub enum Settlement {
    Win(u32),
    Lose(u32),
    Draw,
}

/// The outcome as the model sees it, with unbounded ply counts.
pub enum SettleView {
    Win(int),
    Lose(int),
    Draw,
}

/// Outcome order: a faster win beats a slower one, a later loss beats an
/// earlier one, and any win beats a draw beats any loss.
pub open spec fn s_le(a: SettleView, b: SettleView) -> bool {
    match (a, b) {
        (SettleView::Win(x), SettleView::Win(y)) => y <= x,
        (SettleView::Lose(x), SettleView::Lose(y)) => x <= y,
        (SettleView::Win(_), _) => false,
        (_, SettleView::Win(_)) => true,
        (SettleView::Draw, SettleView::Draw) => true,
        (SettleView::Lose(_), SettleView::Draw) => true,
        (SettleView::Draw, SettleView::Lose(_)) => false,
    }
}

/// Negation swaps winner and loser and keeps the distance.
pub open spec fn s_neg(a: SettleView) -> SettleView {
    match a {
        SettleView::Win(n) => SettleView::Lose(n),
        SettleView::Lose(n) => SettleView::Win(n),
        SettleView::Draw => SettleView::Draw,
    }
}

/// One more ply on the way to the end.
pub open spec fn s_bump(a: SettleView) -> SettleView {
    match a {
        SettleView::Win(n) => SettleView::Win(n + 1),
        SettleView::Lose(n) => SettleView::Lose(n + 1),
        SettleView::Draw => SettleView::Draw,
    }
}

/// Shift a relative count to an absolute one.
pub open spec fn s_shift(a: SettleView, d: int) -> SettleView {
    match a {
        SettleView::Win(n) => SettleView::Win(n + d),
        SettleView::Lose(n) => SettleView::Lose(n + d),
        SettleView::Draw => SettleView::Draw,
    }
}

pub open spec fn s_plies(a: SettleView) -> int {
    match a {
        SettleView::Win(n) => n,
        SettleView::Lose(n) => n,
        SettleView::Draw => 0,
    }
}

pub open spec fn s_max(a: SettleView, b: SettleView) -> SettleView {
    if s_le(a, b) {
        b
    } else {
        a
    }
}

/// Settlement value of playing pit `pos`: the mover's own continuation on a
/// bonus turn, else the negated opponent outcome one ply later.
pub open spec fn sv_move(g: GState, pos: int) -> SettleView
    decreases mu(g), 0int, 0int,
    when wf_g(g) && legal_g(g, pos)
    via sv_move_dec
{
    let (t, kept) = sow_g(g, pos);
    if kept {
        sv(t)
    } else {
        s_bump(s_neg(sv(t)))
    }
}

#[via_fn]
proof fn sv_move_dec(g: GState, pos: int) {
    lemma_mu_nonneg(g);
    lemma_sow(g, pos);
    let (t, kept) = sow_g(g, pos);
    lemma_mu_nonneg(t);
}

/// Best settlement over the moves at pits `0 .. n`.
pub open spec fn sv_best(g: GState, n: int) -> SettleView
    decreases mu(g), 0int, n,
    when wf_g(g) && 0 <= n <= g.my.len()
    via sv_best_dec
{
    if n <= 0 {
        SettleView::Lose(0)
    } else {
        let rest = sv_best(g, n - 1);
        if g.my[n - 1] > 0 {
            s_max(rest, sv_move(g, n - 1))
        } else {
            rest
        }
    }
}

#[via_fn]
proof fn sv_best_dec(g: GState, n: int) {
    lemma_mu_nonneg(g);
}

/// Exact settlement of a position: the mover of a finished position has
/// lost on the spot; otherwise the best over all legal moves.
pub open spec fn sv(g: GState) -> SettleView
    decreases mu(g), 1int, 0int,
    when wf_g(g)
    via sv_dec
{
    if finished_g(g) {
        SettleView::Lose(0)
    } else {
        sv_best(g, g.my.len() as int)
    }
}

#[via_fn]
proof fn sv_dec(g: GState) {
    lemma_mu_nonneg(g);
}

/// Relative ply counts are non-negative and never exceed the measure.
pub proof fn lemma_sv_plies(g: GState)
    requires
        wf_g(g),
    ensures
        0 <= s_plies(sv(g)) <= mu(g),
    decreases mu(g), 1int, 0int,
{
    lemma_mu_nonneg(g);
    if !finished_g(g) {
        lemma_sv_best_plies(g, g.my.len() as int);
    }
}

proof fn lemma_sv_best_plies(g: GState, n: int)
    requires
        wf_g(g),
        0 <= n <= g.my.len(),
    ensures
        0 <= s_plies(sv_best(g, n)) <= mu(g),
    decreases mu(g), 0int, n,
{
    lemma_mu_nonneg(g);
    if n <= 0 {
    } else {
        lemma_sv_best_plies(g, n - 1);
        if g.my[n - 1] > 0 {
            let pos: int = n - 1;
            lemma_sow(g, pos);
            let (t, kept) = sow_g(g, pos);
            lemma_mu_nonneg(t);
            lemma_sv_plies(t);
            assert(sv_best(g, n) == s_max(sv_best(g, n - 1), sv_move(g, pos)));
            assert(0 <= s_plies(sv_move(g, pos)) <= mu(g));
        } else {
            assert(sv_best(g, n) == sv_best(g, n - 1));
        }
    }
}

/// The settlement never reads the stores: states showing the mover the
/// same rows settle identically, whatever was banked before.
pub proof fn lemma_sv_stores(ga: GState, gb: GState)
    requires
        wf_g(ga),
        wf_g(gb),
        ga.my == gb.my,
        ga.op == gb.op,
        ga.rule == gb.rule,
    ensures
        sv(ga) == sv(gb),
    decreases mu(ga), 1int, 0int,
{
    lemma_mu_nonneg(ga);
    if !finished_g(ga) {
        lemma_sv_best_stores(ga, gb, ga.my.len() as int);
    }
}

proof fn lemma_sv_best_stores(ga: GState, gb: GState, n: int)
    requires
        wf_g(ga),
        wf_g(gb),
        ga.my == gb.my,
        ga.op == gb.op,
        ga.rule == gb.rule,
        0 <= n <= ga.my.len(),
    ensures
        sv_best(ga, n) == sv_best(gb, n),
    decreases mu(ga), 0int, n,
{
    lemma_mu_nonneg(ga);
    if n <= 0 {
    } else {
        lemma_sv_best_stores(ga, gb, n - 1);
        if ga.my[n - 1] > 0 {
            let pos: int = n - 1;
            lemma_sow(ga, pos);
            lemma_sow(gb, pos);
            lemma_sow_stores(ga, gb, pos);
            let (ta, kept) = sow_g(ga, pos);
            let (tb, _kb) = sow_g(gb, pos);
            lemma_mu_nonneg(ta);
            lemma_sv_stores(ta, tb);
            assert(sv_move(ga, pos) == sv_move(gb, pos));
            assert(sv_best(ga, n) == s_max(sv_best(ga, n - 1), sv_move(ga, pos)));
            assert(sv_best(gb, n) == s_max(sv_best(gb, n - 1), sv_move(gb, pos)));
        } else {
            assert(sv_best(ga, n) == sv_best(ga, n - 1));
            assert(sv_best(gb, n) == sv_best(gb, n - 1));
        }
    }
}

/// An unfinished position never settles as an immediate loss: some move is
/// available, and every move's outcome beats losing on the spot.
proof fn lemma_sv_min(g: GState)
    requires
        wf_g(g),
        !finished_g(g),
    ensures
        !s_le(sv(g), SettleView::Lose(0)),
    decreases mu(g), 1int, 0int,
{
    lemma_mu_nonneg(g);
    lemma_not_finished_has_legal(g);
    lemma_sv_best_min(g, g.my.len() as int);
}

proof fn lemma_sv_best_min(g: GState, n: int)
    requires
        wf_g(g),
        !finished_g(g),
        0 <= n <= g.my.len(),
        crate::rules::has_legal_below(g, n),
    ensures
        !s_le(sv_best(g, n), SettleView::Lose(0)),
    decreases mu(g), 0int, n,
{
    lemma_mu_nonneg(g);
    let k: int = n - 1;
    if g.my[k] > 0 {
        lemma_sow(g, k);
        let (t, kept) = sow_g(g, k);
        lemma_mu_nonneg(t);
        lemma_sv_plies(t);
        if kept {
            lemma_sv_min(t);
        }
        assert(!s_le(sv_move(g, k), SettleView::Lose(0)));
        assert(sv_best(g, n) == s_max(sv_best(g, k), sv_move(g, k)));
    } else {
        assert(crate::rules::has_legal_below(g, k));
        lemma_sv_best_min(g, k);
        assert(sv_best(g, n) == sv_best(g, k));
    }
}

proof fn lemma_sv_best_ge(g: GState, n: int, pos: int)
    requires
        wf_g(g),
        0 <= pos < n <= g.my.len(),
        legal_g(g, pos),
    ensures
        s_le(sv_move(g, pos), sv_best(g, n)),
    decreases n,
{
    if pos < n - 1 {
        lemma_sv_best_ge(g, n - 1, pos);
    }
}

proof fn lemma_sv_best_attained(g: GState, n: int)
    requires
        wf_g(g),
        0 <= n <= g.my.len(),
        crate::rules::has_legal_below(g, n),
    ensures
        exists|pos: int| 0 <= pos < n && #[trigger] legal_g(g, pos) && sv_best(g, n)
            == sv_move(g, pos),
    decreases n,
{
    let k: int = n - 1;
    if g.my[k] > 0 {
        if crate::rules::has_legal_below(g, k) {
            lemma_sv_best_attained(g, k);
            let prev = choose|pos: int| 0 <= pos < k && #[trigger] legal_g(g, pos)
                && sv_best(g, k) == sv_move(g, pos);
            if s_le(sv_best(g, k), sv_move(g, k)) {
                assert(legal_g(g, k) && sv_best(g, n) == sv_move(g, k));
            } else {
                assert(legal_g(g, prev) && sv_best(g, n) == sv_move(g, prev));
            }
        } else {
            lemma_sv_best_floor(g, k);
            lemma_sow(g, k);
            let (t, kept) = sow_g(g, k);
            lemma_mu_nonneg(t);
            lemma_sv_plies(t);
            if kept {
                lemma_sv_min(t);
            }
            assert(!s_le(sv_move(g, k), SettleView::Lose(0)));
            assert(legal_g(g, k) && sv_best(g, n) == sv_move(g, k));
        }
    } else {
        assert(crate::rules::has_legal_below(g, k));
        lemma_sv_best_attained(g, k);
    }
}

proof fn lemma_sv_best_floor(g: GState, n: int)
    requires
        wf_g(g),
        0 <= n <= g.my.len(),
        !crate::rules::has_legal_below(g, n),
    ensures
        sv_best(g, n) == SettleView::Lose(0),
    decreases n,
{
    if n > 0 {
        assert(!(g.my[n - 1] > 0));
        assert(crate::rules::has_legal_below(g, n - 1) ==> crate::rules::has_legal_below(
            g,
            n,
        ));
        lemma_sv_best_floor(g, n - 1);
    }
}

/// Negamax over completed turns for settlements: the outcome of an
/// unfinished position is the best over its turn successors of the negated
/// successor outcome one ply later, and the best is attained.
pub proof fn lemma_sv_turns(g: GState)
    requires
        wf_g(g),
        !finished_g(g),
    ensures
        forall|h: GState| #[trigger] turn_succ(g, h) ==> s_le(s_bump(s_neg(sv(h))), sv(g)),
        exists|h: GState| #[trigger] turn_succ(g, h) && sv(g) == s_bump(s_neg(sv(h))),
    decreases mu(g),
{
    lemma_mu_nonneg(g);
    lemma_not_finished_has_legal(g);
    let p: int = g.my.len() as int;

    assert forall|h: GState| #[trigger] turn_succ(g, h) implies s_le(
        s_bump(s_neg(sv(h))),
        sv(g),
    ) by {
        lemma_turn_succ_elim(g, h);
        let pos = choose|pos: int| 0 <= pos < g.my.len() && #[trigger] turn_succ_via(
            g,
            pos,
            h,
        );
        lemma_sow(g, pos);
        let (t, kept) = sow_g(g, pos);
        lemma_mu_nonneg(t);
        lemma_sv_best_ge(g, p, pos);
        if kept {
            assert(turn_succ(t, h));
            lemma_sv_turns(t);
            assert(s_le(s_bump(s_neg(sv(h))), sv(t)));
        }
    }

    lemma_sv_best_attained(g, p);
    let pos = choose|pos: int| 0 <= pos < p && #[trigger] legal_g(g, pos) && sv_best(g, p)
        == sv_move(g, pos);
    lemma_sow(g, pos);
    let (t, kept) = sow_g(g, pos);
    lemma_mu_nonneg(t);
    if kept {
        lemma_sv_turns(t);
        let h = choose|h: GState| #[trigger] turn_succ(t, h) && sv(t) == s_bump(
            s_neg(sv(h)),
        );
        assert(turn_succ_via(g, pos, h));
        lemma_turn_succ_intro(g, pos, h);
        assert(turn_succ(g, h) && sv(g) == s_bump(s_neg(sv(h))));
    } else {
        assert(turn_succ_via(g, pos, t));
        lemma_turn_succ_intro(g, pos, t);
        assert(turn_succ(g, t) && sv(g) == s_bump(s_neg(sv(t))));
    }
}

impl Settlement {
    /// The outcome this value stands for.
    pub open spec fn view_s(self) -> SettleView {
        match self {
            Settlement::Win(n) => SettleView::Win(n as int),
            Settlement::Lose(n) => SettleView::Lose(n as int),
            Settlement::Draw => SettleView::Draw,
        }
    }

    /// The least possible outcome: losing on the spot.
    pub fn min() -> (r: Settlement)
        ensures
            r == Settlement::Lose(0u32),
    {
        Settlement::Lose(0)
    }

    /// The same outcome for the other side.
    pub fn neg(self) -> (r: Settlement)
        ensures
            r.view_s() == s_neg(self.view_s()),
    {
        match self {
            Settlement::Win(t) => Settlement::Lose(t),
            Settlement::Lose(t) => Settlement::Win(t),
            Settlement::Draw => Settlement::Draw,
        }
    }

    /// The same outcome, `d` plies further from the end.
    pub fn plus_plies(self, d: u32) -> (r: Settlement)
        requires
            s_plies(self.view_s()) + d <= u32::MAX,
        ensures
            r.view_s() == s_shift(self.view_s(), d as int),
    {
        match self {
            Settlement::Win(n) => Settlement::Win(n + d),
            Settlement::Lose(n) => Settlement::Lose(n + d),
            Settlement::Draw => Settlement::Draw,
        }
    }

    /// The same outcome, `d` plies closer to the end.
    pub fn minus_plies(self, d: u32) -> (r: Settlement)
        requires
            s_plies(self.view_s()) >= d || self is Draw,
        ensures
            r.view_s() == s_shift(self.view_s(), -(d as int)),
    {
        match self {
            Settlement::Win(n) => Settlement::Win(n - d),
            Settlement::Lose(n) => Settlement::Lose(n - d),
            Settlement::Draw => Settlement::Draw,
        }
    }

    /// The outcome's kind, written out.
    pub fn describe(&self) -> (r: String) {
        match self {
            Settlement::Win(_) => "Win".to_string(),
            Settlement::Lose(_) => "Lose".to_string(),
            Settlement::Draw => "Draw".to_string(),
        }
    }
}

impl PartialOrd for Settlement {
    /// The settlement order of the two outcomes.
    fn partial_cmp(&self, other: &Self) -> (r: Option<core::cmp::Ordering>) {
        match (self, other) {
            (Settlement::Win(a), Settlement::Win(b)) => Some(if *b < *a {
                core::cmp::Ordering::Less
            } else if *b == *a {
                core::cmp::Ordering::Equal
            } else {
                core::cmp::Ordering::Greater
            }),
            (Settlement::Lose(a), Settlement::Lose(b)) => Some(if *a < *b {
                core::cmp::Ordering::Less
            } else if *a == *b {
                core::cmp::Ordering::Equal
            } else {
                core::cmp::Ordering::Greater
            }),
            (Settlement::Win(_), _) => Some(core::cmp::Ordering::Greater),
            (Settlement::Lose(_), _) => Some(core::cmp::Ordering::Less),
            (Settlement::Draw, Settlement::Win(_)) => Some(core::cmp::Ordering::Less),
            (Settlement::Draw, Settlement::Lose(_)) => Some(core::cmp::Ordering::Greater),
            (Settlement::Draw, Settlement::Draw) => Some(core::cmp::Ordering::Equal),
        }
    }
}

impl vstd::std_specs::cmp::PartialOrdSpecImpl for Settlement {
    open spec fn obeys_partial_cmp_spec() -> bool {
        true
    }

    open spec fn partial_cmp_spec(&self, other: &Self) -> Option<core::cmp::Ordering> {
        match (*self, *other) {
            (Settlement::Win(a), Settlement::Win(b)) => Some(
                if b < a {
                    core::cmp::Ordering::Less
                } else if b == a {
                    core::cmp::Ordering::Equal
                } else {
                    core::cmp::Ordering::Greater
                },
            ),
            (Settlement::Lose(a), Settlement::Lose(b)) => Some(
                if a < b {
                    core::cmp::Ordering::Less
                } else if a == b {
                    core::cmp::Ordering::Equal
                } else {
                    core::cmp::Ordering::Greater
                },
            ),
            (Settlement::Win(_), _) => Some(core::cmp::Ordering::Greater),
            (Settlement::Lose(_), _) => Some(core::cmp::Ordering::Less),
            (Settlement::Draw, Settlement::Win(_)) => Some(core::cmp::Ordering::Less),
            (Settlement::Draw, Settlement::Lose(_)) => Some(core::cmp::Ordering::Greater),
            (Settlement::Draw, Settlement::Draw) => Some(core::cmp::Ordering::Equal),
        }
    }
}

/// The settlement order agrees with the model order.
pub proof fn lemma_cmp_matches(a: Settlement, b: Settlement)
    ensures
        (a.partial_cmp_spec(&b) matches Some(o) && (o is Less || o is Equal)) <==> s_le(
            a.view_s(),
            b.view_s(),
        ),
        a.partial_cmp_spec(&b) is Some,
{
}

/// The settlement laws: a faster win beats a slower one, a later loss
/// beats an earlier one, any win beats a draw and a draw beats any loss,
/// and negation pairs wins with losses at the same distance.
pub proof fn lemma_settlement_laws(a: int, b: int)
    ensures
        s_le(SettleView::Win(b), SettleView::Win(a)) <==> a <= b,
        s_le(SettleView::Lose(a), SettleView::Lose(b)) <==> a <= b,
        !s_le(SettleView::Win(a), SettleView::Draw),
        s_le(SettleView::Draw, SettleView::Win(a)),
        s_le(SettleView::Lose(a), SettleView::Draw),
        !s_le(SettleView::Draw, SettleView::Lose(a)),
        s_le(SettleView::Lose(a), SettleView::Win(b)),
        s_neg(SettleView::Win(a)) == SettleView::Lose(a),
        s_neg(SettleView::Lose(a)) == SettleView::Win(a),
        s_neg(SettleView::Draw) == SettleView::Draw,
{
}


/// The settlement order is total.
proof fn lemma_s_le_total(a: SettleView, b: SettleView)
    ensures
        s_le(a, b) || s_le(b, a),
        s_le(a, b) && s_le(b, a) ==> a == b,
{
}

/// What a settlement store may hold: under each key, the exact settlement,
/// relative to the cached node, of every position of this configuration
/// with that key.
pub open spec fn clean_db_ok(m: Map<u64, Settlement>, rule: RuleSet, p: int, w: nat) -> bool {
    forall|g: GState, k: u64| wf_g(g) && g.rule == rule && pit_count(g) == p && fits_width(
        g,
        w,
    ) && #[trigger] m.contains_key(k) && k as int == #[trigger] key_spec(g, w)
        ==> m[k].view_s() == sv(g)
}

proof fn lemma_clean_store_covers(
    m1: Map<u64, Settlement>,
    m2: Map<u64, Settlement>,
    root: Board,
    k: u64,
)
    requires
        root.wf(),
        root.fits_u64(),
        clean_db_ok(m1, root.gv().rule, root.spec_pit_count(), root.key_width()),
        keys_reached(root, m1),
        clean_db_ok(m2, root.gv().rule, root.spec_pit_count(), root.key_width()),
        compact_db_closed(m2, root.gv().rule, root.spec_pit_count(), root.key_width()),
        m2.contains_key((key_spec(root.gv(), root.key_width())) as u64),
        m1.contains_key(k),
    ensures
        m2.contains_key(k),
        m1[k] == m2[k],
{
    let w: nat = root.key_width();
    let p: int = root.spec_pit_count();
    let rule: RuleSet = root.gv().rule;
    root.lemma_counts();
    root.lemma_pits_fit_width();
    lemma_bits_for(2 * root.spec_pit_count() * root.spec_seeds());
    assert(total_g(root.gv()) < pow2i(w));
    let h = choose|h: GState| #[trigger] crate::rules::chain_reached(root.gv(), h) && k as int
        == key_spec(h, w);
    crate::rules::lemma_chain_reached_props(root.gv(), h);
    lemma_small_total_fits_width(h, w);
    lemma_key_in_range(h, w);
    assert(k == (key_spec(h, w)) as u64);
    if h != root.gv() {
        let hs = choose|hs: Seq<GState>| #[trigger] crate::rules::turn_chain(root.gv(), hs)
            && hs.len() >= 1 && hs.last() == h;
        lemma_compact_store_covers_chains(m2, rule, p, w, root.gv(), hs);
        assert(m2.contains_key((key_spec(hs.last(), w)) as u64));
    }
    assert(m1[k].view_s() == sv(h));
    assert(m2[k].view_s() == sv(h));
}

/// Convergence of completed settlement stores: two stores whose entries
/// are exact, closed under completed turns, holding the root, and holding
/// only reachable keys, are one and the same mapping, whatever the worker
/// or shard count.
pub proof fn lemma_clean_stores_agree(
    m1: Map<u64, Settlement>,
    m2: Map<u64, Settlement>,
    root: Board,
)
    requires
        root.wf(),
        root.fits_u64(),
        clean_db_ok(m1, root.gv().rule, root.spec_pit_count(), root.key_width()),
        compact_db_closed(m1, root.gv().rule, root.spec_pit_count(), root.key_width()),
        m1.contains_key((key_spec(root.gv(), root.key_width())) as u64),
        keys_reached(root, m1),
        clean_db_ok(m2, root.gv().rule, root.spec_pit_count(), root.key_width()),
        compact_db_closed(m2, root.gv().rule, root.spec_pit_count(), root.key_width()),
        m2.contains_key((key_spec(root.gv(), root.key_width())) as u64),
        keys_reached(root, m2),
    ensures
        m1 == m2,
{
    assert forall|k: u64| #[trigger] m1.contains_key(k) implies m2.contains_key(k) && m1[k]
        == m2[k] by {
        lemma_clean_store_covers(m1, m2, root, k);
    }
    assert forall|k: u64| #[trigger] m2.contains_key(k) implies m1.contains_key(k) by {
        lemma_clean_store_covers(m2, m1, root, k);
    }
    assert(m1 =~= m2);
}

/// Inserting the exact relative settlement keeps the store consistent.
proof fn lemma_clean_db_insert_ok(
    m0: Map<u64, Settlement>,
    m1: Map<u64, Settlement>,
    g: GState,
    k: u64,
    v: Settlement,
    rule: RuleSet,
    p: int,
    w: nat,
)
    requires
        clean_db_ok(m0, rule, p, w),
        wf_g(g),
        g.rule == rule,
        pit_count(g) == p,
        fits_width(g, w),
        k as int == key_spec(g, w),
        v.view_s() == sv(g),
        m1 == m0.insert(k, v),
    ensures
        clean_db_ok(m1, rule, p, w),
{
    assert forall|g2: GState, k2: u64| wf_g(g2) && g2.rule == rule && pit_count(g2) == p
        && fits_width(g2, w) && #[trigger] m1.contains_key(k2) && k2 as int
        == #[trigger] key_spec(g2, w) implies m1[k2].view_s() == sv(g2) by {
        if k2 == k {
            lemma_key_injective(g, g2, w);
            lemma_sv_stores(g, g2);
        } else {
            assert(m0.contains_key(k2));
        }
    }
}

/// One worker's pass: the exact settlement of `board`, with ply counts
/// measured from the root (`depth` plies above this node), memoized in
/// `db` relative to each cached node.
fn search_worker<D: DB<u64, Settlement>>(db: &mut D, board: &Board, depth: u32) -> (r:
    Settlement)
    requires
        old(db).inv(),
        board.wf(),
        board.fits_u64(),
        clean_db_ok(
            old(db).model(),
            board.gv().rule,
            board.spec_pit_count(),
            board.key_width(),
        ),
        compact_db_closed(
            old(db).model(),
            board.gv().rule,
            board.spec_pit_count(),
            board.key_width(),
        ),
        depth + mu(board.gv()) <= u32::MAX,
    ensures
        final(db).inv(),
        clean_db_ok(
            final(db).model(),
            board.gv().rule,
            board.spec_pit_count(),
            board.key_width(),
        ),
        compact_db_closed(
            final(db).model(),
            board.gv().rule,
            board.spec_pit_count(),
            board.key_width(),
        ),
        r.view_s() == s_shift(sv(board.gv()), depth as int),
        old(db).model().submap_of(final(db).model()),
        final(db).model().contains_key((key_spec(board.gv(), board.key_width())) as u64),
        new_keys_reached(
            board.gv(),
            board.key_width(),
            old(db).model(),
            final(db).model(),
        ),
    decreases mu(board.gv()),
{
    proof {
        board.lemma_counts();
        board.lemma_pits_fit_width();
        lemma_mu_nonneg(board.gv());
        lemma_sv_plies(board.gv());
        lemma_bits_for(2 * board.spec_pit_count() * board.spec_seeds());
        assert(total_g(board.gv()) < pow2i(board.key_width()));
    }
    let ghost g: GState = board.gv();
    let ghost rule: RuleSet = g.rule;
    let ghost p: int = board.spec_pit_count();
    let ghost w: nat = board.key_width();
    let key = board.key();
    match db.get(&key) {
        Some(score) => {
            proof {
                assert(score.view_s() == sv(g));
            }
            return score.plus_plies(depth);
        },
        None => {},
    }
    if board.is_finished() {
        db.set(key, Settlement::min());
        proof {
            lemma_clean_db_insert_ok(
                old(db).model(),
                db.model(),
                g,
                key,
                Settlement::Lose(0u32),
                rule,
                p,
                w,
            );
            lemma_compact_db_closed_terminal(
                old(db).model(),
                db.model(),
                g,
                key,
                Settlement::Lose(0u32),
                rule,
                p,
                w,
            );
            assert forall|k: u64| #[trigger] db.model().contains_key(k) && !old(
                db,
            ).model().contains_key(k) implies exists|h: GState| #[trigger] chain_reached(
                g,
                h,
            ) && k as int == key_spec(h, w) by {
                assert(k == key);
                assert(chain_reached(g, g) && k as int == key_spec(g, w));
            }
        }
        return Settlement::Lose(depth);
    }
    let nexts = board.list_next();
    let mut best = Settlement::min();
    let mut i: usize = 0;
    let ghost m0: Map<u64, Settlement> = db.model();
    while i < nexts.len()
        invariant
            0 <= i <= nexts@.len(),
            board.wf(),
            board.fits_u64(),
            g == board.gv(),
            rule == g.rule,
            p == board.spec_pit_count(),
            w == board.key_width(),
            !finished_g(g),
            wf_g(g),
            depth + mu(g) <= u32::MAX,
            forall|j: int| 0 <= j < nexts@.len() ==> crate::board::next_of(
                *board,
                #[trigger] nexts@[j],
            ),
            db.inv(),
            clean_db_ok(db.model(), rule, p, w),
            compact_db_closed(db.model(), rule, p, w),
            m0.submap_of(db.model()),
            new_keys_reached(g, w, old(db).model(), db.model()),
            total_g(g) < pow2i(w),
            forall|j: int| 0 <= j < i ==> db.model().contains_key(
                (key_spec(#[trigger] nexts@[j].gv(), w)) as u64,
            ),
            forall|j: int| 0 <= j < i ==> s_le(
                s_shift(s_bump(s_neg(sv(#[trigger] nexts@[j].gv()))), depth as int),
                best.view_s(),
            ),
            best.view_s() == SettleView::Lose(0) || exists|j: int| 0 <= j < i
                && best.view_s() == s_shift(
                s_bump(s_neg(sv(#[trigger] nexts@[j].gv()))),
                depth as int,
            ),
        decreases nexts@.len() - i,
    {
        let ghost mpre: Map<u64, Settlement> = db.model();
        proof {
            board.lemma_counts();
            assert(crate::board::next_of(*board, nexts@[i as int]));
            lemma_turn_succ_props(g, nexts@[i as int].gv());
            lemma_mu_nonneg(nexts@[i as int].gv());
            nexts@[i as int].lemma_counts();
            lemma_sv_plies(nexts@[i as int].gv());
            assert(nexts@[i as int].key_width() == w);
            assert(nexts@[i as int].fits_u64());
        }
        let s = search_worker(db, &nexts[i], depth + 1);
        let score = s.neg();
        proof {
            assert(score.view_s() == s_shift(
                s_bump(s_neg(sv(nexts@[i as int].gv()))),
                depth as int,
            ));
            lemma_cmp_matches(best, score);
            lemma_cmp_matches(score, best);
            lemma_s_le_total(best.view_s(), score.view_s());
        }
        if best < score {
            best = score;
        }
        proof {
            vstd::map_lib::lemma_submap_of_trans(m0, mpre, db.model());
            assert forall|j: int| 0 <= j < i + 1 implies db.model().contains_key(
                (key_spec(#[trigger] nexts@[j].gv(), w)) as u64,
            ) by {
                if j < i {
                    assert(mpre.contains_key((key_spec(nexts@[j].gv(), w)) as u64));
                    assert(mpre.submap_of(db.model()));
                }
            }
            assert forall|k: u64| #[trigger] db.model().contains_key(k) && !old(
                db,
            ).model().contains_key(k) implies exists|h: GState| #[trigger] chain_reached(
                g,
                h,
            ) && k as int == key_spec(h, w) by {
                if !mpre.contains_key(k) {
                    let h = choose|h: GState| #[trigger] chain_reached(
                        nexts@[i as int].gv(),
                        h,
                    ) && k as int == key_spec(h, w);
                    assert(chain_reached(g, g));
                    lemma_chain_step(g, g, nexts@[i as int].gv());
                    lemma_chain_trans(g, nexts@[i as int].gv(), h);
                    assert(chain_reached(g, h) && k as int == key_spec(h, w));
                }
            }
        }
        i = i + 1;
    }
    proof {
        board.lemma_counts();
        lemma_sv_turns(g);
        lemma_sv_min(g);
        let hw = choose|h: GState| #[trigger] turn_succ(g, h) && sv(g) == s_bump(
            s_neg(sv(h)),
        );
        assert(crate::board::covers(nexts@, hw));
        let wi = choose|wi: int| 0 <= wi < nexts@.len() && #[trigger] nexts@[wi].gv() == hw;
        assert(s_le(s_shift(sv(g), depth as int), best.view_s()));
        if best.view_s() == SettleView::Lose(0) {
            lemma_sv_plies(g);
            assert(false);
        }
        let j = choose|j: int| 0 <= j < nexts@.len() && best.view_s() == s_shift(
            s_bump(s_neg(sv(#[trigger] nexts@[j].gv()))),
            depth as int,
        );
        assert(turn_succ(g, nexts@[j].gv()));
        assert(s_le(s_bump(s_neg(sv(nexts@[j].gv()))), sv(g)));
        lemma_s_le_total(best.view_s(), s_shift(sv(g), depth as int));
        assert(best.view_s() == s_shift(sv(g), depth as int));
        lemma_sv_plies(g);
    }
    let ghost mpre2: Map<u64, Settlement> = db.model();
    let key2 = board.key();
    let delta = best.minus_plies(depth);
    db.set(key2, delta);
    proof {
        assert forall|h: GState| #[trigger] turn_succ(g, h) implies mpre2.contains_key(
            (key_spec(h, w)) as u64,
        ) by {
            assert(crate::board::covers(nexts@, h));
            let j = choose|j: int| 0 <= j < nexts@.len() && #[trigger] nexts@[j].gv() == h;
            assert(mpre2.contains_key((key_spec(nexts@[j].gv(), w)) as u64));
        }
        lemma_clean_db_insert_ok(mpre2, db.model(), g, key2, delta, rule, p, w);
        lemma_compact_db_closed_node(mpre2, db.model(), g, key2, delta, rule, p, w);
        vstd::map_lib::lemma_submap_of_trans(m0, mpre2, db.model());
        assert forall|k: u64| #[trigger] db.model().contains_key(k) && !old(
            db,
        ).model().contains_key(k) implies exists|h: GState| #[trigger] chain_reached(
            g,
            h,
        ) && k as int == key_spec(h, w) by {
            if !mpre2.contains_key(k) {
                assert(k == key2);
                assert(chain_reached(g, g) && k as int == key_spec(g, w));
            }
        }
    }
    best
}

/// Fill a fresh sharded store with the exact settlement of every position
/// the workers reach from `board`.  Each worker reuses what the previous
/// ones settled; with no worker at all the store comes back empty.
pub fn search_clean(board: Board, threads: usize, div: usize) -> (db: InMemoryDB<
    u64,
    Settlement,
>)
    requires
        board.wf(),
        board.fits_u64(),
        1 <= div,
    ensures
        db.inv(),
        clean_db_ok(db.model(), board.gv().rule, board.spec_pit_count(), board.key_width()),
        compact_db_closed(
            db.model(),
            board.gv().rule,
            board.spec_pit_count(),
            board.key_width(),
        ),
        threads >= 1 ==> db.model().contains_key(
            (key_spec(board.gv(), board.key_width())) as u64,
        ),
        threads >= 1 ==> db.model()[(key_spec(board.gv(), board.key_width())) as u64].view_s()
            == sv(board.gv()),
        threads == 0 ==> db.model() == Map::<u64, Settlement>::empty(),
        keys_reached(board, db.model()),
{
    let mut db: InMemoryDB<u64, Settlement> = InMemoryDB::new(div);
    let mut t: usize = 0;
    proof {
        board.lemma_mu_bound();
    }
    while t < threads
        invariant
            board.wf(),
            board.fits_u64(),
            mu(board.gv()) <= 0x200000,
            db.inv(),
            clean_db_ok(
                db.model(),
                board.gv().rule,
                board.spec_pit_count(),
                board.key_width(),
            ),
            compact_db_closed(
                db.model(),
                board.gv().rule,
                board.spec_pit_count(),
                board.key_width(),
            ),
            t >= 1 ==> db.model().contains_key(
                (key_spec(board.gv(), board.key_width())) as u64,
            ),
            0 <= t <= threads,
            t == 0 ==> db.model() == Map::<u64, Settlement>::empty(),
            keys_reached(board, db.model()),
        decreases threads - t,
    {
        let ghost mpre: Map<u64, Settlement> = db.model();
        search_worker(&mut db, &board, 0);
        proof {
            assert forall|k: u64| #[trigger] db.model().contains_key(k) implies exists|
                h: GState,
            | #[trigger] chain_reached(board.gv(), h) && k as int == key_spec(
                h,
                board.key_width(),
            ) by {
                if !mpre.contains_key(k) {
                    assert(exists|h: GState| #[trigger] chain_reached(board.gv(), h)
                        && k as int == key_spec(h, board.key_width()));
                }
            }
        }
        t = t + 1;
    }
    proof {
        if threads >= 1 {
            board.lemma_counts();
            board.lemma_pits_fit_width();
            lemma_bits_for(2 * board.spec_pit_count() * board.spec_seeds());
            crate::search::score::lemma_key_in_range(board.gv(), board.key_width());
            let k: u64 = (key_spec(board.gv(), board.key_width())) as u64;
            assert(db.model().contains_key(k));
            assert(k as int == key_spec(board.gv(), board.key_width()));
        }
    }
    db
}

} // verus!
