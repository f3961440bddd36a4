//! Exact negamax search over the dynamic-size board, memoized in a
//! transposition store keyed by the canonical byte key.

use vstd::prelude::*;

use crate::db::base::DB;
use crate::game::{key_of, lemma_key_of_injective, Board};
use crate::rules::{
    chain_reached, diff_g, finished_g, lemma_chain_step, lemma_chain_trans,
    lemma_elem_le_row_sum, lemma_mu_nonneg, lemma_row_sum_nonneg,
    lemma_seq_int, lemma_turn_succ_props, lemma_turn_succ_stores, lemma_value_bound,
    lemma_value_stores, lemma_value_turns, mu, total_g, turn_chain, turn_succ,
    value, wf_g, GState, RuleSet,
};

verus! {

/// Rows whose pits all fit in a byte, as every board's rows do.
pub open spec fn byte_rows(g: GState) -> bool {
    &&& forall|i: int| 0 <= i < g.my.len() ==> #[trigger] g.my[i] <= 255
    &&& forall|i: int| 0 <= i < g.op.len() ==> #[trigger] g.op[i] <= 255
}

/// What the store is allowed to hold: under each key, the exact value of
/// every position with that key, normalized by the banked margin.  Two
/// positions share a key exactly when they show the mover the same rows, and
/// normalization makes their entries agree whatever their stores.
pub open spec fn db_ok(m: Map<Seq<u8>, i8>) -> bool {
    forall|g: GState| wf_g(g) && byte_rows(g) && g.rule == RuleSet::TakeOpposite
        && #[trigger] m.contains_key(key_of(g)) ==> m[key_of(g)] as int == value(g) - diff_g(
        g,
    )
}

/// The store's keys are closed under completed turns: whatever unfinished
/// position an entry covers, every position one turn ahead of it is
/// entered too.  Together with the root's entry this makes the store
/// complete for the whole reachable graph.
pub open spec fn db_closed(m: Map<Seq<u8>, i8>) -> bool {
    forall|g: GState, h: GState| wf_g(g) && byte_rows(g) && g.rule == RuleSet::TakeOpposite
        && !finished_g(g) && #[trigger] m.contains_key(key_of(g)) && #[trigger] turn_succ(
        g,
        h,
    ) ==> m.contains_key(key_of(h))
}

/// Every key the store gained between the two snapshots is the key of some
/// position reachable from `g0` by chains of completed turns.  Together
/// with closure and the root's entry this pins the key set of a store built
/// from scratch: exactly the keys of the reachable positions.
pub open spec fn new_keys_reached(g0: GState, m0: Map<Seq<u8>, i8>, m1: Map<Seq<u8>, i8>) -> bool {
    forall|k: Seq<u8>| #[trigger] m1.contains_key(k) && !m0.contains_key(k) ==> exists|h: GState|
        #[trigger] chain_reached(g0, h) && k == key_of(h)
}

/// Every pit of a position with a small seed total fits a byte.
pub proof fn lemma_small_total_byte_rows(g: GState)
    requires
        wf_g(g),
        total_g(g) <= 255,
    ensures
        byte_rows(g),
{
    lemma_row_sum_nonneg(g.my);
    lemma_row_sum_nonneg(g.op);
    assert forall|i: int| 0 <= i < g.my.len() implies #[trigger] g.my[i] <= 255 by {
        lemma_elem_le_row_sum(g.my, i);
    }
    assert forall|i: int| 0 <= i < g.op.len() implies #[trigger] g.op[i] <= 255 by {
        lemma_elem_le_row_sum(g.op, i);
    }
}

/// Completeness of a closed store: once the root of a chain of completed
/// turns is entered, every position along the chain is entered too.
pub proof fn lemma_store_covers_chains(m: Map<Seq<u8>, i8>, g: GState, hs: Seq<GState>)
    requires
        db_closed(m),
        wf_g(g),
        total_g(g) <= 255,
        g.rule == RuleSet::TakeOpposite,
        m.contains_key(key_of(g)),
        turn_chain(g, hs),
    ensures
        forall|i: int| 0 <= i < hs.len() ==> m.contains_key(key_of(#[trigger] hs[i])),
    decreases hs.len(),
{
    if hs.len() >= 1 {
        let h0 = hs[0];
        lemma_small_total_byte_rows(g);
        assert(m.contains_key(key_of(h0)));
        lemma_turn_succ_props(g, h0);
        let tail = hs.drop_first();
        assert(turn_chain(h0, tail)) by {
            if tail.len() >= 1 {
                assert(!finished_g(hs[0]) && turn_succ(hs[0], hs[1]));
                assert(tail[0] == hs[1]);
            }
            assert forall|i: int| 0 <= i < tail.len() - 1 implies !finished_g(
                #[trigger] tail[i],
            ) && turn_succ(tail[i], tail[i + 1]) by {
                assert(tail[i] == hs[i + 1] && tail[i + 1] == hs[i + 2]);
                assert(!finished_g(hs[i + 1]) && turn_succ(hs[i + 1], hs[i + 2]));
            }
        }
        lemma_store_covers_chains(m, h0, tail);
        assert forall|i: int| 0 <= i < hs.len() implies m.contains_key(
            key_of(#[trigger] hs[i]),
        ) by {
            if i >= 1 {
                assert(tail[i - 1] == hs[i]);
                assert(m.contains_key(key_of(tail[i - 1])));
            }
        }
    }
}

proof fn lemma_complete_store_covers(
    m1: Map<Seq<u8>, i8>,
    m2: Map<Seq<u8>, i8>,
    g0: GState,
    k: Seq<u8>,
)
    requires
        wf_g(g0),
        total_g(g0) <= 255,
        g0.rule == RuleSet::TakeOpposite,
        db_ok(m1),
        db_ok(m2),
        db_closed(m2),
        m2.contains_key(key_of(g0)),
        new_keys_reached(g0, Map::<Seq<u8>, i8>::empty(), m1),
        m1.contains_key(k),
    ensures
        m2.contains_key(k),
        m1[k] == m2[k],
{
    assert(!Map::<Seq<u8>, i8>::empty().contains_key(k));
    let h = choose|h: GState| #[trigger] chain_reached(g0, h) && k == key_of(h);
    crate::rules::lemma_chain_reached_props(g0, h);
    lemma_small_total_byte_rows(h);
    if h != g0 {
        let hs = choose|hs: Seq<GState>| #[trigger] turn_chain(g0, hs) && hs.len() >= 1
            && hs.last() == h;
        lemma_store_covers_chains(m2, g0, hs);
        assert(m2.contains_key(key_of(hs.last())));
    }
    assert(m1[k] as int == value(h) - diff_g(h));
    assert(m2[k] as int == value(h) - diff_g(h));
}

/// Convergence of complete stores: two stores whose entries are exact,
/// closed under completed turns, holding the root, and holding only
/// reachable keys, are one and the same mapping.  In particular the worker
/// pool and the single-threaded searcher fill identical stores from a fresh
/// one, whatever the worker count.
pub proof fn lemma_complete_stores_agree(
    m1: Map<Seq<u8>, i8>,
    m2: Map<Seq<u8>, i8>,
    g0: GState,
)
    requires
        wf_g(g0),
        total_g(g0) <= 255,
        g0.rule == RuleSet::TakeOpposite,
        db_ok(m1),
        db_closed(m1),
        m1.contains_key(key_of(g0)),
        new_keys_reached(g0, Map::<Seq<u8>, i8>::empty(), m1),
        db_ok(m2),
        db_closed(m2),
        m2.contains_key(key_of(g0)),
        new_keys_reached(g0, Map::<Seq<u8>, i8>::empty(), m2),
    ensures
        m1 == m2,
{
    assert forall|k: Seq<u8>| #[trigger] m1.contains_key(k) implies m2.contains_key(k)
        && m1[k] == m2[k] by {
        lemma_complete_store_covers(m1, m2, g0, k);
    }
    assert forall|k: Seq<u8>| #[trigger] m2.contains_key(k) implies m1.contains_key(k) by {
        lemma_complete_store_covers(m2, m1, g0, k);
    }
    assert(m1 =~= m2);
}

/// A board's model state has byte rows.
pub proof fn lemma_board_byte_rows(b: Board)
    requires
        b.rows_ok(),
    ensures
        byte_rows(b.gv()),
{
    lemma_seq_int(b.pits0@);
    lemma_seq_int(b.pits1@);
}

/// A single-threaded exact searcher over any transposition store.
pub struct Searcher<D> {
    db: D,
}

impl<D: DB<Vec<u8>, i8>> Searcher<D> {
    pub closed spec fn store(self) -> Map<Seq<u8>, i8> {
        self.db.model()
    }

    /// The store is consistent: every entry is an exact normalized value,
    /// and no entered position lacks its successors' entries.
    pub closed spec fn ok(self) -> bool {
        &&& self.db.inv()
        &&& db_ok(self.db.model())
        &&& db_closed(self.db.model())
    }

    /// Wrap a store; its entries must already be trustworthy, as an empty
    /// store's trivially are.
    pub fn new(db: D) -> (s: Searcher<D>)
        requires
            db.inv(),
            db_ok(db.model()),
            db_closed(db.model()),
        ensures
            s.ok(),
            s.store() == db.model(),
    {
        Searcher { db }
    }

    /// Exact negamax value of `board` from its mover's point of view,
    /// memoizing every position solved along the way.
    pub fn search(&mut self, board: &Board) -> (r: i8)
        requires
            old(self).ok(),
            board.wf(),
        ensures
            final(self).ok(),
            db_ok(final(self).store()),
            db_closed(final(self).store()),
            r as int == value(board.gv()),
            old(self).store().submap_of(final(self).store()),
            final(self).store().contains_key(key_of(board.gv())),
            new_keys_reached(board.gv(), old(self).store(), final(self).store()),
        decreases mu(board.gv()),
    {
        proof {
            board.lemma_counts();
            lemma_board_byte_rows(*board);
            lemma_mu_nonneg(board.gv());
            lemma_value_bound(board.gv());
            lemma_row_sum_nonneg(board.gv().my);
            lemma_row_sum_nonneg(board.gv().op);
        }
        let ghost g: GState = board.gv();
        let key = board.get_key();
        match self.db.get(&key) {
            Some(score) => {
                proof {
                    assert(self.store().contains_key(key_of(g)));
                    assert(score as int == value(g) - diff_g(g));
                }
                return board.get_score() + score;
            },
            None => {},
        }
        if board.is_finished() {
            self.db.set(key, 0);
            proof {
                lemma_db_insert_ok(old(self).store(), self.store(), g, 0);
                lemma_db_closed_terminal(old(self).store(), self.store(), g, 0);
                assert forall|k: Seq<u8>| #[trigger] self.store().contains_key(k) && !old(
                    self,
                ).store().contains_key(k) implies exists|h: GState| #[trigger] chain_reached(
                    g,
                    h,
                ) && k == key_of(h) by {
                    assert(k == key_of(g));
                    assert(chain_reached(g, g) && k == key_of(g));
                }
            }
            return board.get_score();
        }
        let nexts = board.list_next();
        let mut best: i8 = -128;
        let mut i: usize = 0;
        let ghost m0: Map<Seq<u8>, i8> = self.store();
        while i < nexts.len()
            invariant
                0 <= i <= nexts@.len(),
                board.wf(),
                g == board.gv(),
                !finished_g(g),
                forall|j: int| 0 <= j < nexts@.len() ==> crate::game::next_of(
                    *board,
                    #[trigger] nexts@[j],
                ),
                self.ok(),
                m0.submap_of(self.store()),
                new_keys_reached(g, old(self).store(), self.store()),
                forall|j: int| 0 <= j < i ==> self.store().contains_key(
                    key_of(#[trigger] nexts@[j].gv()),
                ),
                forall|j: int| 0 <= j < i ==> -value(#[trigger] nexts@[j].gv()) <= best as int,
                best as int == -128 || exists|j: int| 0 <= j < i && best as int == -value(
                    #[trigger] nexts@[j].gv(),
                ),
                total_g(g) <= 127,
            decreases nexts@.len() - i,
        {
            let ghost mpre: Map<Seq<u8>, i8> = self.store();
            proof {
                assert(crate::game::next_of(*board, nexts@[i as int]));
                assert(nexts@[i as int].wf());
                lemma_turn_succ_props(g, nexts@[i as int].gv());
                lemma_mu_nonneg(nexts@[i as int].gv());
                nexts@[i as int].lemma_counts();
                lemma_value_bound(nexts@[i as int].gv());
                lemma_row_sum_nonneg(nexts@[i as int].gv().my);
                lemma_row_sum_nonneg(nexts@[i as int].gv().op);
            }
            let s = self.search(&nexts[i]);
            let score = -s;
            if best < score {
                best = score;
            }
            proof {
                vstd::map_lib::lemma_submap_of_trans(m0, mpre, self.store());
                assert forall|j: int| 0 <= j < i + 1 implies self.store().contains_key(
                    key_of(#[trigger] nexts@[j].gv()),
                ) by {
                    if j < i {
                        assert(mpre.contains_key(key_of(nexts@[j].gv())));
                        assert(mpre.submap_of(self.store()));
                    }
                }
                assert forall|k: Seq<u8>| #[trigger] self.store().contains_key(k) && !old(
                    self,
                ).store().contains_key(k) implies exists|h: GState| #[trigger] chain_reached(
                    g,
                    h,
                ) && k == key_of(h) by {
                    if !mpre.contains_key(k) {
                        let h = choose|h: GState| #[trigger] chain_reached(
                            nexts@[i as int].gv(),
                            h,
                        ) && k == key_of(h);
                        assert(chain_reached(g, g));
                        lemma_chain_step(g, g, nexts@[i as int].gv());
                        lemma_chain_trans(g, nexts@[i as int].gv(), h);
                        assert(chain_reached(g, h) && k == key_of(h));
                    }
                }
            }
            i = i + 1;
        }
        proof {
            lemma_value_turns(g);
            // The maximum was attained by some listed successor, so `best`
            // caps every successor and equals the best one.
            let hw = choose|h: GState| #[trigger] turn_succ(g, h) && value(g) == -value(h);
            assert(crate::game::covers(nexts@, hw));
            let wi = choose|wi: int| 0 <= wi < nexts@.len() && #[trigger] nexts@[wi].gv()
                == hw;
            assert(-value(nexts@[wi].gv()) <= best as int);
            assert(best as int >= value(g));
            if best as int > value(g) {
                let j = choose|j: int| 0 <= j < nexts@.len() && best as int == -value(
                    #[trigger] nexts@[j].gv(),
                );
                assert(turn_succ(g, nexts@[j].gv()));
                assert(false);
            }
            assert(best as int == value(g));
        }
        let ghost mpre2: Map<Seq<u8>, i8> = self.store();
        let key2 = board.get_key();
        let delta = best - board.get_score();
        self.db.set(key2, delta);
        proof {
            assert forall|h: GState| #[trigger] turn_succ(g, h) implies mpre2.contains_key(
                key_of(h),
            ) by {
                assert(crate::game::covers(nexts@, h));
                let j = choose|j: int| 0 <= j < nexts@.len() && #[trigger] nexts@[j].gv()
                    == h;
                assert(mpre2.contains_key(key_of(nexts@[j].gv())));
            }
            lemma_db_insert_ok(mpre2, self.store(), g, delta);
            lemma_db_closed_node(mpre2, self.store(), g, delta);
            vstd::map_lib::lemma_submap_of_trans(m0, mpre2, self.store());
            assert forall|k: Seq<u8>| #[trigger] self.store().contains_key(k) && !old(
                self,
            ).store().contains_key(k) implies exists|h: GState| #[trigger] chain_reached(
                g,
                h,
            ) && k == key_of(h) by {
                if !mpre2.contains_key(k) {
                    assert(k == key_of(g));
                    assert(chain_reached(g, g) && k == key_of(g));
                }
            }
        }
        best
    }

    /// Number of positions settled in the store.
    pub fn len(&self) -> (n: usize)
        requires
            self.ok(),
            self.store().dom().len() <= usize::MAX,
        ensures
            n == self.store().dom().len(),
    {
        self.db.len()
    }
}

/// Entering a finished position cannot break closure: it owes no
/// successors, and every other entry keeps the ones it had.
pub(crate) proof fn lemma_db_closed_terminal(
    m0: Map<Seq<u8>, i8>,
    m1: Map<Seq<u8>, i8>,
    g: GState,
    v: i8,
)
    requires
        db_closed(m0),
        wf_g(g),
        byte_rows(g),
        g.rule == RuleSet::TakeOpposite,
        finished_g(g),
        m1 == m0.insert(key_of(g), v),
    ensures
        db_closed(m1),
{
    assert forall|g2: GState, h2: GState| wf_g(g2) && byte_rows(g2) && g2.rule
        == RuleSet::TakeOpposite && !finished_g(g2) && #[trigger] m1.contains_key(key_of(g2))
        && #[trigger] turn_succ(g2, h2) implies m1.contains_key(key_of(h2)) by {
        if key_of(g2) == key_of(g) {
            lemma_key_of_injective(g, g2);
            assert(false);
        } else {
            assert(m0.contains_key(key_of(g2)));
        }
    }
}

/// Entering a position whose successors are all entered keeps the store
/// closed.
pub(crate) proof fn lemma_db_closed_node(
    m0: Map<Seq<u8>, i8>,
    m1: Map<Seq<u8>, i8>,
    g: GState,
    v: i8,
)
    requires
        db_closed(m0),
        wf_g(g),
        byte_rows(g),
        g.rule == RuleSet::TakeOpposite,
        !finished_g(g),
        forall|h: GState| #[trigger] turn_succ(g, h) ==> m0.contains_key(key_of(h)),
        m1 == m0.insert(key_of(g), v),
    ensures
        db_closed(m1),
{
    assert forall|g2: GState, h2: GState| wf_g(g2) && byte_rows(g2) && g2.rule
        == RuleSet::TakeOpposite && !finished_g(g2) && #[trigger] m1.contains_key(key_of(g2))
        && #[trigger] turn_succ(g2, h2) implies m1.contains_key(key_of(h2)) by {
        if key_of(g2) == key_of(g) {
            lemma_key_of_injective(g, g2);
            lemma_turn_succ_stores(g2, g, h2);
            let hb = choose|hb: GState| #[trigger] turn_succ(g, hb) && hb.my == h2.my
                && hb.op == h2.op && hb.rule == h2.rule;
            assert(m0.contains_key(key_of(hb)));
            assert(key_of(hb) == key_of(h2));
        } else {
            assert(m0.contains_key(key_of(g2)));
        }
    }
}

/// Inserting the exact normalized value of a position keeps the store
/// consistent.
pub(crate) proof fn lemma_db_insert_ok(m0: Map<Seq<u8>, i8>, m1: Map<Seq<u8>, i8>, g: GState, v: i8)
    requires
        db_ok(m0),
        wf_g(g),
        byte_rows(g),
        g.rule == RuleSet::TakeOpposite,
        v as int == value(g) - diff_g(g),
        m1 == m0.insert(key_of(g), v),
    ensures
        db_ok(m1),
{
    assert forall|g2: GState| wf_g(g2) && byte_rows(g2) && g2.rule == RuleSet::TakeOpposite
        && #[trigger] m1.contains_key(key_of(g2)) implies m1[key_of(g2)] as int == value(g2)
        - diff_g(g2) by {
        if key_of(g2) == key_of(g) {
            lemma_key_of_injective(g, g2);
            lemma_value_stores(g, g2);
        } else {
            assert(m0.contains_key(key_of(g2)));
        }
    }
}

} // verus!
