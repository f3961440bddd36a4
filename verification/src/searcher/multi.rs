//! The worker-pool searcher: a fixed number of workers run the identical
//! exact search against one shared transposition store, each seeing the
//! entries the previous ones settled.  Convergence is idempotent: every
//! worker computes the same normalized values, so the pool's outcome is the
//! outcome of one worker.

use vstd::prelude::*;

use crate::db::base::{DB};
use crate::game::{key_of, Board};
use crate::rules::{
    chain_reached, diff_g, finished_g, lemma_chain_step, lemma_chain_trans, lemma_mu_nonneg,
    lemma_row_sum_nonneg, lemma_turn_succ_props, lemma_value_bound, lemma_value_turns, mu,
    total_g, turn_succ, value, GState,
};
use crate::searcher::single::{
    db_closed, db_ok, lemma_board_byte_rows, lemma_db_closed_node, lemma_db_closed_terminal,
    lemma_db_insert_ok, new_keys_reached,
};

verus! {

/// One worker's pass: exact negamax over `board`, memoized in `db`.
fn search_line<D: DB<Vec<u8>, i8>>(db: &mut D, board: &Board) -> (r: i8)
    requires
        old(db).inv(),
        db_ok(old(db).model()),
        db_closed(old(db).model()),
        board.wf(),
    ensures
        final(db).inv(),
        db_ok(final(db).model()),
        db_closed(final(db).model()),
        r as int == value(board.gv()),
        old(db).model().submap_of(final(db).model()),
        final(db).model().contains_key(key_of(board.gv())),
        new_keys_reached(board.gv(), old(db).model(), final(db).model()),
    decreases mu(board.gv()),
{
    proof {
        board.lemma_counts();
        lemma_board_byte_rows(*board);
        lemma_mu_nonneg(board.gv());
        lemma_value_bound(board.gv());
        lemma_row_sum_nonneg(board.gv().my);
        lemma_row_sum_nonneg(board.gv().op);
    }
    let ghost g: GState = board.gv();
    let key = board.get_key();
    match db.get(&key) {
        Some(score) => {
            proof {
                assert(score as int == value(g) - diff_g(g));
            }
            return board.get_score() + score;
        },
        None => {},
    }
    if board.is_finished() {
        db.set(key, 0);
        proof {
            lemma_db_insert_ok(old(db).model(), db.model(), g, 0);
            lemma_db_closed_terminal(old(db).model(), db.model(), g, 0);
            assert forall|k: Seq<u8>| #[trigger] db.model().contains_key(k) && !old(
                db,
            ).model().contains_key(k) implies exists|h: GState| #[trigger] chain_reached(
                g,
                h,
            ) && k == key_of(h) by {
                assert(k == key_of(g));
                assert(chain_reached(g, g) && k == key_of(g));
            }
        }
        return board.get_score();
    }
    let nexts = board.list_next();
    let mut best: i8 = -128;
    let mut i: usize = 0;
    let ghost m0: Map<Seq<u8>, i8> = db.model();
    while i < nexts.len()
        invariant
            0 <= i <= nexts@.len(),
            board.wf(),
            g == board.gv(),
            !finished_g(g),
            forall|j: int| 0 <= j < nexts@.len() ==> crate::game::next_of(
                *board,
                #[trigger] nexts@[j],
            ),
            db.inv(),
            db_ok(db.model()),
            db_closed(db.model()),
            m0.submap_of(db.model()),
            new_keys_reached(g, old(db).model(), db.model()),
            forall|j: int| 0 <= j < i ==> db.model().contains_key(
                key_of(#[trigger] nexts@[j].gv()),
            ),
            forall|j: int| 0 <= j < i ==> -value(#[trigger] nexts@[j].gv()) <= best as int,
            best as int == -128 || exists|j: int| 0 <= j < i && best as int == -value(
                #[trigger] nexts@[j].gv(),
            ),
            total_g(g) <= 127,
        decreases nexts@.len() - i,
    {
        let ghost mpre: Map<Seq<u8>, i8> = db.model();
        proof {
            assert(crate::game::next_of(*board, nexts@[i as int]));
            lemma_turn_succ_props(g, nexts@[i as int].gv());
            lemma_mu_nonneg(nexts@[i as int].gv());
            nexts@[i as int].lemma_counts();
            lemma_value_bound(nexts@[i as int].gv());
            lemma_row_sum_nonneg(nexts@[i as int].gv().my);
            lemma_row_sum_nonneg(nexts@[i as int].gv().op);
        }
        let s = search_line(db, &nexts[i]);
        let score = -s;
        if best < score {
            best = score;
        }
        proof {
            vstd::map_lib::lemma_submap_of_trans(m0, mpre, db.model());
            assert forall|j: int| 0 <= j < i + 1 implies db.model().contains_key(
                key_of(#[trigger] nexts@[j].gv()),
            ) by {
                if j < i {
                    assert(mpre.contains_key(key_of(nexts@[j].gv())));
                    assert(mpre.submap_of(db.model()));
                }
            }
            assert forall|k: Seq<u8>| #[trigger] db.model().contains_key(k) && !old(
                db,
            ).model().contains_key(k) implies exists|h: GState| #[trigger] chain_reached(
                g,
                h,
            ) && k == key_of(h) by {
                if !mpre.contains_key(k) {
                    let h = choose|h: GState| #[trigger] chain_reached(
                        nexts@[i as int].gv(),
                        h,
                    ) && k == key_of(h);
                    assert(chain_reached(g, g));
                    lemma_chain_step(g, g, nexts@[i as int].gv());
                    lemma_chain_trans(g, nexts@[i as int].gv(), h);
                    assert(chain_reached(g, h) && k == key_of(h));
                }
            }
        }
        i = i + 1;
    }
    proof {
        lemma_value_turns(g);
        let hw = choose|h: GState| #[trigger] turn_succ(g, h) && value(g) == -value(h);
        assert(crate::game::covers(nexts@, hw));
        let wi = choose|wi: int| 0 <= wi < nexts@.len() && #[trigger] nexts@[wi].gv() == hw;
        assert(-value(nexts@[wi].gv()) <= best as int);
        if best as int > value(g) {
            let j = choose|j: int| 0 <= j < nexts@.len() && best as int == -value(
                #[trigger] nexts@[j].gv(),
            );
            assert(turn_succ(g, nexts@[j].gv()));
            assert(false);
        }
        assert(best as int == value(g));
    }
    let ghost mpre2: Map<Seq<u8>, i8> = db.model();
    let key2 = board.get_key();
    let delta = best - board.get_score();
    db.set(key2, delta);
    proof {
        assert forall|h: GState| #[trigger] turn_succ(g, h) implies mpre2.contains_key(
            key_of(h),
        ) by {
            assert(crate::game::covers(nexts@, h));
            let j = choose|j: int| 0 <= j < nexts@.len() && #[trigger] nexts@[j].gv() == h;
            assert(mpre2.contains_key(key_of(nexts@[j].gv())));
        }
        lemma_db_insert_ok(mpre2, db.model(), g, delta);
        lemma_db_closed_node(mpre2, db.model(), g, delta);
        vstd::map_lib::lemma_submap_of_trans(m0, mpre2, db.model());
        assert forall|k: Seq<u8>| #[trigger] db.model().contains_key(k) && !old(
            db,
        ).model().contains_key(k) implies exists|h: GState| #[trigger] chain_reached(
            g,
            h,
        ) && k == key_of(h) by {
            if !mpre2.contains_key(k) {
                assert(k == key_of(g));
                assert(chain_reached(g, g) && k == key_of(g));
            }
        }
    }
    best
}

/// A pool of workers sharing one transposition store.
pub struct MultiSearcher<D> {
    n: usize,
    db: D,
}

impl<D: DB<Vec<u8>, i8>> MultiSearcher<D> {
    pub closed spec fn store(self) -> Map<Seq<u8>, i8> {
        self.db.model()
    }

    pub closed spec fn ok(self) -> bool {
        &&& self.db.inv()
        &&& db_ok(self.db.model())
        &&& db_closed(self.db.model())
    }

    pub closed spec fn workers(self) -> int {
        self.n as int
    }

    /// A pool of `n` workers over `db`.
    pub fn new(n: usize, db: D) -> (s: MultiSearcher<D>)
        requires
            db.inv(),
            db_ok(db.model()),
            db_closed(db.model()),
        ensures
            s.ok(),
            s.store() == db.model(),
            s.workers() == n as int,
    {
        MultiSearcher { n, db }
    }

    /// Run every worker over `board`; each reuses what the previous ones
    /// settled, and the root entry they agree on is the exact value.
    pub fn search(&mut self, board: &Board) -> (r: i8)
        requires
            old(self).ok(),
            old(self).workers() >= 1,
            board.wf(),
        ensures
            final(self).ok(),
            db_ok(final(self).store()),
            db_closed(final(self).store()),
            final(self).workers() == old(self).workers(),
            r as int == value(board.gv()),
            final(self).store().contains_key(key_of(board.gv())),
            old(self).store().submap_of(final(self).store()),
            new_keys_reached(board.gv(), old(self).store(), final(self).store()),
    {
        proof {
            board.lemma_counts();
            lemma_board_byte_rows(*board);
            lemma_value_bound(board.gv());
            lemma_row_sum_nonneg(board.gv().my);
            lemma_row_sum_nonneg(board.gv().op);
        }
        let ghost g: GState = board.gv();
        let mut t: usize = 0;
        while t < self.n
            invariant
                board.wf(),
                g == board.gv(),
                self.db.inv(),
                db_ok(self.db.model()),
                db_closed(self.db.model()),
                self.n == old(self).n,
                t >= 1 ==> self.db.model().contains_key(key_of(g)),
                0 <= t <= self.n,
                old(self).store().submap_of(self.db.model()),
                new_keys_reached(g, old(self).store(), self.db.model()),
            decreases self.n - t,
        {
            let ghost mpre: Map<Seq<u8>, i8> = self.db.model();
            search_line(&mut self.db, board);
            proof {
                vstd::map_lib::lemma_submap_of_trans(
                    old(self).store(),
                    mpre,
                    self.db.model(),
                );
                assert forall|k: Seq<u8>| #[trigger] self.db.model().contains_key(k)
                    && !old(self).store().contains_key(k) implies exists|h: GState|
                    #[trigger] chain_reached(g, h) && k == key_of(h) by {
                    if !mpre.contains_key(k) {
                        assert(exists|h: GState| #[trigger] chain_reached(g, h) && k
                            == key_of(h));
                    }
                }
            }
            t = t + 1;
        }
        let key = board.get_key();
        match self.db.get(&key) {
            Some(v) => {
                proof {
                    assert(v as int == value(g) - diff_g(g));
                }
                board.get_score() + v
            },
            None => {
                proof {
                    assert(false);
                }
                0
            },
        }
    }

    /// Number of positions settled in the store.
    pub fn len(&self) -> (r: usize)
        requires
            self.ok(),
            self.store().dom().len() <= usize::MAX,
        ensures
            r == self.store().dom().len(),
    {
        self.db.len()
    }

    /// The shared store itself.
    pub fn get_db(&self) -> (r: &D)
        ensures
            r.model() == self.store(),
    {
        &self.db
    }
}

} // verus!
