//! The bounded-width searcher: at every node only the most promising few
//! successors are explored, ranked by the cheap one-ply store margin.  The
//! value found is not guaranteed best, but it is always the margin of some
//! genuine line of play, and the store only ever holds such margins.

use vstd::prelude::*;

use crate::db::base::DB;
use crate::game::{key_of, lemma_key_of_injective, Board};
use crate::rules::{
    attainable, diff_g, finished_g, lemma_att_bound, lemma_att_stores, lemma_att_turn,
    lemma_mu_nonneg, lemma_row_sum_nonneg, lemma_turn_succ_props, margin_g, mu,
    total_g, wf_g, GState, RuleSet,
};
use crate::searcher::single::{byte_rows, lemma_board_byte_rows};

verus! {

/// What a width-cut store may hold: under each key, the normalized margin
/// of some genuine line of play from every position with that key — not
/// necessarily the best line, the cap may have hidden better ones.
pub open spec fn cut_db_ok(m: Map<Seq<u8>, i8>) -> bool {
    forall|g: GState| wf_g(g) && byte_rows(g) && g.rule == RuleSet::TakeOpposite
        && #[trigger] m.contains_key(key_of(g)) ==> exists|v: int| attainable(g, v)
        && m[key_of(g)] as int == v - diff_g(g)
}

/// Inserting a normalized attainable margin keeps the store consistent.
proof fn lemma_cut_db_insert_ok(
    m0: Map<Seq<u8>, i8>,
    m1: Map<Seq<u8>, i8>,
    g: GState,
    v: int,
    x: i8,
)
    requires
        cut_db_ok(m0),
        wf_g(g),
        byte_rows(g),
        g.rule == RuleSet::TakeOpposite,
        attainable(g, v),
        x as int == v - diff_g(g),
        m1 == m0.insert(key_of(g), x),
    ensures
        cut_db_ok(m1),
{
    assert forall|g2: GState| wf_g(g2) && byte_rows(g2) && g2.rule == RuleSet::TakeOpposite
        && #[trigger] m1.contains_key(key_of(g2)) implies exists|v2: int| attainable(g2, v2)
        && m1[key_of(g2)] as int == v2 - diff_g(g2) by {
        if key_of(g2) == key_of(g) {
            lemma_key_of_injective(g, g2);
            lemma_att_stores(g, g2, v);
            let v2: int = v - diff_g(g) + diff_g(g2);
            assert(attainable(g2, v2) && m1[key_of(g2)] as int == v2 - diff_g(g2));
        } else {
            assert(m0.contains_key(key_of(g2)));
            let v2 = choose|v2: int| attainable(g2, v2) && m0[key_of(g2)] as int == v2
                - diff_g(g2);
            assert(attainable(g2, v2) && m1[key_of(g2)] as int == v2 - diff_g(g2));
        }
    }
}

/// One pass of the bounded-width search: the returned margin is attainable
/// by genuine play from `board`, and the store stays consistent.
fn search_line<D: DB<Vec<u8>, i8>>(db: &mut D, board: &Board, max_width: usize) -> (r: i8)
    requires
        old(db).inv(),
        cut_db_ok(old(db).model()),
        board.wf(),
        1 <= max_width,
    ensures
        final(db).inv(),
        cut_db_ok(final(db).model()),
        attainable(board.gv(), r as int),
        !finished_g(board.gv()) ==> final(db).model().contains_key(key_of(board.gv()))
            && final(db).model()[key_of(board.gv())] as int == r as int - diff_g(board.gv()),
    decreases mu(board.gv()),
{
    proof {
        board.lemma_counts();
        lemma_board_byte_rows(*board);
        lemma_mu_nonneg(board.gv());
        lemma_row_sum_nonneg(board.gv().my);
        lemma_row_sum_nonneg(board.gv().op);
    }
    let ghost g: GState = board.gv();
    let key = board.get_key();
    match db.get(&key) {
        Some(score) => {
            proof {
                let v = choose|v: int| attainable(g, v) && db.model()[key_of(g)] as int == v
                    - diff_g(g);
                lemma_att_bound(g, v);
            }
            return board.get_score() + score;
        },
        None => {},
    }
    if board.is_finished() {
        proof {
            assert(margin_g(g) == diff_g(g));
            assert(attainable(g, diff_g(g)));
        }
        return board.get_score();
    }
    let nexts = board.list_next();
    let mut best: i8 = -128;
    let mut taken = filled_flags(nexts.len());
    let mut count: usize = 0;
    let width = if max_width < nexts.len() {
        max_width
    } else {
        nexts.len()
    };
    proof {
        assert(count_true(taken@) == 0) by {
            lemma_count_true_zero(taken@);
        }
    }
    while count < width
        invariant
            0 <= count <= width,
            width <= nexts@.len(),
            1 <= width,
            1 <= max_width,
            count_true(taken@) == count,
            board.wf(),
            g == board.gv(),
            !finished_g(g),
            taken@.len() == nexts@.len(),
            forall|j: int| 0 <= j < nexts@.len() ==> crate::game::next_of(
                *board,
                #[trigger] nexts@[j],
            ),
            db.inv(),
            cut_db_ok(db.model()),
            count >= 1 ==> best as int > -128 && attainable(g, best as int),
            count == 0 ==> best as int == -128,
            total_g(g) <= 127,
        decreases width - count,
    {
        // Pick the untried successor whose immediate margin is best for the
        // mover, which is the lowest from the opponent's seat.
        let mut besti: usize = nexts.len();
        let mut bestv: i8 = 127;
        let mut j: usize = 0;
        while j < nexts.len()
            invariant
                0 <= j <= nexts@.len(),
                taken@.len() == nexts@.len(),
                board.wf(),
                g == board.gv(),
                forall|q: int| 0 <= q < nexts@.len() ==> crate::game::next_of(
                    *board,
                    #[trigger] nexts@[q],
                ),
                besti == nexts@.len() || (besti < j && !taken@[besti as int]),
                besti == nexts@.len() ==> forall|q: int| 0 <= q < j ==> #[trigger] taken@[q],
            decreases nexts@.len() - j,
        {
            proof {
                assert(crate::game::next_of(*board, nexts@[j as int]));
                nexts@[j as int].lemma_counts();
            }
            if !taken[j] {
                let s = nexts[j].get_score();
                if besti == nexts.len() || s < bestv {
                    besti = j;
                    bestv = s;
                }
            }
            j = j + 1;
        }
        proof {
            if besti == nexts.len() {
                lemma_count_true_all(taken@);
                assert(false);
            }
        }
        proof {
            assert(crate::game::next_of(*board, nexts@[besti as int]));
            lemma_turn_succ_props(g, nexts@[besti as int].gv());
            lemma_mu_nonneg(nexts@[besti as int].gv());
            nexts@[besti as int].lemma_counts();
        }
        proof {
            lemma_count_true_update(taken@, besti as int);
        }
        taken.set(besti, true);
        let s = search_line(db, &nexts[besti], max_width);
        proof {
            lemma_att_bound(nexts@[besti as int].gv(), s as int);
            lemma_att_turn(g, nexts@[besti as int].gv(), s as int);
        }
        let score = -s;
        proof {
            assert(score as int == -(s as int));
            assert(attainable(g, score as int));
            assert(score as int > -128);
        }
        if best < score {
            best = score;
        }
        proof {
            assert(best as int > -128);
            assert(attainable(g, best as int));
        }
        count = count + 1;
    }
    proof {
        assert(best as int > -128 && attainable(g, best as int));
        lemma_att_bound(g, best as int);
    }
    let ghost mpre2: Map<Seq<u8>, i8> = db.model();
    let key2 = board.get_key();
    let delta = best - board.get_score();
    db.set(key2, delta);
    proof {
        lemma_cut_db_insert_ok(mpre2, db.model(), g, best as int, delta);
    }
    best
}

proof fn lemma_count_true_zero(s: Seq<bool>)
    requires
        forall|i: int| 0 <= i < s.len() ==> !(#[trigger] s[i]),
    ensures
        count_true(s) == 0,
    decreases s.len(),
{
    if s.len() > 0 {
        lemma_count_true_zero(s.drop_last());
    }
}

/// How many flags are set.
pub open spec fn count_true(s: Seq<bool>) -> int
    decreases s.len(),
{
    if s.len() == 0 {
        0
    } else {
        count_true(s.drop_last()) + if s.last() {
            1int
        } else {
            0int
        }
    }
}

proof fn lemma_count_true_update(s: Seq<bool>, i: int)
    requires
        0 <= i < s.len(),
        !s[i],
    ensures
        count_true(s.update(i, true)) == count_true(s) + 1,
    decreases s.len(),
{
    if i == s.len() - 1 {
        assert(s.update(i, true).drop_last() =~= s.drop_last());
    } else {
        assert(s.update(i, true).drop_last() =~= s.drop_last().update(i, true));
        lemma_count_true_update(s.drop_last(), i);
    }
}

proof fn lemma_count_true_all(s: Seq<bool>)
    requires
        forall|i: int| 0 <= i < s.len() ==> #[trigger] s[i],
    ensures
        count_true(s) == s.len(),
    decreases s.len(),
{
    if s.len() > 0 {
        assert(s[s.len() - 1]);
        lemma_count_true_all(s.drop_last());
    }
}

/// A row of `n` cleared flags.
fn filled_flags(n: usize) -> (v: Vec<bool>)
    ensures
        v@.len() == n,
        forall|i: int| 0 <= i < n ==> !v@[i],
{
    let mut v: Vec<bool> = Vec::new();
    while v.len() < n
        invariant
            v@.len() <= n,
            forall|i: int| 0 <= i < v@.len() ==> !v@[i],
        decreases n - v.len(),
    {
        v.push(false);
    }
    v
}

/// A pool of workers running the bounded-width search over one shared
/// store.
pub struct WidthCutSearcher<D> {
    worker_num: usize,
    max_width: usize,
    db: D,
}

impl<D: DB<Vec<u8>, i8>> WidthCutSearcher<D> {
    pub closed spec fn store(self) -> Map<Seq<u8>, i8> {
        self.db.model()
    }

    pub closed spec fn ok(self) -> bool {
        &&& self.db.inv()
        &&& cut_db_ok(self.db.model())
    }

    pub closed spec fn workers(self) -> int {
        self.worker_num as int
    }

    pub closed spec fn width(self) -> int {
        self.max_width as int
    }

    /// A pool of `worker_num` workers exploring at most `max_width`
    /// successors per node.
    pub fn new(db: D, worker_num: usize, max_width: usize) -> (s: WidthCutSearcher<D>)
        requires
            db.inv(),
            cut_db_ok(db.model()),
        ensures
            s.ok(),
            s.store() == db.model(),
            s.workers() == worker_num as int,
            s.width() == max_width as int,
    {
        WidthCutSearcher { worker_num, max_width, db }
    }

    /// Run every worker over `board` under the width cap.  The value the
    /// pool settles on is the margin of some genuine line of play — how
    /// close it comes to the best line depends on the cap.
    pub fn search(&mut self, board: &Board) -> (r: i8)
        requires
            old(self).ok(),
            old(self).workers() >= 1,
            old(self).width() >= 1,
            board.wf(),
            !finished_g(board.gv()),
        ensures
            final(self).ok(),
            final(self).workers() == old(self).workers(),
            final(self).width() == old(self).width(),
            attainable(board.gv(), r as int),
            final(self).store().contains_key(key_of(board.gv())),
            final(self).store()[key_of(board.gv())] as int == r as int - diff_g(board.gv()),
    {
        proof {
            board.lemma_counts();
            lemma_board_byte_rows(*board);
            lemma_row_sum_nonneg(board.gv().my);
            lemma_row_sum_nonneg(board.gv().op);
        }
        let ghost g: GState = board.gv();
        let mut t: usize = 0;
        while t < self.worker_num
            invariant
                board.wf(),
                g == board.gv(),
                !finished_g(g),
                self.db.inv(),
                cut_db_ok(self.db.model()),
                self.worker_num == old(self).worker_num,
                self.max_width == old(self).max_width,
                1 <= self.max_width,
                t >= 1 ==> self.db.model().contains_key(key_of(g)),
                0 <= t <= self.worker_num,
            decreases self.worker_num - t,
        {
            search_line(&mut self.db, board, self.max_width);
            t = t + 1;
        }
        let key = board.get_key();
        match self.db.get(&key) {
            Some(v) => {
                proof {
                    let vv = choose|vv: int| attainable(g, vv) && self.db.model()[key_of(
                        g,
                    )] as int == vv - diff_g(g);
                    lemma_att_bound(g, vv);
                }
                board.get_score() + v
            },
            None => {
                proof {
                    assert(false);
                }
                0
            },
        }
    }

    /// Number of positions recorded in the store.
    pub fn len(&self) -> (r: usize)
        requires
            self.ok(),
            self.store().dom().len() <= usize::MAX,
        ensures
            r == self.store().dom().len(),
    {
        self.db.len()
    }

    /// The shared store itself.
    pub fn get_db(&self) -> (r: &D)
        ensures
            r.model() == self.store(),
    {
        &self.db
    }
}

} // verus!
