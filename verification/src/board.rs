//! The fixed-configuration board: runtime pit count and seed count, with
//! stealing capture (both pits are emptied when a capture fires) and a final
//! margin that counts leftover pit seeds.

use vstd::prelude::*;

use crate::rules::{
    add_range, diff_g, distribute, finished_g, legal_g, lemma_distribute, lemma_elem_le_row_sum,
    lemma_mu_nonneg, lemma_row_sum_nonneg, lemma_row_sum_update, lemma_row_sum_zero,
    lemma_seq_int, lemma_seq_int_injective, lemma_sow, lemma_turn_succ_exists,
    lemma_turn_succ_intro, lemma_turn_succ_props, margin_g, mu, pit_count, pitsum_g,
    psi_g,
    row_sum, row_total, seq_int, sow_g, swap_g, total_g, turn_succ, turn_succ_via, wf_g, GState,
    RuleSet, Side,
};

verus! {

/// A board position: two rows of pits, two stores, and the side to move.
#[derive(Debug, Clone, Hash, PartialEq, Eq)]
pub struct Board {
    stealing: bool,
    side: Side,
    pits0: Vec<u8>,
    pits1: Vec<u8>,
    store0: u8,
    store1: u8,
    seeds: u8,
}

impl Board {
    /// Row `i` of the board, as the model sees it.
    pub closed spec fn row(self, i: int) -> Seq<int> {
        if i == 0 {
            seq_int(self.pits0@)
        } else {
            seq_int(self.pits1@)
        }
    }

    pub closed spec fn store(self, i: int) -> int {
        if i == 0 {
            self.store0 as int
        } else {
            self.store1 as int
        }
    }

    pub closed spec fn spec_side(self) -> Side {
        self.side
    }

    pub closed spec fn spec_stealing(self) -> bool {
        self.stealing
    }

    pub closed spec fn spec_seeds(self) -> int {
        self.seeds as int
    }

    pub closed spec fn spec_pit_count(self) -> int {
        self.pits0.len() as int
    }

    /// The position from the mover's point of view.
    pub closed spec fn gv(self) -> GState {
        GState {
            rule: RuleSet::TakeBoth { stealing: self.stealing },
            my: self.row(self.side.idx()),
            op: self.row(self.side.spec_turned().idx()),
            my_store: self.store(self.side.idx()),
            op_store: self.store(self.side.spec_turned().idx()),
        }
    }

    /// Both rows have the configured length.
    pub closed spec fn rows_ok(self) -> bool {
        &&& self.pits0.len() == self.pits1.len()
        &&& 1 <= self.pits0.len()
    }

    /// Well-formedness: seed conservation at the configured total, which the
    /// score range bounds.
    pub closed spec fn wf(self) -> bool {
        &&& self.rows_ok()
        &&& total_g(self.gv()) == 2 * self.spec_pit_count() * self.spec_seeds()
        &&& 2 * self.spec_pit_count() * self.spec_seeds() <= 127
    }

    pub proof fn lemma_wf_g(self)
        requires
            self.rows_ok(),
        ensures
            wf_g(self.gv()),
            pit_count(self.gv()) == self.spec_pit_count(),
    {
        lemma_seq_int(self.pits0@);
        lemma_seq_int(self.pits1@);
    }

    /// Total seeds in pits and stores together, bounded by the invariant.
    pub proof fn lemma_counts(self)
        requires
            self.wf(),
        ensures
            wf_g(self.gv()),
            self.rows_ok(),
            pit_count(self.gv()) == self.spec_pit_count(),
            self.gv().rule == (RuleSet::TakeBoth { stealing: self.spec_stealing() }),
            total_g(self.gv()) == 2 * self.spec_pit_count() * self.spec_seeds(),
            total_g(self.gv()) <= 127,
            pitsum_g(self.gv()) <= 127,
            row_sum(self.gv().my) <= 127,
            row_sum(self.gv().op) <= 127,
            0 <= self.store(0) <= 127,
            0 <= self.store(1) <= 127,
            row_sum(self.row(0)) >= 0,
            row_sum(self.row(1)) >= 0,
            self.store(0) + row_sum(self.row(0)) + self.store(1) + row_sum(self.row(1))
                <= 127,
    {
        self.lemma_wf_g();
        lemma_row_sum_nonneg(self.gv().my);
        lemma_row_sum_nonneg(self.gv().op);
        if self.side == Side::First {
            assert(self.gv().my == self.row(0) && self.gv().op == self.row(1));
        } else {
            assert(self.gv().my == self.row(1) && self.gv().op == self.row(0));
        }
    }

    /// How the mover's view maps onto the physical rows and stores: the
    /// first player reads row and store 0 as their own, the second reads
    /// row and store 1.
    pub proof fn lemma_view_sides(self)
        ensures
            self.spec_side() == Side::First || self.spec_side() == Side::Second,
            self.spec_side() == Side::First ==> self.gv().my == self.row(0) && self.gv().op
                == self.row(1) && self.gv().my_store == self.store(0) && self.gv().op_store
                == self.store(1),
            self.spec_side() == Side::Second ==> self.gv().my == self.row(1) && self.gv().op
                == self.row(0) && self.gv().my_store == self.store(1) && self.gv().op_store
                == self.store(0),
    {
        if self.side == Side::First {
            assert(self.gv().my == self.row(0) && self.gv().op == self.row(1));
        } else {
            assert(self.side == Side::Second);
            assert(self.gv().my == self.row(1) && self.gv().op == self.row(0));
        }
    }

    /// A fresh board: every pit holds `seeds`, the stores are empty, and the
    /// first player moves.
    pub fn new(pit: usize, seeds: u8, stealing: bool) -> (b: Board)
        requires
            1 <= pit,
            2 * pit * seeds <= 127,
        ensures
            b.wf(),
            b.spec_side() == Side::First,
            b.spec_stealing() == stealing,
            b.spec_seeds() == seeds as int,
            b.spec_pit_count() == pit as int,
            b.gv().my =~= Seq::new(pit as nat, |i: int| seeds as int),
            b.gv().op =~= Seq::new(pit as nat, |i: int| seeds as int),
            b.gv().my_store == 0,
            b.gv().op_store == 0,
            b.gv().rule == (RuleSet::TakeBoth { stealing }),
    {
        let row = filled_row(pit, seeds);
        let b = Board {
            stealing,
            side: Side::First,
            pits0: row.clone(),
            pits1: row,
            store0: 0,
            store1: 0,
            seeds,
        };
        proof {
            let s: Seq<int> = seq_int(b.pits0@);
            lemma_seq_int(b.pits0@);
            lemma_row_sum_const(s, seeds as int);
            assert(b.gv().my =~= s);
            assert(b.gv().op =~= s);
            assert(row_sum(s) == (pit as int) * (seeds as int));
            assert((pit as int) * (seeds as int) + (pit as int) * (seeds as int) == 2 * (
            pit as int) * (seeds as int)) by (nonlinear_arith);
            assert(total_g(b.gv()) == 2 * (pit as int) * (seeds as int));
        }
        b
    }

    /// The configuration this board was built with: pit count, seeds per
    /// pit, and whether stealing is enabled.
    pub fn triple(&self) -> (r: (usize, usize, bool))
        ensures
            r.0 == self.spec_pit_count(),
            r.1 == self.spec_seeds(),
            r.2 == self.spec_stealing(),
    {
        (self.pits0.len(), self.seeds as usize, self.stealing)
    }

    /// The game is over once either row of pits is empty.
    pub fn is_finished(&self) -> (r: bool)
        requires
            self.wf(),
        ensures
            r == finished_g(self.gv()),
    {
        proof {
            self.lemma_counts();
            lemma_row_sum_zero(self.row(0));
            lemma_row_sum_zero(self.row(1));
            lemma_seq_int(self.pits0@);
            lemma_seq_int(self.pits1@);
        }
        let z0 = row_empty(&self.pits0);
        let z1 = row_empty(&self.pits1);
        proof {
            if self.side == Side::First {
                assert(self.gv().my == self.row(0) && self.gv().op == self.row(1));
            } else {
                assert(self.gv().my == self.row(1) && self.gv().op == self.row(0));
            }
        }
        z0 || z1
    }

    /// Seeds each side would count if the game stopped now: store plus the
    /// side's own row.
    pub fn scores(&self) -> (r: (u8, u8))
        requires
            self.wf(),
        ensures
            r.0 as int == self.store(0) + row_sum(self.row(0)),
            r.1 as int == self.store(1) + row_sum(self.row(1)),
    {
        proof {
            self.lemma_counts();
            if self.side == Side::First {
                assert(self.gv().my == self.row(0) && self.gv().op == self.row(1));
            } else {
                assert(self.gv().my == self.row(1) && self.gv().op == self.row(0));
            }
            lemma_row_sum_nonneg(self.row(0));
            lemma_row_sum_nonneg(self.row(1));
        }
        let s0 = self.store0 + row_total(&self.pits0);
        let s1 = self.store1 + row_total(&self.pits1);
        (s0, s1)
    }

    /// Full margin from the mover's point of view, pits included.
    pub fn score(&self) -> (r: i8)
        requires
            self.wf(),
        ensures
            r as int == margin_g(self.gv()),
    {
        let (s0, s1) = self.scores();
        proof {
            self.lemma_counts();
        }
        if self.side == Side::First {
            s0 as i8 - s1 as i8
        } else {
            s1 as i8 - s0 as i8
        }
    }

    /// Store margin from the mover's point of view.
    pub fn store_score(&self) -> (r: i8)
        requires
            self.wf(),
        ensures
            r as int == diff_g(self.gv()),
    {
        proof {
            self.lemma_counts();
        }
        if self.side == Side::First {
            self.store0 as i8 - self.store1 as i8
        } else {
            self.store1 as i8 - self.store0 as i8
        }
    }

    /// Margin of the seeds still on the board, from the mover's point of
    /// view.
    pub fn pit_score(&self) -> (r: i8)
        requires
            self.wf(),
        ensures
            r as int == row_sum(self.gv().my) - row_sum(self.gv().op),
    {
        proof {
            self.lemma_counts();
            if self.side == Side::First {
                assert(self.gv().my == self.row(0) && self.gv().op == self.row(1));
            } else {
                assert(self.gv().my == self.row(1) && self.gv().op == self.row(0));
            }
        }
        let s0 = row_total(&self.pits0);
        let s1 = row_total(&self.pits1);
        if self.side == Side::First {
            s0 as i8 - s1 as i8
        } else {
            s1 as i8 - s0 as i8
        }
    }

    /// The mover's own row.
    pub fn self_pits(&self) -> (r: &Vec<u8>)
        ensures
            seq_int(r@) == self.gv().my,
    {
        match self.side {
            Side::First => &self.pits0,
            Side::Second => &self.pits1,
        }
    }

    /// The opponent's row.
    pub fn opposite_pits(&self) -> (r: &Vec<u8>)
        ensures
            seq_int(r@) == self.gv().op,
    {
        match self.side {
            Side::First => &self.pits1,
            Side::Second => &self.pits0,
        }
    }

    /// Whether sowing pit `pos` is a legal move.
    pub fn can_sow(&self, pos: usize) -> (r: bool)
        requires
            self.rows_ok(),
        ensures
            r == legal_g(self.gv(), pos as int),
    {
        proof {
            self.lemma_wf_g();
        }
        if pos >= self.pits0.len() {
            return false;
        }
        let pits = self.self_pits();
        proof {
            assert(seq_int(pits@)[pos as int] == pits@[pos as int] as int);
        }
        pits[pos] > 0
    }
}


impl Board {
    /// Pits of side `s`, one entry.
    fn get_pit(&self, s: Side, i: usize) -> (r: u8)
        requires
            self.rows_ok(),
            i < self.spec_pit_count(),
        ensures
            r as int == self.row(s.idx())[i as int],
    {
        proof {
            lemma_seq_int(self.pits0@);
            lemma_seq_int(self.pits1@);
        }
        match s {
            Side::First => self.pits0[i],
            Side::Second => self.pits1[i],
        }
    }

    /// Replace one pit of side `s`.
    fn set_pit(&mut self, s: Side, i: usize, x: u8)
        requires
            old(self).rows_ok(),
            i < old(self).spec_pit_count(),
        ensures
            final(self).rows_ok(),
            final(self).spec_pit_count() == old(self).spec_pit_count(),
            final(self).row(s.idx()) == old(self).row(s.idx()).update(i as int, x as int),
            final(self).row(s.spec_turned().idx()) == old(self).row(s.spec_turned().idx()),
            final(self).store(0) == old(self).store(0),
            final(self).store(1) == old(self).store(1),
            final(self).spec_side() == old(self).spec_side(),
            final(self).spec_stealing() == old(self).spec_stealing(),
            final(self).spec_seeds() == old(self).spec_seeds(),
    {
        match s {
            Side::First => self.pits0.set(i, x),
            Side::Second => self.pits1.set(i, x),
        }
        proof {
            lemma_seq_int(old(self).pits0@);
            lemma_seq_int(old(self).pits1@);
            lemma_seq_int(self.pits0@);
            lemma_seq_int(self.pits1@);
            match s {
                Side::First => {
                    assert(seq_int(self.pits0@) =~= seq_int(old(self).pits0@).update(
                        i as int,
                        x as int,
                    ));
                },
                Side::Second => {
                    assert(seq_int(self.pits1@) =~= seq_int(old(self).pits1@).update(
                        i as int,
                        x as int,
                    ));
                },
            }
        }
    }

    /// Add seeds to the store of side `s`.
    fn store_add(&mut self, s: Side, x: u8)
        requires
            old(self).store(s.idx()) + x <= 127,
        ensures
            final(self).rows_ok() == old(self).rows_ok(),
            final(self).spec_pit_count() == old(self).spec_pit_count(),
            final(self).row(0) == old(self).row(0),
            final(self).row(1) == old(self).row(1),
            final(self).store(s.idx()) == old(self).store(s.idx()) + x,
            final(self).store(s.spec_turned().idx()) == old(self).store(
                s.spec_turned().idx(),
            ),
            final(self).spec_side() == old(self).spec_side(),
            final(self).spec_stealing() == old(self).spec_stealing(),
            final(self).spec_seeds() == old(self).spec_seeds(),
    {
        match s {
            Side::First => {
                self.store0 = self.store0 + x;
            },
            Side::Second => {
                self.store1 = self.store1 + x;
            },
        }
    }

    /// Drop `num` seeds one per pit from `pos` on, on side `side`, banking
    /// one seed in the mover's store at the end of each own lap, exactly as
    /// the model's distribution pass describes.
    fn move_seed(&mut self, side: Side, pos: usize, num: usize) -> (r: (Side, usize))
        requires
            old(self).rows_ok(),
            1 <= num,
            pos <= old(self).spec_pit_count(),
            side != old(self).spec_side() ==> pos < old(self).spec_pit_count(),
            total_g(old(self).gv()) + num <= 127,
        ensures
            ({
                let (h, own2, end) = distribute(
                    old(self).gv(),
                    side == old(self).spec_side(),
                    pos as int,
                    num as int,
                );
                &&& final(self).gv() == h
                &&& final(self).rows_ok()
                &&& final(self).spec_pit_count() == old(self).spec_pit_count()
                &&& final(self).spec_side() == old(self).spec_side()
                &&& final(self).spec_stealing() == old(self).spec_stealing()
                &&& final(self).spec_seeds() == old(self).spec_seeds()
                &&& (r.0 == old(self).spec_side()) == own2
                &&& r.1 == end
            }),
        decreases num,
    {
        proof {
            old(self).lemma_wf_g();
        }
        let ghost g: GState = self.gv();
        let ghost own: bool = side == self.side;
        let ghost mover: Side = self.side;
        let p = self.pits0.len();
        let limit = p - pos;
        if num <= limit {
            // The pass ends within this row.
            self.add_run(side, pos, num);
            proof {
                let h = if own {
                    GState { my: add_range(g.my, pos as int, pos + num), ..g }
                } else {
                    GState { op: add_range(g.op, pos as int, pos + num), ..g }
                };
                assert(self.gv() =~= h);
            }
            return (side, pos + num - 1);
        }
        // Fill the rest of this row, then wrap.
        self.add_run(side, pos, limit);
        if side == self.side {
            proof {
                let g1s = GState {
                    my: add_range(g.my, pos as int, p as int),
                    my_store: g.my_store + 1,
                    ..g
                };
                lemma_row_sum_nonneg(g.my);
                lemma_row_sum_nonneg(g.op);
                assert(g.my_store + 1 <= 127);
                assert(self.store(mover.idx()) == g.my_store);
            }
            self.store_add(side, 1);
            proof {
                let g1s = GState {
                    my: add_range(g.my, pos as int, p as int),
                    my_store: g.my_store + 1,
                    ..g
                };
                assert(self.gv() =~= g1s);
                crate::rules::lemma_row_sum_add_range(g.my, pos as int, p as int);
                assert(total_g(self.gv()) == total_g(g) + limit + 1);
            }
            if num - limit == 1 {
                return (side, p);
            }
            let r = self.move_seed(side.turned(), 0, num - limit - 1);
            proof {
                assert(num - limit - 1 == pos + num - p - 1);
            }
            r
        } else {
            proof {
                let g1s = GState { op: add_range(g.op, pos as int, p as int), ..g };
                assert(self.gv() =~= g1s);
                crate::rules::lemma_row_sum_add_range(g.op, pos as int, p as int);
                assert(total_g(self.gv()) == total_g(g) + limit);
            }
            let r = self.move_seed(side.turned(), 0, num - limit);
            proof {
                assert(num - limit == pos + num - p);
            }
            r
        }
    }

    /// Add one seed to each of `cnt` consecutive pits of side `s`,
    /// starting at `pos`.
    fn add_run(&mut self, s: Side, pos: usize, cnt: usize)
        requires
            old(self).rows_ok(),
            pos + cnt <= old(self).spec_pit_count(),
            total_g(old(self).gv()) + cnt <= 127,
        ensures
            final(self).rows_ok(),
            final(self).spec_pit_count() == old(self).spec_pit_count(),
            final(self).row(s.idx()) == add_range(old(self).row(s.idx()), pos as int, pos
                + cnt),
            final(self).row(s.spec_turned().idx()) == old(self).row(s.spec_turned().idx()),
            final(self).store(0) == old(self).store(0),
            final(self).store(1) == old(self).store(1),
            final(self).spec_side() == old(self).spec_side(),
            final(self).spec_stealing() == old(self).spec_stealing(),
            final(self).spec_seeds() == old(self).spec_seeds(),
    {
        proof {
            old(self).lemma_wf_g();
        }
        let ghost orig: Board = *self;
        let ghost row0: Seq<int> = orig.row(s.idx());
        let mut i: usize = 0;
        proof {
            assert(self.row(s.idx()) =~= add_range(row0, pos as int, pos as int));
        }
        while i < cnt
            invariant
                0 <= i <= cnt,
                orig.rows_ok(),
                pos + cnt <= orig.spec_pit_count(),
                total_g(orig.gv()) + cnt <= 127,
                row0 == orig.row(s.idx()),
                self.rows_ok(),
                self.spec_pit_count() == orig.spec_pit_count(),
                self.row(s.idx()) == add_range(row0, pos as int, pos + i),
                self.row(s.spec_turned().idx()) == orig.row(s.spec_turned().idx()),
                self.store(0) == orig.store(0),
                self.store(1) == orig.store(1),
                self.spec_side() == orig.spec_side(),
                self.spec_stealing() == orig.spec_stealing(),
                self.spec_seeds() == orig.spec_seeds(),
            decreases cnt - i,
        {
            proof {
                orig.lemma_wf_g();
                self.lemma_wf_g();
                crate::rules::lemma_row_sum_add_range(row0, pos as int, pos + i);
                lemma_row_sum_nonneg(orig.row(0));
                lemma_row_sum_nonneg(orig.row(1));
                lemma_row_sum_nonneg(orig.gv().my);
                lemma_row_sum_nonneg(orig.gv().op);
                lemma_elem_le_row_sum(self.row(s.idx()), (pos + i) as int);
                assert(total_g(orig.gv()) == orig.store(0) + orig.store(1) + row_sum(
                    orig.row(0),
                ) + row_sum(orig.row(1)));
            }
            let v = self.get_pit(s, pos + i);
            self.set_pit(s, pos + i, v + 1);
            proof {
                assert(self.row(s.idx()) =~= add_range(row0, pos as int, pos + i + 1));
            }
            i = i + 1;
        }
    }
}


impl Board {
    /// Sow the mover's pit at `pos`: empty it, distribute its seeds, apply
    /// the bonus-turn and capture rules, and pass the turn unless a bonus
    /// held it.
    pub fn sow(&mut self, pos: usize)
        requires
            old(self).wf(),
            legal_g(old(self).gv(), pos as int),
            !finished_g(old(self).gv()),
        ensures
            ({
                let (h, kept) = sow_g(old(self).gv(), pos as int);
                &&& final(self).wf()
                &&& final(self).gv() == h
                &&& final(self).spec_side() == (if kept {
                    old(self).spec_side()
                } else {
                    old(self).spec_side().spec_turned()
                })
                &&& final(self).spec_stealing() == old(self).spec_stealing()
                &&& final(self).spec_seeds() == old(self).spec_seeds()
                &&& final(self).spec_pit_count() == old(self).spec_pit_count()
                &&& mu(h) < mu(old(self).gv())
            }),
    {
        proof {
            old(self).lemma_counts();
            lemma_sow(old(self).gv(), pos as int);
        }
        let ghost g: GState = self.gv();
        let ghost gres = sow_g(g, pos as int);
        let side = self.side;
        let p = self.pits0.len();
        let num = self.get_pit(side, pos);
        self.set_pit(side, pos, 0);
        let ghost g0 = GState { my: g.my.update(pos as int, 0), ..g };
        proof {
            assert(self.gv() =~= g0);
            lemma_row_sum_update(g.my, pos as int, 0);
            lemma_row_sum_nonneg(g0.my);
            lemma_row_sum_nonneg(g0.op);
            lemma_elem_le_row_sum(g.my, pos as int);
            assert(total_g(g0) + num == total_g(g));
        }
        let (land_side, end_pos) = self.move_seed(side, pos + 1, num as usize);
        let ghost dres = distribute(g0, true, pos as int + 1, num as int);
        let ghost g1 = dres.0;
        proof {
            lemma_distribute(g0, true, pos as int + 1, num as int);
            assert(self.gv() == g1);
            assert((land_side == side) == dres.1);
            assert(end_pos == dres.2);
            self.lemma_wf_g();
        }
        if land_side == side {
            if end_pos == p {
                proof {
                    assert(total_g(g1) == total_g(g));
                    assert(self.wf());
                }
                if !self.is_finished() {
                    proof {
                        assert(gres == (g1, true));
                        assert(self.gv() == gres.0);
                    }
                    return ;
                }
                proof {
                    assert(finished_g(g1));
                    assert(gres == (swap_g(g1), false));
                }
            } else if self.stealing && self.get_pit(side, end_pos) == 1 {
                let opposite_pos = p - 1 - end_pos;
                let opposite_num = self.get_pit(side.turned(), opposite_pos);
                if opposite_num > 0 {
                    proof {
                        assert(total_g(g1) == total_g(g));
                        lemma_elem_le_row_sum(g1.op, opposite_pos as int);
                        lemma_elem_le_row_sum(g1.my, end_pos as int);
                        lemma_row_sum_nonneg(g1.my);
                        lemma_row_sum_nonneg(g1.op);
                        assert(g1.my_store + g1.op[opposite_pos as int] + 1 <= total_g(g1));
                        lemma_row_sum_update(g1.my, end_pos as int, 0);
                        lemma_row_sum_update(g1.op, opposite_pos as int, 0);
                        assert(self.store(side.idx()) + opposite_num + 1 <= 127);
                    }
                    self.set_pit(side, end_pos, 0);
                    self.set_pit(side.turned(), opposite_pos, 0);
                    self.store_add(side, opposite_num + 1);
                    proof {
                        let g2 = GState {
                            my: g1.my.update(end_pos as int, 0),
                            op: g1.op.update(opposite_pos as int, 0),
                            my_store: g1.my_store + g1.op[opposite_pos as int] + 1,
                            ..g1
                        };
                        assert(self.gv() =~= g2);
                        assert(gres == (swap_g(g2), false));
                    }
                } else {
                    proof {
                        assert(gres == (swap_g(g1), false));
                    }
                }
            } else {
                proof {
                    assert(gres == (swap_g(g1), false));
                }
            }
        } else {
            proof {
                assert(gres == (swap_g(g1), false));
            }
        }
        proof {
            assert(self.gv() =~= swap_g(gres.0));
        }
        self.side = self.side.turned();
        proof {
            assert(self.gv() =~= gres.0);
            assert(total_g(self.gv()) == total_g(g));
        }
    }
}


/// Shape facts shared by every board `list_next` returns: well formed, the
/// opponent to move, and the same configuration.
pub open spec fn elem_ok(b: Board, n: Board) -> bool {
    &&& n.wf()
    &&& n.spec_side() == b.spec_side().spec_turned()
    &&& n.spec_stealing() == b.spec_stealing()
    &&& n.spec_seeds() == b.spec_seeds()
    &&& n.spec_pit_count() == b.spec_pit_count()
}

pub open spec fn all_elem_ok(b: Board, s: Seq<Board>) -> bool {
    forall|i: int| 0 <= i < s.len() ==> elem_ok(b, #[trigger] s[i])
}

/// No two listed boards stand for the same position.
pub open spec fn distinct_positions(s: Seq<Board>) -> bool {
    forall|i: int, j: int| 0 <= i < j < s.len() ==> s[i].gv() != s[j].gv()
}

/// Some listed board stands for the position `h`.
pub open spec fn covers(s: Seq<Board>, h: GState) -> bool {
    exists|i: int| 0 <= i < s.len() && #[trigger] s[i].gv() == h
}

/// A board produced by `list_next`: one completed turn ahead.
pub open spec fn next_of(b: Board, n: Board) -> bool {
    &&& elem_ok(b, n)
    &&& turn_succ(b.gv(), n.gv())
}

impl Board {
    /// An explicit copy whose position the verifier can track.
    pub(crate) fn copy_board(&self) -> (r: Board)
        ensures
            r.spec_side() == self.spec_side(),
            r.spec_stealing() == self.spec_stealing(),
            r.spec_seeds() == self.spec_seeds(),
            r.spec_pit_count() == self.spec_pit_count(),
            r.row(0) == self.row(0),
            r.row(1) == self.row(1),
            r.store(0) == self.store(0),
            r.store(1) == self.store(1),
            r.gv() == self.gv(),
            r.rows_ok() == self.rows_ok(),
            r.wf() == self.wf(),
    {
        let r = Board {
            stealing: self.stealing,
            side: self.side,
            pits0: self.pits0.clone(),
            pits1: self.pits1.clone(),
            store0: self.store0,
            store1: self.store1,
            seeds: self.seeds,
        };
        proof {
            assert(r.row(0) =~= self.row(0));
            assert(r.row(1) =~= self.row(1));
            assert(r.gv() =~= self.gv());
        }
        r
    }

    /// Whether two boards stand for the very same position: same side to
    /// move and the same model state.
    fn same_position(&self, other: &Board) -> (r: bool)
        requires
            self.rows_ok(),
            other.rows_ok(),
        ensures
            r == (self.spec_side() == other.spec_side() && self.gv() == other.gv()),
    {
        proof {
            lemma_seq_int(self.pits0@);
            lemma_seq_int(self.pits1@);
            lemma_seq_int(other.pits0@);
            lemma_seq_int(other.pits1@);
        }
        if !(self.side == other.side) {
            return false;
        }
        if self.stealing != other.stealing {
            proof {
                assert(self.gv().rule != other.gv().rule);
            }
            return false;
        }
        if self.store0 != other.store0 || self.store1 != other.store1 {
            return false;
        }
        let r0 = rows_eq(&self.pits0, &other.pits0);
        let r1 = rows_eq(&self.pits1, &other.pits1);
        proof {
            if r0 && r1 {
                assert(self.row(0) =~= other.row(0));
                assert(self.row(1) =~= other.row(1));
                assert(self.gv() =~= other.gv());
            } else {
                if self.gv() == other.gv() {
                    assert(self.row(0) == other.row(0) && self.row(1) == other.row(1));
                    lemma_seq_int_injective(self.pits0@, other.pits0@);
                    lemma_seq_int_injective(self.pits1@, other.pits1@);
                    assert(false);
                }
            }
        }
        r0 && r1
    }

    /// All states one completed turn ahead, each exactly once; empty exactly
    /// when the game is over.
    pub fn list_next(&self) -> (out: Vec<Board>)
        requires
            self.wf(),
        ensures
            forall|i: int| 0 <= i < out.len() ==> next_of(*self, #[trigger] out[i]),
            !finished_g(self.gv()) ==> forall|h: GState| #[trigger] turn_succ(self.gv(), h)
                ==> covers(out@, h),
            distinct_positions(out@),
            out.len() == 0 <==> finished_g(self.gv()),
            forall|i: int| 0 <= i < out.len() ==> mu(#[trigger] out[i].gv()) < mu(self.gv()),
    {
        let mut out: Vec<Board> = Vec::new();
        proof {
            self.lemma_wf_g();
        }
        if self.is_finished() {
            return out;
        }
        self.collect_next(&mut out);
        proof {
            lemma_turn_succ_exists(self.gv());
            let h = choose|h: GState| #[trigger] turn_succ(self.gv(), h);
            assert(covers(out@, h));
            assert(out.len() >= 1);
            assert forall|i: int| 0 <= i < out.len() implies next_of(*self, #[trigger] out[i])
                && mu(out[i].gv()) < mu(self.gv()) by {
                assert(elem_ok(*self, out@[i]));
                assert(turn_succ(self.gv(), out@[i].gv()));
                lemma_turn_succ_props(self.gv(), out[i].gv());
            }
        }
        out
    }

    /// Walk every legal move of the mover; recurse through bonus turns and
    /// collect each position the opponent can face, skipping repeats.
    fn collect_next(&self, out: &mut Vec<Board>)
        requires
            self.wf(),
            !finished_g(self.gv()),
            all_elem_ok(*self, old(out)@),
            distinct_positions(old(out)@),
        ensures
            final(out)@.len() >= old(out)@.len(),
            forall|i: int| 0 <= i < old(out)@.len() ==> #[trigger] final(out)@[i]
                == old(out)@[i],
            all_elem_ok(*self, final(out)@),
            distinct_positions(final(out)@),
            forall|i: int| old(out)@.len() <= i < final(out)@.len() ==> turn_succ(
                self.gv(),
                #[trigger] final(out)@[i].gv(),
            ),
            forall|h: GState| #[trigger] turn_succ(self.gv(), h) ==> covers(final(out)@, h),
        decreases mu(self.gv()),
    {
        proof {
            self.lemma_counts();
            lemma_mu_nonneg(self.gv());
        }
        let ghost g: GState = self.gv();
        let ghost base: Seq<Board> = out@;
        let p = self.pits0.len();
        let side = self.side;
        let mut pos: usize = 0;
        while pos < p
            invariant
                self.wf(),
                !finished_g(g),
                g == self.gv(),
                side == self.spec_side(),
                p == self.spec_pit_count(),
                0 <= pos <= p,
                out@.len() >= base.len(),
                forall|i: int| 0 <= i < base.len() ==> #[trigger] out@[i] == base[i],
                all_elem_ok(*self, out@),
                distinct_positions(out@),
                forall|i: int| base.len() <= i < out@.len() ==> turn_succ(
                    g,
                    #[trigger] out@[i].gv(),
                ),
                forall|h: GState, q: int| 0 <= q < pos && #[trigger] turn_succ_via(g, q, h)
                    ==> covers(out@, h),
            decreases p - pos,
        {
            let ghost snap: Seq<Board> = out@;
            let num = self.get_pit(side, pos);
            if num > 0 {
                proof {
                    assert(legal_g(g, pos as int));
                    lemma_sow(g, pos as int);
                }
                let mut copied = self.copy_board();
                copied.sow(pos);
                let ghost sres = sow_g(g, pos as int);
                if copied.side == side {
                    proof {
                        assert(sres.1);
                        assert(copied.gv() == sres.0);
                        assert(!finished_g(copied.gv()));
                        lemma_mu_nonneg(copied.gv());
                        assert forall|i: int| 0 <= i < out@.len() implies elem_ok(
                            copied,
                            #[trigger] out@[i],
                        ) by {
                            assert(elem_ok(*self, out@[i]));
                        }
                    }
                    copied.collect_next(out);
                    proof {
                        assert forall|i: int| 0 <= i < out@.len() implies elem_ok(
                            *self,
                            #[trigger] out@[i],
                        ) by {
                            assert(elem_ok(copied, out@[i]));
                        }
                        assert forall|i: int| base.len() <= i < out@.len() implies
                            turn_succ(g, #[trigger] out@[i].gv()) by {
                            if i < snap.len() {
                                assert(out@[i] == snap[i]);
                            } else {
                                assert(turn_succ(sres.0, out@[i].gv()));
                                assert(turn_succ_via(g, pos as int, out@[i].gv()));
                                lemma_turn_succ_intro(g, pos as int, out@[i].gv());
                            }
                        }
                        assert forall|h: GState, q: int| 0 <= q < pos + 1
                            && #[trigger] turn_succ_via(g, q, h) implies covers(out@, h)
                        by {
                            if q == pos {
                                assert(turn_succ(sres.0, h));
                                assert(covers(out@, h));
                            } else {
                                assert(covers(snap, h));
                                let w = choose|w: int| 0 <= w < snap.len()
                                    && #[trigger] snap[w].gv() == h;
                                assert(out@[w] == snap[w]);
                                assert(covers(out@, h));
                            }
                        }
                    }
                } else {
                    proof {
                        assert(!sres.1);
                        assert(copied.gv() == sres.0);
                        assert(turn_succ_via(g, pos as int, copied.gv()));
                        lemma_turn_succ_intro(g, pos as int, copied.gv());
                        assert forall|i: int| 0 <= i < out@.len() implies #[trigger]
                        out@[i].wf() by {
                            assert(elem_ok(*self, out@[i]));
                        }
                    }
                    let present = contains_position(out, &copied);
                    if !present {
                        proof {
                            assert forall|i: int| 0 <= i < out@.len() implies
                                out@[i].gv() != copied.gv() by {
                                assert(elem_ok(*self, out@[i]));
                                assert(out@[i].spec_side() == copied.spec_side());
                            }
                        }
                        out.push(copied);
                        proof {
                            assert(out@[out@.len() - 1] == copied);
                            assert(distinct_positions(out@));
                        }
                    }
                    proof {
                        assert(covers(out@, sres.0));
                        assert forall|h: GState, q: int| 0 <= q < pos + 1
                            && #[trigger] turn_succ_via(g, q, h) implies covers(out@, h)
                        by {
                            if q == pos {
                                assert(h == sres.0);
                            } else {
                                assert(covers(snap, h));
                                let w = choose|w: int| 0 <= w < snap.len()
                                    && #[trigger] snap[w].gv() == h;
                                assert(out@[w] == snap[w]);
                                assert(covers(out@, h));
                            }
                        }
                    }
                }
            } else {
                proof {
                    assert forall|h: GState, q: int| 0 <= q < pos + 1
                        && #[trigger] turn_succ_via(g, q, h) implies covers(out@, h) by {
                        if q == pos {
                            assert(!legal_g(g, q));
                        }
                    }
                }
            }
            pos = pos + 1;
        }
        proof {
            assert forall|h: GState| #[trigger] turn_succ(g, h) implies covers(out@, h) by {
                crate::rules::lemma_turn_succ_elim(g, h);
                let q = choose|q: int| 0 <= q < g.my.len() && #[trigger] turn_succ_via(
                    g,
                    q,
                    h,
                );
                assert(0 <= q < pos);
            }
        }
    }
}

/// Whether a board standing for the same position is already listed.
fn contains_position(out: &Vec<Board>, b: &Board) -> (r: bool)
    requires
        forall|i: int| 0 <= i < out@.len() ==> #[trigger] out@[i].wf(),
        b.rows_ok(),
    ensures
        r == exists|i: int| 0 <= i < out@.len() && #[trigger] out@[i].spec_side()
            == b.spec_side() && out@[i].gv() == b.gv(),
{
    let mut i: usize = 0;
    while i < out.len()
        invariant
            0 <= i <= out@.len(),
            forall|j: int| 0 <= j < out@.len() ==> #[trigger] out@[j].wf(),
            b.rows_ok(),
            forall|j: int| 0 <= j < i ==> !(#[trigger] out@[j].spec_side() == b.spec_side()
                && out@[j].gv() == b.gv()),
        decreases out@.len() - i,
    {
        proof {
            assert(out@[i as int].wf());
        }
        if out[i].same_position(b) {
            return true;
        }
        i = i + 1;
    }
    false
}

/// Whether two rows hold the same seeds.
fn rows_eq(a: &Vec<u8>, b: &Vec<u8>) -> (r: bool)
    ensures
        r == (a@ == b@),
{
    if a.len() != b.len() {
        proof {
            assert(a@ != b@);
        }
        return false;
    }
    let mut i: usize = 0;
    while i < a.len()
        invariant
            0 <= i <= a@.len(),
            a@.len() == b@.len(),
            forall|j: int| 0 <= j < i ==> a@[j] == b@[j],
        decreases a@.len() - i,
    {
        if a[i] != b[i] {
            return false;
        }
        i = i + 1;
    }
    proof {
        assert(a@ =~= b@);
    }
    true
}


impl Board {
    /// The termination measure of any well-formed position is small: at
    /// most two million, far below any ply-counter's range.
    pub proof fn lemma_mu_bound(self)
        requires
            self.wf(),
        ensures
            0 <= mu(self.gv()) <= 0x200000,
    {
        self.lemma_counts();
        let g = self.gv();
        let p: int = pit_count(g);
        let t: int = total_g(g);
        lemma_mu_nonneg(g);
        crate::rules::lemma_row_isum_le(g.my);
        crate::rules::lemma_row_isum_le(g.op);
        lemma_row_sum_nonneg(g.my);
        lemma_row_sum_nonneg(g.op);
        if t == 0 {
            assert(pitsum_g(g) == 0);
            assert(psi_g(g) <= (p - 1) * pitsum_g(g));
            assert((p - 1) * pitsum_g(g) == 0) by (nonlinear_arith)
                requires
                    pitsum_g(g) == 0,
            ;
            assert((p - 1) * t == 0) by (nonlinear_arith)
                requires
                    t == 0,
            ;
            assert(pitsum_g(g) * ((p - 1) * t + 1) == 0) by (nonlinear_arith)
                requires
                    pitsum_g(g) == 0,
            ;
            assert(mu(g) <= 0x200000);
        } else {
            assert(p <= 63) by (nonlinear_arith)
                requires
                    t == 2 * self.spec_pit_count() * self.spec_seeds(),
                    p == self.spec_pit_count(),
                    t >= 1,
                    t <= 127,
                    p >= 1,
                    self.spec_seeds() >= 0,
            ;
            assert((p - 1) * t <= 62 * 127) by (nonlinear_arith)
                requires
                    1 <= p <= 63,
                    0 <= t <= 127,
            ;
            assert(pitsum_g(g) * ((p - 1) * t + 1) <= 127 * (62 * 127 + 1))
                by (nonlinear_arith)
                requires
                    0 <= pitsum_g(g) <= 127,
                    0 <= (p - 1) * t <= 62 * 127,
            ;
            assert(psi_g(g) >= 0);
            assert(mu(g) <= 0x200000);
        }
    }
}

/// Powers of two, as plain integers.
pub open spec fn pow2i(w: nat) -> int
    decreases w,
{
    if w == 0 {
        1int
    } else {
        2 * pow2i((w - 1) as nat)
    }
}

/// A row packed into one integer, each pit in a field of `w` bits, the
/// first pit in the highest field.
pub open spec fn pack(s: Seq<int>, w: nat) -> int
    decreases s.len(),
{
    if s.len() == 0 {
        0int
    } else {
        pack(s.drop_last(), w) * pow2i(w) + s.last()
    }
}

/// Bits needed to hold any count up to `t`.
pub open spec fn bits_for(t: int) -> nat
    decreases t,
{
    if t <= 0 {
        0
    } else {
        bits_for(t / 2) + 1
    }
}

/// The canonical key of a position: the mover's pits in the high fields,
/// the opponent's in the low ones, with the field width sized from the
/// conservation bound.
pub open spec fn key_spec(g: GState, w: nat) -> int {
    pack(g.my + g.op, w)
}

pub proof fn lemma_pow2i_pos(w: nat)
    ensures
        pow2i(w) >= 1,
    decreases w,
{
    if w > 0 {
        lemma_pow2i_pos((w - 1) as nat);
    }
}

pub proof fn lemma_pow2i_add(a: nat, b: nat)
    ensures
        pow2i(a + b) == pow2i(a) * pow2i(b),
    decreases a,
{
    if a == 0 {
    } else {
        lemma_pow2i_add((a - 1) as nat, b);
        assert(2 * (pow2i((a - 1) as nat) * pow2i(b)) == (2 * pow2i((a - 1) as nat))
            * pow2i(b)) by (nonlinear_arith);
    }
}

pub proof fn lemma_pow2i_mono(a: nat, b: nat)
    requires
        a <= b,
    ensures
        pow2i(a) <= pow2i(b),
    decreases b,
{
    if a < b {
        lemma_pow2i_mono(a, (b - 1) as nat);
        lemma_pow2i_pos((b - 1) as nat);
    }
}

/// Any count up to `t` fits in `bits_for(t)` bits.
pub proof fn lemma_bits_for(t: int)
    ensures
        t < pow2i(bits_for(t)),
    decreases t,
{
    if t <= 0 {
    } else {
        lemma_bits_for(t / 2);
        assert(t < 2 * pow2i(bits_for(t / 2)));
    }
}

/// Seven bits cover every count the score range admits.
pub proof fn lemma_bits_for_le(t: int, b: nat)
    requires
        t < pow2i(b),
    ensures
        bits_for(t) <= b,
    decreases t,
{
    if t <= 0 {
    } else {
        assert(b >= 1) by {
            if b == 0 {
                assert(pow2i(b) == 1);
            }
        }
        lemma_bits_for_le(t / 2, (b - 1) as nat);
    }
}

/// A packed row stays below one in the next field.
pub proof fn lemma_pack_bound(s: Seq<int>, w: nat)
    requires
        forall|i: int| 0 <= i < s.len() ==> 0 <= #[trigger] s[i] < pow2i(w),
    ensures
        0 <= pack(s, w) < pow2i((s.len() * w) as nat),
    decreases s.len(),
{
    lemma_pow2i_pos(w);
    if s.len() == 0 {
    } else {
        let d = s.drop_last();
        lemma_pack_bound(d, w);
        lemma_pow2i_add((d.len() * w) as nat, w);
        assert((s.len() * w) as nat == (d.len() * w) as nat + w) by (nonlinear_arith)
            requires
                s.len() == d.len() + 1,
        ;
        assert(pack(d, w) * pow2i(w) + s.last() < pow2i((d.len() * w) as nat) * pow2i(w))
            by (nonlinear_arith)
            requires
                pack(d, w) <= pow2i((d.len() * w) as nat) - 1,
                0 <= s.last() < pow2i(w),
                pow2i(w) >= 1,
                pow2i((d.len() * w) as nat) >= 1,
        ;
        assert(pack(d, w) * pow2i(w) >= 0) by (nonlinear_arith)
            requires
                pack(d, w) >= 0,
                pow2i(w) >= 1,
        ;
    }
}

/// Packing is injective on rows of one length whose pits fit their fields.
pub proof fn lemma_pack_injective(a: Seq<int>, b: Seq<int>, w: nat)
    requires
        a.len() == b.len(),
        forall|i: int| 0 <= i < a.len() ==> 0 <= #[trigger] a[i] < pow2i(w),
        forall|i: int| 0 <= i < b.len() ==> 0 <= #[trigger] b[i] < pow2i(w),
        pack(a, w) == pack(b, w),
    ensures
        a == b,
    decreases a.len(),
{
    if a.len() == 0 {
        assert(a =~= b);
    } else {
        let da = a.drop_last();
        let db = b.drop_last();
        lemma_pack_bound(da, w);
        lemma_pack_bound(db, w);
        lemma_pow2i_pos(w);
        let x: int = pack(a, w);
        vstd::arithmetic::div_mod::lemma_fundamental_div_mod_converse(
            x,
            pow2i(w),
            pack(da, w),
            a.last(),
        );
        vstd::arithmetic::div_mod::lemma_fundamental_div_mod_converse(
            x,
            pow2i(w),
            pack(db, w),
            b.last(),
        );
        assert(a.last() == b.last());
        assert(pack(da, w) == pack(db, w));
        lemma_pack_injective(da, db, w);
        assert(a =~= da.push(a.last()));
        assert(b =~= db.push(b.last()));
    }
}

/// Key injectivity: two positions of one configuration that pack to the
/// same key show the mover the same rows.
pub proof fn lemma_key_injective(g1: GState, g2: GState, w: nat)
    requires
        wf_g(g1),
        wf_g(g2),
        g1.my.len() == g2.my.len(),
        forall|i: int| 0 <= i < g1.my.len() ==> #[trigger] g1.my[i] < pow2i(w),
        forall|i: int| 0 <= i < g1.op.len() ==> #[trigger] g1.op[i] < pow2i(w),
        forall|i: int| 0 <= i < g2.my.len() ==> #[trigger] g2.my[i] < pow2i(w),
        forall|i: int| 0 <= i < g2.op.len() ==> #[trigger] g2.op[i] < pow2i(w),
        key_spec(g1, w) == key_spec(g2, w),
    ensures
        g1.my == g2.my,
        g1.op == g2.op,
{
    let c1 = g1.my + g1.op;
    let c2 = g2.my + g2.op;
    assert(forall|i: int| 0 <= i < c1.len() ==> 0 <= #[trigger] c1[i] < pow2i(w));
    assert(forall|i: int| 0 <= i < c2.len() ==> 0 <= #[trigger] c2[i] < pow2i(w));
    lemma_pack_injective(c1, c2, w);
    assert forall|i: int| 0 <= i < g1.my.len() implies g1.my[i] == g2.my[i] by {
        assert(c1[i] == c2[i]);
    }
    assert forall|i: int| 0 <= i < g1.op.len() implies g1.op[i] == g2.op[i] by {
        assert(c1[g1.my.len() + i] == c2[g1.my.len() + i]);
    }
    assert(g1.my =~= g2.my);
    assert(g1.op =~= g2.op);
}

/// A type with a canonical fixed-width integer key for its positions.
pub trait CompactKey {
    /// Whether the configuration's key fits the key integer.
    spec fn key_fits(&self) -> bool;

    /// The key as the model computes it.
    spec fn spec_key(&self) -> int;

    fn key(&self) -> (k: u64)
        requires
            self.key_fits(),
        ensures
            k as int == self.spec_key(),
    ;
}

impl Board {
    /// Field width of this board's canonical key: enough bits for the
    /// worst case of every seed heaped in one pit.
    pub open spec fn key_width(self) -> nat {
        bits_for(2 * self.spec_pit_count() * self.spec_seeds())
    }

    /// Whether both rows fit a 64-bit key at that width.
    pub open spec fn fits_u64(self) -> bool {
        2 * self.spec_pit_count() * self.key_width() <= 64
    }

    pub proof fn lemma_pits_fit_width(self)
        requires
            self.wf(),
        ensures
            forall|i: int| 0 <= i < self.gv().my.len() ==> #[trigger] self.gv().my[i]
                < pow2i(self.key_width()),
            forall|i: int| 0 <= i < self.gv().op.len() ==> #[trigger] self.gv().op[i]
                < pow2i(self.key_width()),
            self.key_width() <= 7,
    {
        self.lemma_counts();
        lemma_bits_for(2 * self.spec_pit_count() * self.spec_seeds());
        assert forall|i: int| 0 <= i < self.gv().my.len() implies #[trigger] self.gv().my[i]
            < pow2i(self.key_width()) by {
            lemma_elem_le_row_sum(self.gv().my, i);
        }
        assert forall|i: int| 0 <= i < self.gv().op.len() implies #[trigger] self.gv().op[i]
            < pow2i(self.key_width()) by {
            lemma_elem_le_row_sum(self.gv().op, i);
        }
        assert(pow2i(7) == 128) by {
            lemma_pow2i_unfold();
        }
        lemma_bits_for_le(2 * self.spec_pit_count() * self.spec_seeds(), 7);
    }

    /// Field width of the key, computed from the configured total.
    fn width(&self) -> (w: u64)
        requires
            self.wf(),
        ensures
            w as nat == self.key_width(),
            w <= 7,
    {
        proof {
            self.lemma_counts();
            self.lemma_pits_fit_width();
            assert(2 * (self.spec_pit_count() as int) * (self.spec_seeds() as int) <= 127);
        }
        let p = self.pits0.len();
        let ghost t0: int = 2 * self.spec_pit_count() * self.spec_seeds();
        let mut x: u64;
        if self.seeds == 0 {
            x = 0;
        } else {
            proof {
                assert(p <= 63 && (2 * (p as int)) * (self.seeds as int) <= 127)
                    by (nonlinear_arith)
                    requires
                        2 * (p as int) * (self.seeds as int) <= 127,
                        p >= 0,
                        self.seeds >= 1,
                ;
            }
            x = 2 * (p as u64) * (self.seeds as u64);
        }
        proof {
            assert(x as int == t0) by (nonlinear_arith)
                requires
                    t0 == 2 * (p as int) * (self.seeds as int),
                    self.seeds == 0 ==> x == 0,
                    self.seeds >= 1 ==> x as int == 2 * (p as int) * (self.seeds as int),
            ;
        }
        let mut w: u64 = 0;
        while x > 0
            invariant
                0 <= x,
                bits_for(t0) == w + bits_for(x as int),
                w <= 64,
                bits_for(x as int) >= 0,
                x <= 127,
                w <= bits_for(t0),
                bits_for(t0) <= 7,
            decreases x,
        {
            x = x / 2;
            w = w + 1;
        }
        w
    }

    /// The packed key of the current position.
    fn compute_key(&self) -> (k: u64)
        requires
            self.wf(),
            self.fits_u64(),
        ensures
            k as int == key_spec(self.gv(), self.key_width()),
    {
        proof {
            self.lemma_counts();
            self.lemma_pits_fit_width();
            lemma_pow2i_unfold();
        }
        let w = self.width();
        let mut base: u64 = 1;
        let mut i: u64 = 0;
        while i < w
            invariant
                0 <= i <= w,
                w <= 7,
                base as int == pow2i(i as nat),
                base <= 128,
            decreases w - i,
        {
            proof {
                lemma_pow2i_mono((i + 1) as nat, 7);
                assert(pow2i(7) == 128) by {
                    lemma_pow2i_unfold();
                }
            }
            base = base * 2;
            i = i + 1;
        }
        let ghost g: GState = self.gv();
        let ghost ww: nat = self.key_width();
        let ghost cat: Seq<int> = g.my + g.op;
        let p = self.pits0.len();
        proof {
            assert(forall|j: int| 0 <= j < cat.len() ==> 0 <= #[trigger] cat[j] < pow2i(ww));
            assert(cat.len() == 2 * p);
            assert((cat.len() * ww) as int <= 64) by (nonlinear_arith)
                requires
                    cat.len() == 2 * (p as int),
                    2 * (p as int) * (ww as int) <= 64,
            ;
            lemma_pow2i_64();
        }
        let my = self.self_pits();
        let op = self.opposite_pits();
        let mut k: u64 = 0;
        let mut j: usize = 0;
        proof {
            assert(cat.take(0) =~= Seq::<int>::empty());
        }
        while j < p
            invariant
                0 <= j <= p,
                p == self.spec_pit_count(),
                w as nat == ww,
                base as int == pow2i(ww),
                g == self.gv(),
                cat == g.my + g.op,
                cat.len() == 2 * p,
                seq_int(my@) == g.my,
                seq_int(op@) == g.op,
                forall|q: int| 0 <= q < cat.len() ==> 0 <= #[trigger] cat[q] < pow2i(ww),
                (cat.len() * ww) as int <= 64,
                k as int == pack(cat.take(j as int), ww),
            decreases p - j,
        {
            proof {
                lemma_pack_step(cat, ww, j as int);
                assert(cat[j as int] == g.my[j as int]);
                assert(seq_int(my@)[j as int] == my@[j as int] as int);
            }
            k = mul_add_field(k, base, my[j], Ghost(cat), Ghost(ww), Ghost(j as int));
            j = j + 1;
        }
        let mut j2: usize = 0;
        while j2 < p
            invariant
                0 <= j2 <= p,
                p == self.spec_pit_count(),
                w as nat == ww,
                base as int == pow2i(ww),
                g == self.gv(),
                cat == g.my + g.op,
                cat.len() == 2 * p,
                seq_int(my@) == g.my,
                seq_int(op@) == g.op,
                forall|q: int| 0 <= q < cat.len() ==> 0 <= #[trigger] cat[q] < pow2i(ww),
                (cat.len() * ww) as int <= 64,
                k as int == pack(cat.take(p + j2 as int), ww),
            decreases p - j2,
        {
            proof {
                lemma_pack_step(cat, ww, p + j2 as int);
                assert(cat[p + j2 as int] == g.op[j2 as int]);
                assert(seq_int(op@)[j2 as int] == op@[j2 as int] as int);
            }
            k = mul_add_field(k, base, op[j2], Ghost(cat), Ghost(ww), Ghost(p + j2 as int));
            j2 = j2 + 1;
        }
        proof {
            assert(cat.take(2 * p as int) =~= cat);
        }
        k
    }
}

impl CompactKey for Board {
    open spec fn key_fits(&self) -> bool {
        &&& self.wf()
        &&& self.fits_u64()
    }

    open spec fn spec_key(&self) -> int {
        key_spec(self.gv(), self.key_width())
    }

    /// The canonical key: mover's pits in the high fields, opponent's in
    /// the low ones; stores and move history are deliberately left out.
    fn key(&self) -> (k: u64) {
        self.compute_key()
    }
}

/// One packing step, as the fold computes it.
proof fn lemma_pack_step(s: Seq<int>, w: nat, j: int)
    requires
        0 <= j < s.len(),
    ensures
        pack(s.take(j + 1), w) == pack(s.take(j), w) * pow2i(w) + s[j],
{
    assert(s.take(j + 1).drop_last() =~= s.take(j));
    assert(s.take(j + 1).last() == s[j]);
}

/// Fold one field into the key, staying within 64 bits.
fn mul_add_field(
    k: u64,
    base: u64,
    v: u8,
    Ghost(cat): Ghost<Seq<int>>,
    Ghost(w): Ghost<nat>,
    Ghost(j): Ghost<int>,
) -> (r: u64)
    requires
        0 <= j < cat.len(),
        base as int == pow2i(w),
        k as int == pack(cat.take(j), w),
        forall|q: int| 0 <= q < cat.len() ==> 0 <= #[trigger] cat[q] < pow2i(w),
        v as int == cat[j],
        (cat.len() * w) as int <= 64,
    ensures
        r as int == pack(cat.take(j + 1), w),
{
    proof {
        lemma_pack_step(cat, w, j);
        assert(forall|q: int| 0 <= q < cat.take(j + 1).len() ==> 0 <= #[trigger] cat.take(
            j + 1,
        )[q] < pow2i(w));
        lemma_pack_bound(cat.take(j + 1), w);
        lemma_pack_bound(cat.take(j), w);
        lemma_pow2i_pos(w);
        assert(((j + 1) * w) as nat <= (cat.len() * w) as nat) by (nonlinear_arith)
            requires
                0 <= j + 1 <= cat.len(),
                w >= 0,
        ;
        lemma_pow2i_mono(((j + 1) * w) as nat, (cat.len() * w) as nat);
        lemma_pow2i_mono((cat.len() * w) as nat, 64);
        lemma_pow2i_64();
        assert(pack(cat.take(j + 1), w) < pow2i(64));
    }
    k * base + (v as u64)
}

/// The value of the sixty-fourth power of two, step by step.
proof fn lemma_pow2i_unfold()
    ensures
        pow2i(0) == 1,
        pow2i(1) == 2,
        pow2i(2) == 4,
        pow2i(3) == 8,
        pow2i(4) == 16,
        pow2i(5) == 32,
        pow2i(6) == 64,
        pow2i(7) == 128,
        pow2i(8) == 256,
{
    reveal_with_fuel(pow2i, 10);
}

pub(crate) proof fn lemma_pow2i_64()
    ensures
        pow2i(64) == 0x10000000000000000,
{
    lemma_pow2i_unfold();
    lemma_pow2i_add(8, 8);
    assert(pow2i(16) == 65536);
    lemma_pow2i_add(16, 16);
    assert(pow2i(32) == 0x100000000);
    lemma_pow2i_add(32, 32);
}

/// A vector of `n` copies of `x`.
fn filled_row(n: usize, x: u8) -> (v: Vec<u8>)
    ensures
        v@.len() == n,
        forall|i: int| 0 <= i < n ==> v@[i] == x,
{
    let mut v: Vec<u8> = Vec::new();
    while v.len() < n
        invariant
            v@.len() <= n,
            forall|i: int| 0 <= i < v@.len() ==> v@[i] == x,
        decreases n - v.len(),
    {
        v.push(x);
    }
    v
}

/// Whether every pit of a row is empty.
fn row_empty(v: &Vec<u8>) -> (r: bool)
    ensures
        r == (forall|i: int| 0 <= i < v@.len() ==> #[trigger] seq_int(v@)[i] == 0),
{
    proof {
        lemma_seq_int(v@);
    }
    let mut i: usize = 0;
    while i < v.len()
        invariant
            0 <= i <= v.len(),
            forall|j: int| 0 <= j < i ==> #[trigger] seq_int(v@)[j] == 0,
        decreases v.len() - i,
    {
        proof {
            assert(seq_int(v@)[i as int] == v@[i as int] as int);
        }
        if v[i] != 0 {
            return false;
        }
        i = i + 1;
    }
    true
}

/// A constant row sums to length times the constant.
proof fn lemma_row_sum_const(s: Seq<int>, x: int)
    requires
        forall|i: int| 0 <= i < s.len() ==> s[i] == x,
    ensures
        row_sum(s) == s.len() * x,
    decreases s.len(),
{
    if s.len() == 0 {
    } else {
        lemma_row_sum_const(s.drop_last(), x);
        assert(s.len() * x == (s.len() - 1) * x + x) by (nonlinear_arith);
    }
}

} // verus!
