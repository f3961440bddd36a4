//! The dynamic-size board: pit count and seed count chosen at run time, a
//! byte-sequence key, capture that banks the opposite pit's seeds while the
//! landed seed stays on the board, and a final margin that counts banked
//! stores only.

use vstd::prelude::*;

use crate::rules::{
    add_range, diff_g, distribute, finished_g, legal_g, lemma_distribute,
    lemma_elem_le_row_sum, lemma_mu_nonneg, lemma_row_sum_nonneg, lemma_row_sum_update,
    lemma_row_sum_zero, lemma_seq_int, lemma_seq_int_injective, lemma_sow,
    lemma_turn_succ_exists, lemma_turn_succ_intro, lemma_turn_succ_props, mu, pit_count,
    pitsum_g, row_sum, seq_int, sow_g, swap_g, total_g, turn_succ, turn_succ_via,
    wf_g, GState, RuleSet,
};

verus! {

/// A board position: two rows of pits, two scoring stores, and the side to
/// move, `0` or `1`.
#[derive(Debug, Clone, Hash, PartialEq, Eq)]
pub struct Board {
    pub pit: usize,
    pub stone: u8,
    pub side: usize,
    pub pits0: Vec<u8>,
    pub pits1: Vec<u8>,
    pub score0: u8,
    pub score1: u8,
}

/// A row of `int` seeds written back as bytes.
pub open spec fn bytes_of(s: Seq<int>) -> Seq<u8> {
    Seq::new(s.len(), |i: int| s[i] as u8)
}

/// The byte key of a position: the mover's row, then the opponent's.
pub open spec fn key_of(g: GState) -> Seq<u8> {
    bytes_of(g.my) + bytes_of(g.op)
}

/// Bytes survive the round trip through the model's `int` rows.
pub proof fn lemma_bytes_of_int(s: Seq<u8>)
    ensures
        bytes_of(seq_int(s)) =~= s,
{
    lemma_seq_int(s);
}

/// Two positions with one key have the same rows.
pub proof fn lemma_key_of_injective(g1: GState, g2: GState)
    requires
        wf_g(g1),
        wf_g(g2),
        forall|i: int| 0 <= i < g1.my.len() ==> #[trigger] g1.my[i] <= 255,
        forall|i: int| 0 <= i < g1.op.len() ==> #[trigger] g1.op[i] <= 255,
        forall|i: int| 0 <= i < g2.my.len() ==> #[trigger] g2.my[i] <= 255,
        forall|i: int| 0 <= i < g2.op.len() ==> #[trigger] g2.op[i] <= 255,
        key_of(g1) == key_of(g2),
    ensures
        g1.my == g2.my,
        g1.op == g2.op,
{
    assert(key_of(g1).len() == 2 * g1.my.len());
    assert(key_of(g2).len() == 2 * g2.my.len());
    let p: int = g1.my.len() as int;
    assert(g1.my.len() == g2.my.len());
    assert forall|i: int| 0 <= i < p implies g1.my[i] == g2.my[i] by {
        assert(key_of(g1)[i] == g1.my[i] as u8);
        assert(key_of(g2)[i] == g2.my[i] as u8);
    }
    assert forall|i: int| 0 <= i < p implies g1.op[i] == g2.op[i] by {
        assert(key_of(g1)[p + i] == g1.op[i] as u8);
        assert(key_of(g2)[p + i] == g2.op[i] as u8);
    }
    assert(g1.my =~= g2.my);
    assert(g1.op =~= g2.op);
}

impl Board {
    /// Row `i` of the board, as the model sees it.
    pub open spec fn row(self, i: int) -> Seq<int> {
        if i == 0 {
            seq_int(self.pits0@)
        } else {
            seq_int(self.pits1@)
        }
    }

    pub open spec fn store(self, i: int) -> int {
        if i == 0 {
            self.score0 as int
        } else {
            self.score1 as int
        }
    }

    pub open spec fn side_idx(self) -> int {
        self.side as int
    }

    pub open spec fn other_idx(self) -> int {
        1 - self.side_idx()
    }

    /// The position from the mover's point of view.
    pub open spec fn gv(self) -> GState {
        GState {
            rule: RuleSet::TakeOpposite,
            my: self.row(self.side_idx()),
            op: self.row(self.other_idx()),
            my_store: self.store(self.side_idx()),
            op_store: self.store(self.other_idx()),
        }
    }

    /// Both rows have the configured length and the side index is a side.
    pub open spec fn rows_ok(self) -> bool {
        &&& self.pits0.len() == self.pit
        &&& self.pits1.len() == self.pit
        &&& 1 <= self.pit
        &&& self.side_idx() == 0 || self.side_idx() == 1
    }

    /// Well-formedness: seed conservation at the configured total, which the
    /// score range bounds.
    pub open spec fn wf(self) -> bool {
        &&& self.rows_ok()
        &&& total_g(self.gv()) == 2 * (self.pit as int) * (self.stone as int)
        &&& 2 * (self.pit as int) * (self.stone as int) <= 127
    }

    pub proof fn lemma_wf_g(self)
        requires
            self.rows_ok(),
        ensures
            wf_g(self.gv()),
            pit_count(self.gv()) == self.pit as int,
    {
        lemma_seq_int(self.pits0@);
        lemma_seq_int(self.pits1@);
    }

    /// Total seeds in pits and stores together, bounded by the invariant.
    pub proof fn lemma_counts(self)
        requires
            self.wf(),
        ensures
            wf_g(self.gv()),
            total_g(self.gv()) <= 127,
            pitsum_g(self.gv()) <= 127,
            row_sum(self.gv().my) <= 127,
            row_sum(self.gv().op) <= 127,
            0 <= self.store(0) <= 127,
            0 <= self.store(1) <= 127,
            row_sum(self.row(0)) >= 0,
            row_sum(self.row(1)) >= 0,
    {
        self.lemma_wf_g();
        lemma_row_sum_nonneg(self.gv().my);
        lemma_row_sum_nonneg(self.gv().op);
        if self.side == 0 {
            assert(self.gv().my == self.row(0) && self.gv().op == self.row(1));
        } else {
            assert(self.gv().my == self.row(1) && self.gv().op == self.row(0));
        }
    }

    /// A fresh board: every pit holds `stone` seeds, the stores are empty,
    /// and side `0` moves.
    pub fn new(pit: usize, stone: u8) -> (b: Board)
        requires
            1 <= pit,
            2 * pit * stone <= 127,
        ensures
            b.wf(),
            b.side_idx() == 0,
            b.pit == pit,
            b.stone == stone,
            b.gv().my =~= Seq::new(pit as nat, |i: int| stone as int),
            b.gv().op =~= Seq::new(pit as nat, |i: int| stone as int),
            b.gv().my_store == 0,
            b.gv().op_store == 0,
            b.gv().rule == RuleSet::TakeOpposite,
    {
        let row = filled_row(pit, stone);
        let b = Board {
            pit,
            stone,
            side: 0,
            pits0: row.clone(),
            pits1: row,
            score0: 0,
            score1: 0,
        };
        proof {
            let s: Seq<int> = seq_int(b.pits0@);
            lemma_seq_int(b.pits0@);
            lemma_row_sum_const(s, stone as int);
            assert(b.gv().my =~= s);
            assert(b.gv().op =~= s);
            assert(row_sum(s) == (pit as int) * (stone as int));
            assert((pit as int) * (stone as int) + (pit as int) * (stone as int) == 2 * (
            pit as int) * (stone as int)) by (nonlinear_arith);
            assert(total_g(b.gv()) == 2 * (pit as int) * (stone as int));
        }
        b
    }

    /// The canonical byte key: the mover's row, then the opponent's.
    pub fn get_key(&self) -> (r: Vec<u8>)
        requires
            self.rows_ok(),
        ensures
            r@ == key_of(self.gv()),
    {
        proof {
            self.lemma_wf_g();
        }
        let mut key: Vec<u8> = Vec::new();
        let first = if self.side == 0 {
            &self.pits0
        } else {
            &self.pits1
        };
        let second = if self.side == 0 {
            &self.pits1
        } else {
            &self.pits0
        };
        append_row(&mut key, first);
        append_row(&mut key, second);
        proof {
            lemma_bytes_of_int(first@);
            lemma_bytes_of_int(second@);
            assert(key@ =~= key_of(self.gv()));
        }
        key
    }

    /// The game is over once either row of pits is empty.
    pub fn is_finished(&self) -> (r: bool)
        requires
            self.wf(),
        ensures
            r == finished_g(self.gv()),
    {
        proof {
            self.lemma_counts();
            lemma_row_sum_zero(self.row(0));
            lemma_row_sum_zero(self.row(1));
            lemma_seq_int(self.pits0@);
            lemma_seq_int(self.pits1@);
            if self.side == 0 {
                assert(self.gv().my == self.row(0) && self.gv().op == self.row(1));
            } else {
                assert(self.gv().my == self.row(1) && self.gv().op == self.row(0));
            }
        }
        let z0 = row_empty(&self.pits0);
        let z1 = row_empty(&self.pits1);
        z0 || z1
    }

    /// Banked margin from the mover's point of view; pit seeds left on a
    /// finished board count for nobody.
    pub fn get_score(&self) -> (r: i8)
        requires
            self.wf(),
        ensures
            r as int == diff_g(self.gv()),
    {
        proof {
            self.lemma_counts();
        }
        if self.side == 0 {
            self.score0 as i8 - self.score1 as i8
        } else {
            self.score1 as i8 - self.score0 as i8
        }
    }

    /// Whether sowing pit `pos` is a legal move.
    pub fn can_move(&self, pos: usize) -> (r: bool)
        requires
            self.rows_ok(),
        ensures
            r == legal_g(self.gv(), pos as int),
    {
        proof {
            self.lemma_wf_g();
            lemma_seq_int(self.pits0@);
            lemma_seq_int(self.pits1@);
        }
        if pos >= self.pit {
            return false;
        }
        if self.side == 0 {
            self.pits0[pos] != 0
        } else {
            self.pits1[pos] != 0
        }
    }

    /// Pits of side `s`, one entry.
    fn get_pit(&self, s: usize, i: usize) -> (r: u8)
        requires
            self.rows_ok(),
            s == 0 || s == 1,
            i < self.pit,
        ensures
            r as int == self.row(s as int)[i as int],
    {
        proof {
            lemma_seq_int(self.pits0@);
            lemma_seq_int(self.pits1@);
        }
        if s == 0 {
            self.pits0[i]
        } else {
            self.pits1[i]
        }
    }

    /// Replace one pit of side `s`.
    fn set_pit(&mut self, s: usize, i: usize, x: u8)
        requires
            old(self).rows_ok(),
            s == 0 || s == 1,
            i < old(self).pit,
        ensures
            final(self).rows_ok(),
            final(self).pit == old(self).pit,
            final(self).stone == old(self).stone,
            final(self).row(s as int) == old(self).row(s as int).update(i as int, x as int),
            final(self).row(1 - s as int) == old(self).row(1 - s as int),
            final(self).store(0) == old(self).store(0),
            final(self).store(1) == old(self).store(1),
            final(self).side == old(self).side,
    {
        if s == 0 {
            self.pits0.set(i, x);
        } else {
            self.pits1.set(i, x);
        }
        proof {
            lemma_seq_int(old(self).pits0@);
            lemma_seq_int(old(self).pits1@);
            lemma_seq_int(self.pits0@);
            lemma_seq_int(self.pits1@);
            if s == 0 {
                assert(seq_int(self.pits0@) =~= seq_int(old(self).pits0@).update(
                    i as int,
                    x as int,
                ));
            } else {
                assert(seq_int(self.pits1@) =~= seq_int(old(self).pits1@).update(
                    i as int,
                    x as int,
                ));
            }
        }
    }

    /// Add seeds to the store of side `s`.
    fn score_add(&mut self, s: usize, x: u8)
        requires
            s == 0 || s == 1,
            old(self).store(s as int) + x <= 127,
        ensures
            final(self).rows_ok() == old(self).rows_ok(),
            final(self).pit == old(self).pit,
            final(self).stone == old(self).stone,
            final(self).row(0) == old(self).row(0),
            final(self).row(1) == old(self).row(1),
            final(self).store(s as int) == old(self).store(s as int) + x,
            final(self).store(1 - s as int) == old(self).store(1 - s as int),
            final(self).side == old(self).side,
    {
        if s == 0 {
            self.score0 = self.score0 + x;
        } else {
            self.score1 = self.score1 + x;
        }
    }

    /// Add one seed to each of `cnt` consecutive pits of side `s`,
    /// starting at `pos`.
    fn add_run(&mut self, s: usize, pos: usize, cnt: usize)
        requires
            old(self).rows_ok(),
            s == 0 || s == 1,
            pos + cnt <= old(self).pit,
            total_g(old(self).gv()) + cnt <= 127,
        ensures
            final(self).rows_ok(),
            final(self).pit == old(self).pit,
            final(self).stone == old(self).stone,
            final(self).row(s as int) == add_range(old(self).row(s as int), pos as int, pos
                + cnt),
            final(self).row(1 - s as int) == old(self).row(1 - s as int),
            final(self).store(0) == old(self).store(0),
            final(self).store(1) == old(self).store(1),
            final(self).side == old(self).side,
    {
        proof {
            old(self).lemma_wf_g();
        }
        let ghost orig: Board = *self;
        let ghost row0: Seq<int> = orig.row(s as int);
        let mut i: usize = 0;
        proof {
            assert(self.row(s as int) =~= add_range(row0, pos as int, pos as int));
        }
        while i < cnt
            invariant
                0 <= i <= cnt,
                orig.rows_ok(),
                s == 0 || s == 1,
                pos + cnt <= orig.pit,
                total_g(orig.gv()) + cnt <= 127,
                row0 == orig.row(s as int),
                self.rows_ok(),
                self.pit == orig.pit,
                self.stone == orig.stone,
                self.row(s as int) == add_range(row0, pos as int, pos + i),
                self.row(1 - s as int) == orig.row(1 - s as int),
                self.store(0) == orig.store(0),
                self.store(1) == orig.store(1),
                self.side == orig.side,
            decreases cnt - i,
        {
            proof {
                orig.lemma_wf_g();
                self.lemma_wf_g();
                crate::rules::lemma_row_sum_add_range(row0, pos as int, pos + i);
                lemma_row_sum_nonneg(orig.row(0));
                lemma_row_sum_nonneg(orig.row(1));
                lemma_row_sum_nonneg(orig.gv().my);
                lemma_row_sum_nonneg(orig.gv().op);
                lemma_elem_le_row_sum(self.row(s as int), (pos + i) as int);
                assert(total_g(orig.gv()) == orig.store(0) + orig.store(1) + row_sum(
                    orig.row(0),
                ) + row_sum(orig.row(1)));
            }
            let v = self.get_pit(s, pos + i);
            self.set_pit(s, pos + i, v + 1);
            proof {
                assert(self.row(s as int) =~= add_range(row0, pos as int, pos + i + 1));
            }
            i = i + 1;
        }
    }

    /// Drop `num` seeds one per pit from `pos` on, on side `side`, banking
    /// one seed in the mover's store at the end of each own lap, exactly as
    /// the model's distribution pass describes.
    fn move_stone(&mut self, side: usize, pos: usize, num: usize) -> (r: (usize, usize))
        requires
            old(self).rows_ok(),
            side == 0 || side == 1,
            1 <= num,
            pos <= old(self).pit,
            side != old(self).side ==> pos < old(self).pit,
            total_g(old(self).gv()) + num <= 127,
        ensures
            ({
                let (h, own2, end) = distribute(
                    old(self).gv(),
                    side == old(self).side,
                    pos as int,
                    num as int,
                );
                &&& final(self).gv() == h
                &&& final(self).rows_ok()
                &&& final(self).pit == old(self).pit
                &&& final(self).stone == old(self).stone
                &&& final(self).side == old(self).side
                &&& (r.0 == old(self).side) == own2
                &&& r.1 == end
                &&& (r.0 == 0 || r.0 == 1)
            }),
        decreases num,
    {
        proof {
            old(self).lemma_wf_g();
        }
        let ghost g: GState = self.gv();
        let ghost own: bool = side == self.side;
        let p = self.pit;
        let limit = p - pos;
        if num <= limit {
            self.add_run(side, pos, num);
            proof {
                let h = if own {
                    GState { my: add_range(g.my, pos as int, pos + num), ..g }
                } else {
                    GState { op: add_range(g.op, pos as int, pos + num), ..g }
                };
                assert(self.gv() =~= h);
            }
            return (side, pos + num - 1);
        }
        self.add_run(side, pos, limit);
        if side == self.side {
            proof {
                lemma_row_sum_nonneg(g.my);
                lemma_row_sum_nonneg(g.op);
                assert(self.store(side as int) == g.my_store);
            }
            self.score_add(side, 1);
            proof {
                let g1s = GState {
                    my: add_range(g.my, pos as int, p as int),
                    my_store: g.my_store + 1,
                    ..g
                };
                assert(self.gv() =~= g1s);
                crate::rules::lemma_row_sum_add_range(g.my, pos as int, p as int);
                assert(total_g(self.gv()) == total_g(g) + limit + 1);
            }
            if num - limit == 1 {
                return (side, p);
            }
            let r = self.move_stone(1 - side, 0, num - limit - 1);
            proof {
                assert(num - limit - 1 == pos + num - p - 1);
            }
            r
        } else {
            proof {
                let g1s = GState { op: add_range(g.op, pos as int, p as int), ..g };
                assert(self.gv() =~= g1s);
                crate::rules::lemma_row_sum_add_range(g.op, pos as int, p as int);
                assert(total_g(self.gv()) == total_g(g) + limit);
            }
            let r = self.move_stone(1 - side, 0, num - limit);
            proof {
                assert(num - limit == pos + num - p);
            }
            r
        }
    }

    /// Sow the mover's pit at `pos`: empty it, distribute its seeds, apply
    /// the bonus-turn and capture rules, and pass the turn unless a bonus
    /// held it.
    pub fn move_one(&mut self, pos: usize)
        requires
            old(self).wf(),
            legal_g(old(self).gv(), pos as int),
            !finished_g(old(self).gv()),
        ensures
            ({
                let (h, kept) = sow_g(old(self).gv(), pos as int);
                &&& final(self).wf()
                &&& final(self).gv() == h
                &&& final(self).side_idx() == (if kept {
                    old(self).side_idx()
                } else {
                    1 - old(self).side_idx()
                })
                &&& final(self).pit == old(self).pit
                &&& final(self).stone == old(self).stone
                &&& mu(h) < mu(old(self).gv())
            }),
    {
        proof {
            old(self).lemma_counts();
            lemma_sow(old(self).gv(), pos as int);
        }
        let ghost g: GState = self.gv();
        let ghost gres = sow_g(g, pos as int);
        let side = self.side;
        let p = self.pit;
        let num = self.get_pit(side, pos);
        self.set_pit(side, pos, 0);
        let ghost g0 = GState { my: g.my.update(pos as int, 0), ..g };
        proof {
            assert(self.gv() =~= g0);
            lemma_row_sum_update(g.my, pos as int, 0);
            lemma_row_sum_nonneg(g0.my);
            lemma_row_sum_nonneg(g0.op);
            lemma_elem_le_row_sum(g.my, pos as int);
            assert(total_g(g0) + num == total_g(g));
        }
        let (land_side, end_pos) = self.move_stone(side, pos + 1, num as usize);
        let ghost dres = distribute(g0, true, pos as int + 1, num as int);
        let ghost g1 = dres.0;
        proof {
            lemma_distribute(g0, true, pos as int + 1, num as int);
            assert(self.gv() == g1);
            assert((land_side == side) == dres.1);
            assert(end_pos == dres.2);
            self.lemma_wf_g();
        }
        if land_side == side {
            if end_pos == p {
                proof {
                    assert(total_g(g1) == total_g(g));
                    assert(self.wf());
                }
                if !self.is_finished() {
                    proof {
                        assert(gres == (g1, true));
                        assert(self.gv() == gres.0);
                    }
                    return ;
                }
                proof {
                    assert(finished_g(g1));
                    assert(gres == (swap_g(g1), false));
                }
            } else if self.get_pit(side, end_pos) == 1 {
                let opposite_pos = p - 1 - end_pos;
                let opposite_num = self.get_pit(1 - side, opposite_pos);
                proof {
                    assert(total_g(g1) == total_g(g));
                    lemma_elem_le_row_sum(g1.op, opposite_pos as int);
                    lemma_row_sum_nonneg(g1.my);
                    lemma_row_sum_nonneg(g1.op);
                    assert(g1.my_store + g1.op[opposite_pos as int] <= total_g(g1));
                    assert(self.store(side as int) + opposite_num <= 127);
                }
                self.set_pit(1 - side, opposite_pos, 0);
                self.score_add(side, opposite_num);
                proof {
                    let g2 = GState {
                        op: g1.op.update(opposite_pos as int, 0),
                        my_store: g1.my_store + g1.op[opposite_pos as int],
                        ..g1
                    };
                    assert(self.gv() =~= g2);
                    assert(gres == (swap_g(g2), false));
                }
            } else {
                proof {
                    assert(gres == (swap_g(g1), false));
                }
            }
        } else {
            proof {
                assert(gres == (swap_g(g1), false));
            }
        }
        proof {
            assert(self.gv() =~= swap_g(gres.0));
        }
        self.side = 1 - self.side;
        proof {
            assert(self.gv() =~= gres.0);
            assert(total_g(self.gv()) == total_g(g));
        }
    }
}


/// Shape facts shared by every board `list_next` returns: well formed, the
/// opponent to move, and the same configuration.
pub open spec fn elem_ok(b: Board, n: Board) -> bool {
    &&& n.wf()
    &&& n.side_idx() == 1 - b.side_idx()
    &&& n.pit == b.pit
    &&& n.stone == b.stone
}

pub open spec fn all_elem_ok(b: Board, s: Seq<Board>) -> bool {
    forall|i: int| 0 <= i < s.len() ==> elem_ok(b, #[trigger] s[i])
}

/// No two listed boards stand for the same position.
pub open spec fn distinct_positions(s: Seq<Board>) -> bool {
    forall|i: int, j: int| 0 <= i < j < s.len() ==> s[i].gv() != s[j].gv()
}

/// Some listed board stands for the position `h`.
pub open spec fn covers(s: Seq<Board>, h: GState) -> bool {
    exists|i: int| 0 <= i < s.len() && #[trigger] s[i].gv() == h
}

/// A board produced by `list_next`: one completed turn ahead.
pub open spec fn next_of(b: Board, n: Board) -> bool {
    &&& elem_ok(b, n)
    &&& turn_succ(b.gv(), n.gv())
}

impl Board {
    /// An explicit copy whose position the verifier can track.
    fn copy_board(&self) -> (r: Board)
        ensures
            r.side == self.side,
            r.pit == self.pit,
            r.stone == self.stone,
            r.row(0) == self.row(0),
            r.row(1) == self.row(1),
            r.store(0) == self.store(0),
            r.store(1) == self.store(1),
            r.gv() == self.gv(),
            r.rows_ok() == self.rows_ok(),
            r.wf() == self.wf(),
    {
        let r = Board {
            pit: self.pit,
            stone: self.stone,
            side: self.side,
            pits0: self.pits0.clone(),
            pits1: self.pits1.clone(),
            score0: self.score0,
            score1: self.score1,
        };
        proof {
            assert(r.row(0) =~= self.row(0));
            assert(r.row(1) =~= self.row(1));
            assert(r.gv() =~= self.gv());
        }
        r
    }

    /// Whether two boards stand for the very same position: same side to
    /// move and the same model state.
    fn same_position(&self, other: &Board) -> (r: bool)
        requires
            self.rows_ok(),
            other.rows_ok(),
        ensures
            r == (self.side == other.side && self.gv() == other.gv()),
    {
        proof {
            lemma_seq_int(self.pits0@);
            lemma_seq_int(self.pits1@);
            lemma_seq_int(other.pits0@);
            lemma_seq_int(other.pits1@);
        }
        if self.side != other.side {
            return false;
        }
        if self.score0 != other.score0 || self.score1 != other.score1 {
            return false;
        }
        let r0 = rows_eq(&self.pits0, &other.pits0);
        let r1 = rows_eq(&self.pits1, &other.pits1);
        proof {
            if r0 && r1 {
                assert(self.row(0) =~= other.row(0));
                assert(self.row(1) =~= other.row(1));
                assert(self.gv() =~= other.gv());
            } else {
                if self.gv() == other.gv() {
                    assert(self.row(0) == other.row(0) && self.row(1) == other.row(1));
                    lemma_seq_int_injective(self.pits0@, other.pits0@);
                    lemma_seq_int_injective(self.pits1@, other.pits1@);
                    assert(false);
                }
            }
        }
        r0 && r1
    }

    /// All states one completed turn ahead, each exactly once; empty exactly
    /// when the game is over.
    pub fn list_next(&self) -> (out: Vec<Board>)
        requires
            self.wf(),
        ensures
            forall|i: int| 0 <= i < out.len() ==> next_of(*self, #[trigger] out[i]),
            !finished_g(self.gv()) ==> forall|h: GState| #[trigger] turn_succ(self.gv(), h)
                ==> covers(out@, h),
            distinct_positions(out@),
            out.len() == 0 <==> finished_g(self.gv()),
            forall|i: int| 0 <= i < out.len() ==> mu(#[trigger] out[i].gv()) < mu(self.gv()),
    {
        let mut out: Vec<Board> = Vec::new();
        proof {
            self.lemma_wf_g();
        }
        if self.is_finished() {
            return out;
        }
        self.collect_next(&mut out);
        proof {
            lemma_turn_succ_exists(self.gv());
            let h = choose|h: GState| #[trigger] turn_succ(self.gv(), h);
            assert(covers(out@, h));
            assert(out.len() >= 1);
            assert forall|i: int| 0 <= i < out.len() implies next_of(*self, #[trigger] out[i])
                && mu(out[i].gv()) < mu(self.gv()) by {
                assert(elem_ok(*self, out@[i]));
                assert(turn_succ(self.gv(), out@[i].gv()));
                lemma_turn_succ_props(self.gv(), out[i].gv());
            }
        }
        out
    }

    /// Walk every legal move of the mover; recurse through bonus turns and
    /// collect each position the opponent can face, skipping repeats.
    fn collect_next(&self, out: &mut Vec<Board>)
        requires
            self.wf(),
            !finished_g(self.gv()),
            all_elem_ok(*self, old(out)@),
            distinct_positions(old(out)@),
        ensures
            final(out)@.len() >= old(out)@.len(),
            forall|i: int| 0 <= i < old(out)@.len() ==> #[trigger] final(out)@[i]
                == old(out)@[i],
            all_elem_ok(*self, final(out)@),
            distinct_positions(final(out)@),
            forall|i: int| old(out)@.len() <= i < final(out)@.len() ==> turn_succ(
                self.gv(),
                #[trigger] final(out)@[i].gv(),
            ),
            forall|h: GState| #[trigger] turn_succ(self.gv(), h) ==> covers(final(out)@, h),
        decreases mu(self.gv()),
    {
        proof {
            self.lemma_counts();
            lemma_mu_nonneg(self.gv());
        }
        let ghost g: GState = self.gv();
        let ghost base: Seq<Board> = out@;
        let p = self.pit;
        let side = self.side;
        let mut pos: usize = 0;
        while pos < p
            invariant
                self.wf(),
                !finished_g(g),
                g == self.gv(),
                side == self.side,
                p == self.pit,
                0 <= pos <= p,
                out@.len() >= base.len(),
                forall|i: int| 0 <= i < base.len() ==> #[trigger] out@[i] == base[i],
                all_elem_ok(*self, out@),
                distinct_positions(out@),
                forall|i: int| base.len() <= i < out@.len() ==> turn_succ(
                    g,
                    #[trigger] out@[i].gv(),
                ),
                forall|h: GState, q: int| 0 <= q < pos && #[trigger] turn_succ_via(g, q, h)
                    ==> covers(out@, h),
            decreases p - pos,
        {
            let ghost snap: Seq<Board> = out@;
            let num = self.get_pit(side, pos);
            if num > 0 {
                proof {
                    assert(legal_g(g, pos as int));
                    lemma_sow(g, pos as int);
                }
                let mut copied = self.copy_board();
                copied.move_one(pos);
                let ghost sres = sow_g(g, pos as int);
                if copied.side == side {
                    proof {
                        assert(sres.1);
                        assert(copied.gv() == sres.0);
                        assert(!finished_g(copied.gv()));
                        lemma_mu_nonneg(copied.gv());
                        assert forall|i: int| 0 <= i < out@.len() implies elem_ok(
                            copied,
                            #[trigger] out@[i],
                        ) by {
                            assert(elem_ok(*self, out@[i]));
                        }
                    }
                    copied.collect_next(out);
                    proof {
                        assert forall|i: int| 0 <= i < out@.len() implies elem_ok(
                            *self,
                            #[trigger] out@[i],
                        ) by {
                            assert(elem_ok(copied, out@[i]));
                        }
                        assert forall|i: int| base.len() <= i < out@.len() implies
                            turn_succ(g, #[trigger] out@[i].gv()) by {
                            if i < snap.len() {
                                assert(out@[i] == snap[i]);
                            } else {
                                assert(turn_succ(sres.0, out@[i].gv()));
                                assert(turn_succ_via(g, pos as int, out@[i].gv()));
                                lemma_turn_succ_intro(g, pos as int, out@[i].gv());
                            }
                        }
                        assert forall|h: GState, q: int| 0 <= q < pos + 1
                            && #[trigger] turn_succ_via(g, q, h) implies covers(out@, h)
                        by {
                            if q == pos {
                                assert(turn_succ(sres.0, h));
                                assert(covers(out@, h));
                            } else {
                                assert(covers(snap, h));
                                let w = choose|w: int| 0 <= w < snap.len()
                                    && #[trigger] snap[w].gv() == h;
                                assert(out@[w] == snap[w]);
                                assert(covers(out@, h));
                            }
                        }
                    }
                } else {
                    proof {
                        assert(!sres.1);
                        assert(copied.gv() == sres.0);
                        assert(turn_succ_via(g, pos as int, copied.gv()));
                        lemma_turn_succ_intro(g, pos as int, copied.gv());
                        assert forall|i: int| 0 <= i < out@.len() implies #[trigger]
                        out@[i].wf() by {
                            assert(elem_ok(*self, out@[i]));
                        }
                    }
                    let present = contains_position(out, &copied);
                    if !present {
                        proof {
                            assert forall|i: int| 0 <= i < out@.len() implies
                                out@[i].gv() != copied.gv() by {
                                assert(elem_ok(*self, out@[i]));
                                assert(out@[i].side == copied.side);
                            }
                        }
                        out.push(copied);
                        proof {
                            assert(out@[out@.len() - 1] == copied);
                            assert(distinct_positions(out@));
                        }
                    }
                    proof {
                        assert(covers(out@, sres.0));
                        assert forall|h: GState, q: int| 0 <= q < pos + 1
                            && #[trigger] turn_succ_via(g, q, h) implies covers(out@, h)
                        by {
                            if q == pos {
                                assert(h == sres.0);
                            } else {
                                assert(covers(snap, h));
                                let w = choose|w: int| 0 <= w < snap.len()
                                    && #[trigger] snap[w].gv() == h;
                                assert(out@[w] == snap[w]);
                                assert(covers(out@, h));
                            }
                        }
                    }
                }
            } else {
                proof {
                    assert forall|h: GState, q: int| 0 <= q < pos + 1
                        && #[trigger] turn_succ_via(g, q, h) implies covers(out@, h) by {
                        if q == pos {
                            assert(!legal_g(g, q));
                        }
                    }
                }
            }
            pos = pos + 1;
        }
        proof {
            assert forall|h: GState| #[trigger] turn_succ(g, h) implies covers(out@, h) by {
                crate::rules::lemma_turn_succ_elim(g, h);
                let q = choose|q: int| 0 <= q < g.my.len() && #[trigger] turn_succ_via(
                    g,
                    q,
                    h,
                );
                assert(0 <= q < pos);
            }
        }
    }
}

/// Whether a board standing for the same position is already listed.
fn contains_position(out: &Vec<Board>, b: &Board) -> (r: bool)
    requires
        forall|i: int| 0 <= i < out@.len() ==> #[trigger] out@[i].wf(),
        b.rows_ok(),
    ensures
        r == exists|i: int| 0 <= i < out@.len() && #[trigger] out@[i].side == b.side
            && out@[i].gv() == b.gv(),
{
    let mut i: usize = 0;
    while i < out.len()
        invariant
            0 <= i <= out@.len(),
            forall|j: int| 0 <= j < out@.len() ==> #[trigger] out@[j].wf(),
            b.rows_ok(),
            forall|j: int| 0 <= j < i ==> !(#[trigger] out@[j].side == b.side
                && out@[j].gv() == b.gv()),
        decreases out@.len() - i,
    {
        proof {
            assert(out@[i as int].wf());
        }
        if out[i].same_position(b) {
            return true;
        }
        i = i + 1;
    }
    false
}

/// Whether two rows hold the same seeds.
fn rows_eq(a: &Vec<u8>, b: &Vec<u8>) -> (r: bool)
    ensures
        r == (a@ == b@),
{
    if a.len() != b.len() {
        proof {
            assert(a@ != b@);
        }
        return false;
    }
    let mut i: usize = 0;
    while i < a.len()
        invariant
            0 <= i <= a@.len(),
            a@.len() == b@.len(),
            forall|j: int| 0 <= j < i ==> a@[j] == b@[j],
        decreases a@.len() - i,
    {
        if a[i] != b[i] {
            return false;
        }
        i = i + 1;
    }
    proof {
        assert(a@ =~= b@);
    }
    true
}

/// A vector of `n` copies of `x`.
fn filled_row(n: usize, x: u8) -> (v: Vec<u8>)
    ensures
        v@.len() == n,
        forall|i: int| 0 <= i < n ==> v@[i] == x,
{
    let mut v: Vec<u8> = Vec::new();
    while v.len() < n
        invariant
            v@.len() <= n,
            forall|i: int| 0 <= i < v@.len() ==> v@[i] == x,
        decreases n - v.len(),
    {
        v.push(x);
    }
    v
}

/// Whether every pit of a row is empty.
fn row_empty(v: &Vec<u8>) -> (r: bool)
    ensures
        r == (forall|i: int| 0 <= i < v@.len() ==> #[trigger] seq_int(v@)[i] == 0),
{
    proof {
        lemma_seq_int(v@);
    }
    let mut i: usize = 0;
    while i < v.len()
        invariant
            0 <= i <= v.len(),
            forall|j: int| 0 <= j < i ==> #[trigger] seq_int(v@)[j] == 0,
        decreases v.len() - i,
    {
        proof {
            assert(seq_int(v@)[i as int] == v@[i as int] as int);
        }
        if v[i] != 0 {
            return false;
        }
        i = i + 1;
    }
    true
}

/// Append a row of pits to a byte key.
fn append_row(key: &mut Vec<u8>, row: &Vec<u8>)
    ensures
        final(key)@ == old(key)@ + row@,
{
    let mut i: usize = 0;
    while i < row.len()
        invariant
            0 <= i <= row@.len(),
            key@ == old(key)@ + row@.take(i as int),
        decreases row@.len() - i,
    {
        key.push(row[i]);
        proof {
            assert(key@ =~= old(key)@ + row@.take(i as int + 1));
        }
        i = i + 1;
    }
    proof {
        assert(row@.take(row@.len() as int) =~= row@);
    }
}

/// A constant row sums to length times the constant.
proof fn lemma_row_sum_const(s: Seq<int>, x: int)
    requires
        forall|i: int| 0 <= i < s.len() ==> s[i] == x,
    ensures
        row_sum(s) == s.len() * x,
    decreases s.len(),
{
    if s.len() == 0 {
    } else {
        lemma_row_sum_const(s.drop_last(), x);
        assert(s.len() * x == (s.len() - 1) * x + x) by (nonlinear_arith);
    }
}

} // verus!
