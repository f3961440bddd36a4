//! Score-mode search: exact negamax margins over the fixed-configuration
//! board, memoized under the packed canonical key in a sharded store.
//! Cached values are normalized by the banked store margin, so positions
//! reached with different banked totals share one entry.

use vstd::prelude::*;

use crate::board::{key_spec, lemma_bits_for, lemma_key_injective, lemma_pack_bound, pow2i,
    Board, CompactKey};
use crate::db::base::DB;
use crate::db::in_momory::InMemoryDB;
use crate::rules::{
    chain_reached, diff_g, finished_g, lemma_chain_step, lemma_chain_trans,
    lemma_elem_le_row_sum, lemma_mu_nonneg, lemma_row_sum_nonneg,
    lemma_turn_succ_props, lemma_turn_succ_stores, lemma_value_bound, lemma_value_stores,
    lemma_value_turns, mu, pit_count, total_g, turn_chain, turn_succ, value, wf_g,
    GState, RuleSet,
};

verus! {

/// Every key of the store is the key of a position reachable from the root
/// by chains of completed turns.
pub open spec fn keys_reached<V>(root: Board, m: Map<u64, V>) -> bool {
    forall|k: u64| #[trigger] m.contains_key(k) ==> exists|g: GState|
        #[trigger] chain_reached(root.gv(), g) && k as int == key_spec(
        g,
        root.key_width(),
    )
}

/// Every key the store gained between the two snapshots is the key of some
/// position reachable from `g0` by chains of completed turns.
pub open spec fn new_keys_reached<V>(g0: GState, w: nat, m0: Map<u64, V>, m1: Map<u64, V>) -> bool {
    forall|k: u64| #[trigger] m1.contains_key(k) && !m0.contains_key(k) ==> exists|h: GState|
        #[trigger] chain_reached(g0, h) && k as int == key_spec(h, w)
}

/// Rows whose pits all fit the key's field width.
pub open spec fn fits_width(g: GState, w: nat) -> bool {
    &&& forall|i: int| 0 <= i < g.my.len() ==> #[trigger] g.my[i] < pow2i(w)
    &&& forall|i: int| 0 <= i < g.op.len() ==> #[trigger] g.op[i] < pow2i(w)
}

/// What a score store may hold: under each key, the exact value of every
/// position of this configuration with that key, normalized by the banked
/// store margin.
pub open spec fn score_db_ok(m: Map<u64, i8>, rule: RuleSet, p: int, w: nat) -> bool {
    forall|g: GState, k: u64| wf_g(g) && g.rule == rule && pit_count(g) == p && fits_width(
        g,
        w,
    ) && #[trigger] m.contains_key(k) && k as int == #[trigger] key_spec(g, w)
        ==> m[k] as int == value(g) - diff_g(g)
}

/// Every pit of a position whose seed total fits the field width fits it
/// too, now and after any completed turn.
pub proof fn lemma_small_total_fits_width(g: GState, w: nat)
    requires
        wf_g(g),
        total_g(g) < pow2i(w),
    ensures
        fits_width(g, w),
{
    lemma_row_sum_nonneg(g.my);
    lemma_row_sum_nonneg(g.op);
    assert forall|i: int| 0 <= i < g.my.len() implies #[trigger] g.my[i] < pow2i(w) by {
        lemma_elem_le_row_sum(g.my, i);
    }
    assert forall|i: int| 0 <= i < g.op.len() implies #[trigger] g.op[i] < pow2i(w) by {
        lemma_elem_le_row_sum(g.op, i);
    }
}

/// The store's keys are closed under completed turns: whatever unfinished
/// position an entry covers, every position one turn ahead of it is
/// entered too.
pub open spec fn compact_db_closed<V>(m: Map<u64, V>, rule: RuleSet, p: int, w: nat) -> bool {
    forall|g: GState, k: u64, h: GState| wf_g(g) && g.rule == rule && pit_count(g) == p
        && total_g(g) < pow2i(w) && 2 * p * w <= 64 && !finished_g(g)
        && #[trigger] m.contains_key(k) && k as int == #[trigger] key_spec(g, w)
        && #[trigger] turn_succ(g, h) ==> m.contains_key((key_spec(h, w)) as u64)
}

/// A key computed from rows whose seed total fits the width fits the key
/// integer.
pub(crate) proof fn lemma_key_in_range(g: GState, w: nat)
    requires
        wf_g(g),
        total_g(g) < pow2i(w),
        2 * pit_count(g) * w <= 64,
    ensures
        0 <= key_spec(g, w) < 0x10000000000000000,
        (key_spec(g, w) as u64) as int == key_spec(g, w),
{
    lemma_small_total_fits_width(g, w);
    let cat = g.my + g.op;
    assert(forall|i: int| 0 <= i < cat.len() ==> 0 <= #[trigger] cat[i] < pow2i(w));
    lemma_pack_bound(cat, w);
    assert((cat.len() * w) as nat <= 64) by (nonlinear_arith)
        requires
            cat.len() == 2 * pit_count(g),
            2 * pit_count(g) * w <= 64,
    ;
    crate::board::lemma_pow2i_mono((cat.len() * w) as nat, 64);
    crate::board::lemma_pow2i_64();
}

/// Entering a finished position cannot break closure.
pub(crate) proof fn lemma_compact_db_closed_terminal<V>(
    m0: Map<u64, V>,
    m1: Map<u64, V>,
    g: GState,
    k: u64,
    v: V,
    rule: RuleSet,
    p: int,
    w: nat,
)
    requires
        compact_db_closed(m0, rule, p, w),
        wf_g(g),
        g.rule == rule,
        pit_count(g) == p,
        total_g(g) < pow2i(w),
        finished_g(g),
        k as int == key_spec(g, w),
        m1 == m0.insert(k, v),
    ensures
        compact_db_closed(m1, rule, p, w),
{
    lemma_small_total_fits_width(g, w);
    assert forall|g2: GState, k2: u64, h2: GState| wf_g(g2) && g2.rule == rule
        && pit_count(g2) == p && total_g(g2) < pow2i(w) && 2 * p * w <= 64 && !finished_g(g2)
        && #[trigger] m1.contains_key(k2) && k2 as int == #[trigger] key_spec(g2, w)
        && #[trigger] turn_succ(g2, h2) implies m1.contains_key((key_spec(h2, w)) as u64) by {
        if k2 == k {
            lemma_small_total_fits_width(g2, w);
            lemma_key_injective(g, g2, w);
            assert(false);
        } else {
            assert(m0.contains_key(k2));
        }
    }
}

/// Entering a position whose successors are all entered keeps the store
/// closed.
pub(crate) proof fn lemma_compact_db_closed_node<V>(
    m0: Map<u64, V>,
    m1: Map<u64, V>,
    g: GState,
    k: u64,
    v: V,
    rule: RuleSet,
    p: int,
    w: nat,
)
    requires
        compact_db_closed(m0, rule, p, w),
        wf_g(g),
        g.rule == rule,
        pit_count(g) == p,
        total_g(g) < pow2i(w),
        !finished_g(g),
        k as int == key_spec(g, w),
        forall|h: GState| #[trigger] turn_succ(g, h) ==> m0.contains_key(
            (key_spec(h, w)) as u64,
        ),
        m1 == m0.insert(k, v),
    ensures
        compact_db_closed(m1, rule, p, w),
{
    lemma_small_total_fits_width(g, w);
    assert forall|g2: GState, k2: u64, h2: GState| wf_g(g2) && g2.rule == rule
        && pit_count(g2) == p && total_g(g2) < pow2i(w) && 2 * p * w <= 64 && !finished_g(g2)
        && #[trigger] m1.contains_key(k2) && k2 as int == #[trigger] key_spec(g2, w)
        && #[trigger] turn_succ(g2, h2) implies m1.contains_key((key_spec(h2, w)) as u64) by {
        if k2 == k {
            lemma_small_total_fits_width(g2, w);
            lemma_key_injective(g, g2, w);
            lemma_turn_succ_stores(g2, g, h2);
            let hb = choose|hb: GState| #[trigger] turn_succ(g, hb) && hb.my == h2.my
                && hb.op == h2.op && hb.rule == h2.rule;
            assert(m0.contains_key((key_spec(hb, w)) as u64));
            assert(key_spec(hb, w) == key_spec(h2, w));
        } else {
            assert(m0.contains_key(k2));
        }
    }
}

/// Completeness of a closed store: once the root of a chain of completed
/// turns is entered, every position along the chain is entered too.
pub proof fn lemma_compact_store_covers_chains<V>(
    m: Map<u64, V>,
    rule: RuleSet,
    p: int,
    w: nat,
    g: GState,
    hs: Seq<GState>,
)
    requires
        compact_db_closed(m, rule, p, w),
        wf_g(g),
        g.rule == rule,
        pit_count(g) == p,
        total_g(g) < pow2i(w),
        2 * p * w <= 64,
        m.contains_key((key_spec(g, w)) as u64),
        turn_chain(g, hs),
    ensures
        forall|i: int| 0 <= i < hs.len() ==> m.contains_key(
            (key_spec(#[trigger] hs[i], w)) as u64,
        ),
    decreases hs.len(),
{
    if hs.len() >= 1 {
        let h0 = hs[0];
        lemma_key_in_range(g, w);
        assert(m.contains_key((key_spec(h0, w)) as u64));
        lemma_turn_succ_props(g, h0);
        let tail = hs.drop_first();
        assert(turn_chain(h0, tail)) by {
            if tail.len() >= 1 {
                assert(!finished_g(hs[0]) && turn_succ(hs[0], hs[1]));
                assert(tail[0] == hs[1]);
            }
            assert forall|i: int| 0 <= i < tail.len() - 1 implies !finished_g(
                #[trigger] tail[i],
            ) && turn_succ(tail[i], tail[i + 1]) by {
                assert(tail[i] == hs[i + 1] && tail[i + 1] == hs[i + 2]);
                assert(!finished_g(hs[i + 1]) && turn_succ(hs[i + 1], hs[i + 2]));
            }
        }
        lemma_compact_store_covers_chains(m, rule, p, w, h0, tail);
        assert forall|i: int| 0 <= i < hs.len() implies m.contains_key(
            (key_spec(#[trigger] hs[i], w)) as u64,
        ) by {
            if i >= 1 {
                assert(tail[i - 1] == hs[i]);
                assert(m.contains_key((key_spec(tail[i - 1], w)) as u64));
            }
        }
    }
}

proof fn lemma_score_store_covers(m1: Map<u64, i8>, m2: Map<u64, i8>, root: Board, k: u64)
    requires
        root.wf(),
        root.fits_u64(),
        score_db_ok(m1, root.gv().rule, root.spec_pit_count(), root.key_width()),
        keys_reached(root, m1),
        score_db_ok(m2, root.gv().rule, root.spec_pit_count(), root.key_width()),
        compact_db_closed(m2, root.gv().rule, root.spec_pit_count(), root.key_width()),
        m2.contains_key((key_spec(root.gv(), root.key_width())) as u64),
        m1.contains_key(k),
    ensures
        m2.contains_key(k),
        m1[k] == m2[k],
{
    let w: nat = root.key_width();
    let p: int = root.spec_pit_count();
    let rule: RuleSet = root.gv().rule;
    root.lemma_counts();
    root.lemma_pits_fit_width();
    lemma_bits_for(2 * root.spec_pit_count() * root.spec_seeds());
    assert(total_g(root.gv()) < pow2i(w));
    let h = choose|h: GState| #[trigger] chain_reached(root.gv(), h) && k as int == key_spec(
        h,
        w,
    );
    crate::rules::lemma_chain_reached_props(root.gv(), h);
    lemma_small_total_fits_width(h, w);
    lemma_key_in_range(h, w);
    assert(k == (key_spec(h, w)) as u64);
    if h != root.gv() {
        let hs = choose|hs: Seq<GState>| #[trigger] turn_chain(root.gv(), hs) && hs.len()
            >= 1 && hs.last() == h;
        lemma_compact_store_covers_chains(m2, rule, p, w, root.gv(), hs);
        assert(m2.contains_key((key_spec(hs.last(), w)) as u64));
    }
    assert(m1[k] as int == value(h) - diff_g(h));
    assert(m2[k] as int == value(h) - diff_g(h));
}

/// Convergence of completed score stores: two stores whose entries are
/// exact, closed under completed turns, holding the root, and holding only
/// reachable keys, are one and the same mapping.  The searched mapping is a
/// pure function of the root's configuration, whatever the worker or shard
/// count.
pub proof fn lemma_score_stores_agree(m1: Map<u64, i8>, m2: Map<u64, i8>, root: Board)
    requires
        root.wf(),
        root.fits_u64(),
        score_db_ok(m1, root.gv().rule, root.spec_pit_count(), root.key_width()),
        compact_db_closed(m1, root.gv().rule, root.spec_pit_count(), root.key_width()),
        m1.contains_key((key_spec(root.gv(), root.key_width())) as u64),
        keys_reached(root, m1),
        score_db_ok(m2, root.gv().rule, root.spec_pit_count(), root.key_width()),
        compact_db_closed(m2, root.gv().rule, root.spec_pit_count(), root.key_width()),
        m2.contains_key((key_spec(root.gv(), root.key_width())) as u64),
        keys_reached(root, m2),
    ensures
        m1 == m2,
{
    assert forall|k: u64| #[trigger] m1.contains_key(k) implies m2.contains_key(k) && m1[k]
        == m2[k] by {
        lemma_score_store_covers(m1, m2, root, k);
    }
    assert forall|k: u64| #[trigger] m2.contains_key(k) implies m1.contains_key(k) by {
        lemma_score_store_covers(m2, m1, root, k);
    }
    assert(m1 =~= m2);
}

/// Inserting an exact normalized value keeps a score store consistent.
proof fn lemma_score_db_insert_ok(
    m0: Map<u64, i8>,
    m1: Map<u64, i8>,
    g: GState,
    k: u64,
    v: i8,
    rule: RuleSet,
    p: int,
    w: nat,
)
    requires
        score_db_ok(m0, rule, p, w),
        wf_g(g),
        g.rule == rule,
        pit_count(g) == p,
        fits_width(g, w),
        k as int == key_spec(g, w),
        v as int == value(g) - diff_g(g),
        m1 == m0.insert(k, v),
    ensures
        score_db_ok(m1, rule, p, w),
{
    assert forall|g2: GState, k2: u64| wf_g(g2) && g2.rule == rule && pit_count(g2) == p
        && fits_width(g2, w) && #[trigger] m1.contains_key(k2) && k2 as int
        == #[trigger] key_spec(g2, w) implies m1[k2] as int == value(g2) - diff_g(g2) by {
        if k2 == k {
            lemma_key_injective(g, g2, w);
            lemma_value_stores(g, g2);
        } else {
            assert(m0.contains_key(k2));
        }
    }
}

/// One worker's pass: exact negamax over `board`, memoized in `db`.
fn search_score_worker<D: DB<u64, i8>>(db: &mut D, board: &Board) -> (r: i8)
    requires
        old(db).inv(),
        board.wf(),
        board.fits_u64(),
        score_db_ok(
            old(db).model(),
            board.gv().rule,
            board.spec_pit_count(),
            board.key_width(),
        ),
        compact_db_closed(
            old(db).model(),
            board.gv().rule,
            board.spec_pit_count(),
            board.key_width(),
        ),
    ensures
        final(db).inv(),
        score_db_ok(
            final(db).model(),
            board.gv().rule,
            board.spec_pit_count(),
            board.key_width(),
        ),
        compact_db_closed(
            final(db).model(),
            board.gv().rule,
            board.spec_pit_count(),
            board.key_width(),
        ),
        r as int == value(board.gv()),
        old(db).model().submap_of(final(db).model()),
        final(db).model().contains_key((key_spec(board.gv(), board.key_width())) as u64),
        new_keys_reached(
            board.gv(),
            board.key_width(),
            old(db).model(),
            final(db).model(),
        ),
    decreases mu(board.gv()),
{
    proof {
        board.lemma_counts();
        board.lemma_pits_fit_width();
        lemma_mu_nonneg(board.gv());
        lemma_value_bound(board.gv());
        lemma_row_sum_nonneg(board.gv().my);
        lemma_row_sum_nonneg(board.gv().op);
        lemma_bits_for(2 * board.spec_pit_count() * board.spec_seeds());
        assert(total_g(board.gv()) < pow2i(board.key_width()));
    }
    let ghost g: GState = board.gv();
    let ghost rule: RuleSet = g.rule;
    let ghost p: int = board.spec_pit_count();
    let ghost w: nat = board.key_width();
    let key = board.key();
    match db.get(&key) {
        Some(score) => {
            proof {
                assert(score as int == value(g) - diff_g(g));
            }
            return board.store_score() + score;
        },
        None => {},
    }
    if board.is_finished() {
        let delta = board.pit_score();
        proof {
            assert(value(g) == crate::rules::margin_g(g));
            assert(delta as int == value(g) - diff_g(g));
        }
        db.set(key, delta);
        proof {
            lemma_score_db_insert_ok(
                old(db).model(),
                db.model(),
                g,
                key,
                delta,
                rule,
                p,
                w,
            );
            lemma_compact_db_closed_terminal(
                old(db).model(),
                db.model(),
                g,
                key,
                delta,
                rule,
                p,
                w,
            );
            assert forall|k: u64| #[trigger] db.model().contains_key(k) && !old(
                db,
            ).model().contains_key(k) implies exists|h: GState| #[trigger] chain_reached(
                g,
                h,
            ) && k as int == key_spec(h, w) by {
                assert(k == key);
                assert(chain_reached(g, g) && k as int == key_spec(g, w));
            }
        }
        return board.score();
    }
    let nexts = board.list_next();
    let mut best: i8 = -128;
    let mut i: usize = 0;
    let ghost m0: Map<u64, i8> = db.model();
    while i < nexts.len()
        invariant
            0 <= i <= nexts@.len(),
            board.wf(),
            board.fits_u64(),
            g == board.gv(),
            rule == g.rule,
            p == board.spec_pit_count(),
            w == board.key_width(),
            !finished_g(g),
            forall|j: int| 0 <= j < nexts@.len() ==> crate::board::next_of(
                *board,
                #[trigger] nexts@[j],
            ),
            db.inv(),
            score_db_ok(db.model(), rule, p, w),
            compact_db_closed(db.model(), rule, p, w),
            m0.submap_of(db.model()),
            new_keys_reached(g, w, old(db).model(), db.model()),
            forall|j: int| 0 <= j < i ==> db.model().contains_key(
                (key_spec(#[trigger] nexts@[j].gv(), w)) as u64,
            ),
            forall|j: int| 0 <= j < i ==> -value(#[trigger] nexts@[j].gv()) <= best as int,
            best as int == -128 || exists|j: int| 0 <= j < i && best as int == -value(
                #[trigger] nexts@[j].gv(),
            ),
            total_g(g) <= 127,
        decreases nexts@.len() - i,
    {
        let ghost mpre: Map<u64, i8> = db.model();
        proof {
            board.lemma_counts();
            assert(crate::board::next_of(*board, nexts@[i as int]));
            lemma_turn_succ_props(g, nexts@[i as int].gv());
            lemma_mu_nonneg(nexts@[i as int].gv());
            nexts@[i as int].lemma_counts();
            lemma_value_bound(nexts@[i as int].gv());
            lemma_row_sum_nonneg(nexts@[i as int].gv().my);
            lemma_row_sum_nonneg(nexts@[i as int].gv().op);
            assert(nexts@[i as int].key_width() == w);
            assert(nexts@[i as int].fits_u64());
        }
        let s = search_score_worker(db, &nexts[i]);
        let score = -s;
        if best < score {
            best = score;
        }
        proof {
            vstd::map_lib::lemma_submap_of_trans(m0, mpre, db.model());
            assert forall|j: int| 0 <= j < i + 1 implies db.model().contains_key(
                (key_spec(#[trigger] nexts@[j].gv(), w)) as u64,
            ) by {
                if j < i {
                    assert(mpre.contains_key((key_spec(nexts@[j].gv(), w)) as u64));
                    assert(mpre.submap_of(db.model()));
                }
            }
            assert forall|k: u64| #[trigger] db.model().contains_key(k) && !old(
                db,
            ).model().contains_key(k) implies exists|h: GState| #[trigger] chain_reached(
                g,
                h,
            ) && k as int == key_spec(h, w) by {
                if !mpre.contains_key(k) {
                    let h = choose|h: GState| #[trigger] chain_reached(
                        nexts@[i as int].gv(),
                        h,
                    ) && k as int == key_spec(h, w);
                    assert(chain_reached(g, g));
                    lemma_chain_step(g, g, nexts@[i as int].gv());
                    lemma_chain_trans(g, nexts@[i as int].gv(), h);
                    assert(chain_reached(g, h) && k as int == key_spec(h, w));
                }
            }
        }
        i = i + 1;
    }
    proof {
        board.lemma_counts();
        lemma_value_turns(g);
        let hw = choose|h: GState| #[trigger] turn_succ(g, h) && value(g) == -value(h);
        assert(crate::board::covers(nexts@, hw));
        let wi = choose|wi: int| 0 <= wi < nexts@.len() && #[trigger] nexts@[wi].gv() == hw;
        assert(-value(nexts@[wi].gv()) <= best as int);
        if best as int > value(g) {
            let j = choose|j: int| 0 <= j < nexts@.len() && best as int == -value(
                #[trigger] nexts@[j].gv(),
            );
            assert(turn_succ(g, nexts@[j].gv()));
            assert(false);
        }
        assert(best as int == value(g));
    }
    let ghost mpre2: Map<u64, i8> = db.model();
    let key2 = board.key();
    let delta = best - board.store_score();
    db.set(key2, delta);
    proof {
        assert forall|h: GState| #[trigger] turn_succ(g, h) implies mpre2.contains_key(
            (key_spec(h, w)) as u64,
        ) by {
            assert(crate::board::covers(nexts@, h));
            let j = choose|j: int| 0 <= j < nexts@.len() && #[trigger] nexts@[j].gv() == h;
            assert(mpre2.contains_key((key_spec(nexts@[j].gv(), w)) as u64));
        }
        lemma_score_db_insert_ok(mpre2, db.model(), g, key2, delta, rule, p, w);
        lemma_compact_db_closed_node(mpre2, db.model(), g, key2, delta, rule, p, w);
        vstd::map_lib::lemma_submap_of_trans(m0, mpre2, db.model());
        assert forall|k: u64| #[trigger] db.model().contains_key(k) && !old(
            db,
        ).model().contains_key(k) implies exists|h: GState| #[trigger] chain_reached(
            g,
            h,
        ) && k as int == key_spec(h, w) by {
            if !mpre2.contains_key(k) {
                assert(k == key2);
                assert(chain_reached(g, g) && k as int == key_spec(g, w));
            }
        }
    }
    best
}

/// Fill a fresh sharded store with the exact margin of every position the
/// workers reach from `board`.  Each worker reuses what the previous ones
/// settled; with no worker at all the store comes back empty.
pub fn search_score(board: Board, threads: usize, div: usize) -> (db: InMemoryDB<u64, i8>)
    requires
        board.wf(),
        board.fits_u64(),
        1 <= div,
    ensures
        db.inv(),
        score_db_ok(db.model(), board.gv().rule, board.spec_pit_count(), board.key_width()),
        compact_db_closed(
            db.model(),
            board.gv().rule,
            board.spec_pit_count(),
            board.key_width(),
        ),
        threads >= 1 ==> db.model().contains_key(
            (key_spec(board.gv(), board.key_width())) as u64,
        ),
        threads >= 1 ==> db.model()[(key_spec(board.gv(), board.key_width())) as u64] as int
            == value(board.gv()) - diff_g(board.gv()),
        threads == 0 ==> db.model() == Map::<u64, i8>::empty(),
        keys_reached(board, db.model()),
{
    let mut db: InMemoryDB<u64, i8> = InMemoryDB::new(div);
    let mut t: usize = 0;
    while t < threads
        invariant
            board.wf(),
            board.fits_u64(),
            db.inv(),
            score_db_ok(
                db.model(),
                board.gv().rule,
                board.spec_pit_count(),
                board.key_width(),
            ),
            compact_db_closed(
                db.model(),
                board.gv().rule,
                board.spec_pit_count(),
                board.key_width(),
            ),
            t >= 1 ==> db.model().contains_key(
                (key_spec(board.gv(), board.key_width())) as u64,
            ),
            0 <= t <= threads,
            t == 0 ==> db.model() == Map::<u64, i8>::empty(),
            keys_reached(board, db.model()),
        decreases threads - t,
    {
        let ghost mpre: Map<u64, i8> = db.model();
        search_score_worker(&mut db, &board);
        proof {
            assert forall|k: u64| #[trigger] db.model().contains_key(k) implies exists|
                h: GState,
            | #[trigger] chain_reached(board.gv(), h) && k as int == key_spec(
                h,
                board.key_width(),
            ) by {
                if !mpre.contains_key(k) {
                    assert(exists|h: GState| #[trigger] chain_reached(board.gv(), h)
                        && k as int == key_spec(h, board.key_width()));
                }
            }
        }
        t = t + 1;
    }
    proof {
        if threads >= 1 {
            board.lemma_counts();
            board.lemma_pits_fit_width();
            lemma_bits_for(2 * board.spec_pit_count() * board.spec_seeds());
            lemma_key_in_range(board.gv(), board.key_width());
            let k: u64 = (key_spec(board.gv(), board.key_width())) as u64;
            assert(db.model().contains_key(k));
            assert(k as int == key_spec(board.gv(), board.key_width()));
        }
    }
    db
}

} // verus!
