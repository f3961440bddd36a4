//! The DAG compressor: sweep the reachable graph breadth-first from the
//! root, restart the frontier every `depth` plies, and copy only each
//! wave's boundary positions into a smaller store.  The result trades
//! memory for reconstructability: a checkpoint, not the full graph.

use vstd::prelude::*;

use crate::board::{key_spec, lemma_bits_for, lemma_key_injective, pow2i, Board, CompactKey};
use crate::db::base::DB;
use crate::db::no_lock::NoLockDB;
use crate::rules::{chain_reached, finished_g, lemma_chain_step, lemma_mu_nonneg,
    lemma_turn_succ_props, lemma_turn_succ_stores, mu, pit_count, total_g, turn_chain,
    turn_succ, wf_g, GState};
use crate::search::score::{compact_db_closed, keys_reached, lemma_compact_store_covers_chains,
    lemma_key_in_range, lemma_small_total_fits_width};

verus! {

/// The largest measure among the listed boards.
pub open spec fn max_mu(s: Seq<Board>) -> int
    decreases s.len(),
{
    if s.len() == 0 {
        0
    } else {
        let rest: int = max_mu(s.drop_last());
        if rest < mu(s.last().gv()) {
            mu(s.last().gv())
        } else {
            rest
        }
    }
}

proof fn lemma_max_mu_le(s: Seq<Board>, i: int)
    requires
        0 <= i < s.len(),
    ensures
        mu(s[i].gv()) <= max_mu(s),
    decreases s.len(),
{
    if i == s.len() - 1 {
    } else {
        lemma_max_mu_le(s.drop_last(), i);
    }
}

proof fn lemma_max_mu_nonneg(s: Seq<Board>)
    ensures
        max_mu(s) >= 0,
    decreases s.len(),
{
    if s.len() > 0 {
        lemma_max_mu_nonneg(s.drop_last());
    }
}

proof fn lemma_max_mu_bounded(s: Seq<Board>, m: int)
    requires
        forall|i: int| 0 <= i < s.len() ==> 0 <= mu(#[trigger] s[i].gv()) < m,
    ensures
        max_mu(s) < m || s.len() == 0,
    decreases s.len(),
{
    if s.len() > 0 {
        assert(mu(s[s.len() - 1].gv()) < m);
        if s.len() == 1 {
            assert(s.drop_last().len() == 0);
            assert(max_mu(s.drop_last()) == 0);
        } else {
            assert(forall|i: int| 0 <= i < s.drop_last().len() ==> 0 <= mu(
                #[trigger] s.drop_last()[i].gv(),
            ) < m) by {
                assert(forall|i: int| 0 <= i < s.drop_last().len()
                    ==> s.drop_last()[i] == s[i]);
            }
            lemma_max_mu_bounded(s.drop_last(), m);
        }
    }
}

/// Every board of the wave is well formed, shares the root's
/// configuration, and stands at the end of some chain of completed turns
/// from the root.
pub open spec fn wave_ok(root: Board, s: Seq<Board>) -> bool {
    forall|i: int| 0 <= i < s.len() ==> (#[trigger] s[i].wf()) && s[i].fits_u64()
        && s[i].spec_pit_count() == root.spec_pit_count() && s[i].spec_seeds()
        == root.spec_seeds() && chain_reached(root.gv(), s[i].gv())
}

/// Every listed board's measure is below `m`.
pub open spec fn mu_below(s: Seq<Board>, m: int) -> bool {
    forall|i: int| 0 <= i < s.len() ==> mu(#[trigger] s[i].gv()) < m
}

/// `h` stands exactly `n` completed turns after `g`.
pub open spec fn reach_in(g: GState, h: GState, n: int) -> bool
    decreases n,
{
    if n <= 0 {
        h == g
    } else {
        exists|m: GState| !finished_g(g) && #[trigger] turn_succ(g, m) && reach_in(
            m,
            h,
            n - 1,
        )
    }
}

/// Some position whose key is `k` stands between one and `n` completed
/// turns after `g`.
pub open spec fn key_reached_within(g: GState, w: nat, k: int, n: int) -> bool {
    exists|h: GState, s: int| 1 <= s <= n && #[trigger] reach_in(g, h, s) && key_spec(h, w)
        == k
}

/// Some listed board carries key `k`.
pub open spec fn key_listed(s: Seq<Board>, w: nat, k: int) -> bool {
    exists|i: int| 0 <= i < s.len() && key_spec(#[trigger] s[i].gv(), w) == k
}

/// Some board among the first `n` listed carries key `k`.
pub open spec fn key_listed_prefix(s: Seq<Board>, n: int, w: nat, k: int) -> bool {
    exists|i: int| 0 <= i < n && i < s.len() && key_spec(#[trigger] s[i].gv(), w) == k
}

/// The first wave's boundary is covered: the key of every position first
/// reached exactly `depth` completed turns after the root — no position
/// sharing its key stands fewer turns out — is entered in the map.
pub open spec fn boundary_covered<V>(root: Board, depth: int, m: Map<u64, V>) -> bool {
    forall|h: GState| #[trigger] reach_in(root.gv(), h, depth) && !key_reached_within(
        root.gv(),
        root.key_width(),
        key_spec(h, root.key_width()),
        depth - 1,
    ) ==> m.contains_key((key_spec(h, root.key_width())) as u64)
}

/// Positions a fixed number of completed turns out keep the rule, the
/// configuration and the seed total, and stay well formed.
proof fn lemma_reach_in_props(g: GState, h: GState, n: int)
    requires
        wf_g(g),
        reach_in(g, h, n),
    ensures
        wf_g(h),
        total_g(h) == total_g(g),
        h.rule == g.rule,
        pit_count(h) == pit_count(g),
    decreases n,
{
    if n > 0 {
        let m = choose|m: GState| !finished_g(g) && #[trigger] turn_succ(g, m) && reach_in(
            m,
            h,
            n - 1,
        );
        lemma_turn_succ_props(g, m);
        lemma_reach_in_props(m, h, n - 1);
    }
}

/// One more completed turn at the end of the walk.
proof fn lemma_reach_in_snoc(g: GState, x: GState, y: GState, n: int)
    requires
        wf_g(g),
        n >= 0,
        reach_in(g, x, n),
        !finished_g(x),
        turn_succ(x, y),
    ensures
        reach_in(g, y, n + 1),
    decreases n,
{
    if n <= 0 {
        assert(reach_in(y, y, 0));
        assert(!finished_g(g) && turn_succ(g, y) && reach_in(y, y, 1 - 1));
        assert(reach_in(g, y, 1));
    } else {
        let m = choose|m: GState| !finished_g(g) && #[trigger] turn_succ(g, m) && reach_in(
            m,
            x,
            n - 1,
        );
        lemma_turn_succ_props(g, m);
        lemma_reach_in_snoc(m, x, y, n - 1);
        assert(!finished_g(g) && turn_succ(g, m) && reach_in(m, y, n + 1 - 1));
        assert(reach_in(g, y, n + 1));
    }
}

/// Walking back one completed turn from the end of the walk.
proof fn lemma_reach_in_unsnoc(g: GState, h: GState, n: int)
    requires
        wf_g(g),
        n >= 1,
        reach_in(g, h, n),
    ensures
        exists|x: GState| #[trigger] reach_in(g, x, n - 1) && !finished_g(x) && turn_succ(
            x,
            h,
        ),
    decreases n,
{
    let m = choose|m: GState| !finished_g(g) && #[trigger] turn_succ(g, m) && reach_in(
        m,
        h,
        n - 1,
    );
    if n == 1 {
        assert(m == h);
        assert(reach_in(g, g, 0) && !finished_g(g) && turn_succ(g, h));
    } else {
        lemma_turn_succ_props(g, m);
        lemma_reach_in_unsnoc(m, h, n - 1);
        let x = choose|x: GState| #[trigger] reach_in(m, x, n - 2) && !finished_g(x)
            && turn_succ(x, h);
        assert(!finished_g(g) && turn_succ(g, m) && reach_in(m, x, n - 1 - 1));
        assert(reach_in(g, x, n - 1) && !finished_g(x) && turn_succ(x, h));
    }
}

/// Two positions of one configuration that share a key share their
/// successors' keys too: the key reads the rows, and the rows drive the
/// moves.
proof fn lemma_key_succ_transfer(a: GState, b: GState, h: GState, w: nat)
    requires
        wf_g(a),
        wf_g(b),
        a.rule == b.rule,
        pit_count(a) == pit_count(b),
        total_g(a) < pow2i(w),
        total_g(b) < pow2i(w),
        key_spec(a, w) == key_spec(b, w),
        turn_succ(a, h),
    ensures
        finished_g(b) == finished_g(a),
        exists|hb: GState| #[trigger] turn_succ(b, hb) && key_spec(hb, w) == key_spec(h, w),
{
    lemma_small_total_fits_width(a, w);
    lemma_small_total_fits_width(b, w);
    lemma_key_injective(a, b, w);
    lemma_turn_succ_stores(a, b, h);
    let hb = choose|hb: GState| #[trigger] turn_succ(b, hb) && hb.my == h.my && hb.op == h.op
        && hb.rule == h.rule;
    assert(hb.my + hb.op == h.my + h.op);
    assert(turn_succ(b, hb) && key_spec(hb, w) == key_spec(h, w));
}

/// A key one completed turn past an already-reached key is reached one
/// turn further out: whatever position carries the predecessor's key has a
/// successor carrying the successor's key.
proof fn lemma_key_within_step(g0: GState, x: GState, h: GState, w: nat, n: int, b: int)
    requires
        wf_g(g0),
        total_g(g0) < pow2i(w),
        n >= 0,
        reach_in(g0, x, n),
        !finished_g(x),
        turn_succ(x, h),
        key_reached_within(g0, w, key_spec(x, w), b),
    ensures
        key_reached_within(g0, w, key_spec(h, w), b + 1),
{
    let (g2, s2): (GState, int) = choose|g2: GState, s2: int| 1 <= s2 <= b
        && #[trigger] reach_in(g0, g2, s2) && key_spec(g2, w) == key_spec(x, w);
    lemma_reach_in_props(g0, g2, s2);
    lemma_reach_in_props(g0, x, n);
    lemma_key_succ_transfer(x, g2, h, w);
    let hb = choose|hb: GState| #[trigger] turn_succ(g2, hb) && key_spec(hb, w) == key_spec(
        h,
        w,
    );
    lemma_reach_in_snoc(g0, g2, hb, s2);
    assert(1 <= s2 + 1 <= b + 1 && reach_in(g0, hb, s2 + 1) && key_spec(hb, w) == key_spec(
        h,
        w,
    ));
}

/// Whether a key is already listed.
fn contains_key_u64(seen: &Vec<u64>, k: u64) -> (r: bool)
    ensures
        r == seen@.contains(k),
{
    let mut i: usize = 0;
    while i < seen.len()
        invariant
            0 <= i <= seen@.len(),
            forall|j: int| 0 <= j < i ==> seen@[j] != k,
        decreases seen@.len() - i,
    {
        if seen[i] == k {
            proof {
                assert(seen@[i as int] == k);
            }
            return true;
        }
        i = i + 1;
    }
    proof {
        if seen@.contains(k) {
            let j = choose|j: int| 0 <= j < seen@.len() && seen@[j] == k;
            assert(false);
        }
    }
    false
}

/// Copy each wave's boundary positions of a completed store into a smaller
/// one: every `depth` plies the frontier restarts and only the boundary is
/// kept.  Returns nothing only when the store lacks a swept position; a
/// store closed under completed turns that holds the root never does.
pub fn compress_dag<V: Copy>(root: Board, db: &NoLockDB<u64, V>, depth: usize) -> (r: Option<
    NoLockDB<u64, V>,
>)
    requires
        root.wf(),
        root.fits_u64(),
        db.inv(),
        1 <= depth,
    ensures
        (r matches Some(out) ==> {
            &&& out.inv()
            &&& forall|k: u64| #[trigger] out.model().contains_key(k)
                ==> db.model().contains_key(k) && out.model()[k] == db.model()[k]
            &&& keys_reached(root, out.model())
            &&& boundary_covered(root, depth as int, out.model())
        }),
        compact_db_closed(db.model(), root.gv().rule, root.spec_pit_count(), root.key_width())
            && db.model().contains_key((key_spec(root.gv(), root.key_width())) as u64)
            ==> r is Some,
{
    let ghost w: nat = root.key_width();
    let ghost mut wave: int = 0;
    let mut compressed: NoLockDB<u64, V> = NoLockDB::new();
    let mut leaf: Vec<Board> = Vec::new();
    leaf.push(root.copy_board());
    proof {
        root.lemma_counts();
        lemma_mu_nonneg(root.gv());
        assert(leaf@[0].gv() == root.gv());
        assert(wave_ok(root, leaf@));
    }
    while leaf.len() > 0
        invariant
            root.wf(),
            root.fits_u64(),
            db.inv(),
            compressed.inv(),
            1 <= depth,
            w == root.key_width(),
            wave >= 0,
            wave == 0 ==> compressed.model() == Map::<u64, V>::empty(),
            wave == 0 ==> leaf@.len() == 1 && leaf@[0].gv() == root.gv(),
            wave >= 1 ==> boundary_covered(root, depth as int, compressed.model()),
            forall|k: u64| #[trigger] compressed.model().contains_key(k)
                ==> db.model().contains_key(k) && compressed.model()[k] == db.model()[k],
            keys_reached(root, compressed.model()),
            wave_ok(root, leaf@),
        decreases max_mu(leaf@), leaf@.len(),
    {
        let ghost m_in: int = max_mu(leaf@);
        proof {
            lemma_max_mu_nonneg(leaf@);
            assert forall|i: int| 0 <= i < leaf@.len() implies mu(#[trigger] leaf@[i].gv())
                <= m_in by {
                lemma_max_mu_le(leaf@, i);
            }
        }
        let mut seen: Vec<u64> = Vec::new();
        let mut step: usize = 0;
        proof {
            root.lemma_counts();
            root.lemma_pits_fit_width();
            lemma_bits_for(2 * root.spec_pit_count() * root.spec_seeds());
            assert(total_g(root.gv()) < pow2i(w));
            if wave == 0 {
                assert forall|h: GState| #[trigger] reach_in(root.gv(), h, 0int)
                    && !key_reached_within(root.gv(), w, key_spec(h, w), -1int)
                    implies key_listed(leaf@, w, key_spec(h, w)) by {
                    assert(h == root.gv());
                    assert(0 <= 0 < leaf@.len() && key_spec(leaf@[0].gv(), w) == key_spec(
                        h,
                        w,
                    ));
                }
                assert forall|i: int| 0 <= i < leaf@.len() implies reach_in(
                    root.gv(),
                    #[trigger] leaf@[i].gv(),
                    0int,
                ) by {
                    assert(leaf@[i].gv() == root.gv());
                }
            }
        }
        while step < depth
            invariant
                root.wf(),
                root.fits_u64(),
                db.inv(),
                compressed.inv(),
                1 <= depth,
                0 <= step <= depth,
                w == root.key_width(),
                total_g(root.gv()) < pow2i(w),
                wf_g(root.gv()),
                wave_ok(root, leaf@),
                mu_below(leaf@, m_in + 1),
                step >= 1 ==> mu_below(leaf@, m_in),
                m_in >= 0,
                wave == 0 ==> compressed.model() == Map::<u64, V>::empty(),
                wave == 0 ==> forall|h: GState| #[trigger] reach_in(
                    root.gv(),
                    h,
                    step as int,
                ) && !key_reached_within(root.gv(), w, key_spec(h, w), step as int - 1)
                    ==> key_listed(leaf@, w, key_spec(h, w)),
                wave == 0 ==> forall|j: int| 0 <= j < seen@.len()
                    ==> #[trigger] key_reached_within(
                    root.gv(),
                    w,
                    seen@[j] as int,
                    step as int,
                ),
                wave == 0 ==> forall|i: int| 0 <= i < leaf@.len() ==> reach_in(
                    root.gv(),
                    #[trigger] leaf@[i].gv(),
                    step as int,
                ),
            decreases depth - step,
        {
            let mut next_list: Vec<Board> = Vec::new();
            let mut bi: usize = 0;
            while bi < leaf.len()
                invariant
                    root.wf(),
                    root.fits_u64(),
                    0 <= bi <= leaf@.len(),
                    compressed.inv(),
                    w == root.key_width(),
                    total_g(root.gv()) < pow2i(w),
                    wf_g(root.gv()),
                    0 <= step,
                    wave_ok(root, leaf@),
                    mu_below(leaf@, m_in + 1),
                    wave_ok(root, next_list@),
                    mu_below(next_list@, m_in),
                    wave == 0 ==> compressed.model() == Map::<u64, V>::empty(),
                    wave == 0 ==> forall|j: int| 0 <= j < seen@.len()
                        ==> #[trigger] key_reached_within(
                        root.gv(),
                        w,
                        seen@[j] as int,
                        step as int,
                    ) || key_listed(next_list@, w, seen@[j] as int),
                    wave == 0 ==> forall|i: int| 0 <= i < leaf@.len() ==> reach_in(
                        root.gv(),
                        #[trigger] leaf@[i].gv(),
                        step as int,
                    ),
                    wave == 0 ==> forall|i: int| 0 <= i < next_list@.len() ==> reach_in(
                        root.gv(),
                        #[trigger] next_list@[i].gv(),
                        step as int + 1,
                    ),
                    wave == 0 ==> forall|h1: GState, h: GState| #[trigger] reach_in(
                        root.gv(),
                        h1,
                        step as int,
                    ) && key_listed_prefix(leaf@, bi as int, w, key_spec(h1, w))
                        && !finished_g(h1) && #[trigger] turn_succ(h1, h)
                        && !key_reached_within(root.gv(), w, key_spec(h, w), step as int)
                        ==> key_listed(next_list@, w, key_spec(h, w)),
                decreases leaf@.len() - bi,
            {
                proof {
                    assert(leaf@[bi as int].wf());
                }
                let nexts = leaf[bi].list_next();
                let mut ni: usize = 0;
                while ni < nexts.len()
                    invariant
                        root.wf(),
                        root.fits_u64(),
                        0 <= ni <= nexts@.len(),
                        bi < leaf@.len(),
                        compressed.inv(),
                        w == root.key_width(),
                        total_g(root.gv()) < pow2i(w),
                        wf_g(root.gv()),
                        0 <= step,
                        wave_ok(root, leaf@),
                        mu(leaf@[bi as int].gv()) < m_in + 1,
                        nexts@.len() == 0 <==> crate::rules::finished_g(
                            leaf@[bi as int].gv(),
                        ),
                        forall|j: int| 0 <= j < nexts@.len()
                            ==> crate::board::next_of(leaf@[bi as int], #[trigger] nexts@[j]),
                        forall|j: int| 0 <= j < nexts@.len() ==> mu(
                            #[trigger] nexts@[j].gv(),
                        ) < mu(leaf@[bi as int].gv()),
                        wave_ok(root, next_list@),
                        mu_below(next_list@, m_in),
                        wave == 0 ==> compressed.model() == Map::<u64, V>::empty(),
                        wave == 0 ==> forall|j: int| 0 <= j < seen@.len()
                            ==> #[trigger] key_reached_within(
                            root.gv(),
                            w,
                            seen@[j] as int,
                            step as int,
                        ) || key_listed(next_list@, w, seen@[j] as int),
                        wave == 0 ==> forall|i: int| 0 <= i < leaf@.len() ==> reach_in(
                            root.gv(),
                            #[trigger] leaf@[i].gv(),
                            step as int,
                        ),
                        wave == 0 ==> forall|i: int| 0 <= i < next_list@.len() ==> reach_in(
                            root.gv(),
                            #[trigger] next_list@[i].gv(),
                            step as int + 1,
                        ),
                        wave == 0 ==> forall|h1: GState, h: GState| #[trigger] reach_in(
                            root.gv(),
                            h1,
                            step as int,
                        ) && key_listed_prefix(leaf@, bi as int, w, key_spec(h1, w))
                            && !finished_g(h1) && #[trigger] turn_succ(h1, h)
                            && !key_reached_within(root.gv(), w, key_spec(h, w), step as int)
                            ==> key_listed(next_list@, w, key_spec(h, w)),
                        wave == 0 ==> forall|j: int| 0 <= j < ni
                            ==> key_reached_within(
                            root.gv(),
                            w,
                            key_spec(#[trigger] nexts@[j].gv(), w),
                            step as int,
                        ) || key_listed(next_list@, w, key_spec(nexts@[j].gv(), w)),
                    decreases nexts@.len() - ni,
                {
                    proof {
                        assert(crate::board::next_of(leaf@[bi as int], nexts@[ni as int]));
                        nexts@[ni as int].lemma_counts();
                    }
                    let next = nexts[ni].copy_board();
                    let ghost ng: GState = next.gv();
                    proof {
                        assert(leaf@[bi as int].wf());
                        assert(leaf@[bi as int].fits_u64());
                        assert(next.fits_u64());
                        assert(next.key_width() == w);
                    }
                    let key = next.key();
                    let ghost seen_pre: Seq<u64> = seen@;
                    let ghost next_pre: Seq<Board> = next_list@;
                    proof {
                        assert(key as int == key_spec(ng, w));
                    }
                    let already = compressed.get(&key);
                    if already.is_none() {
                        if !contains_key_u64(&seen, key) {
                            seen.push(key);
                            proof {
                                assert(leaf@[bi as int].wf());
                                assert(chain_reached(root.gv(), leaf@[bi as int].gv()));
                                lemma_chain_step(
                                    root.gv(),
                                    leaf@[bi as int].gv(),
                                    next.gv(),
                                );
                            }
                            next_list.push(next);
                            proof {
                                assert(wave_ok(root, next_list@));
                                assert(mu_below(next_list@, m_in));
                                assert(next_list@.drop_last() =~= next_pre);
                                assert(next_list@.last().gv() == ng);
                                assert(seen@ =~= seen_pre.push(key));
                            }
                        }
                    }
                    proof {
                        if wave == 0 {
                            let gb = leaf@[bi as int].gv();
                            assert(reach_in(root.gv(), gb, step as int));
                            assert(!finished_g(gb));
                            assert(turn_succ(gb, ng));
                            lemma_reach_in_snoc(root.gv(), gb, ng, step as int);
                            let fresh = !compressed.model().contains_key(key)
                                && !seen_pre.contains(key);
                            if !fresh {
                                assert(seen@ == seen_pre && next_list@ == next_pre);
                            }
                            // Frontier distances.
                            assert forall|i: int| 0 <= i < next_list@.len() implies reach_in(
                                root.gv(),
                                #[trigger] next_list@[i].gv(),
                                step as int + 1,
                            ) by {
                                if i < next_pre.len() {
                                    assert(next_pre[i] == next_list@[i]);
                                } else {
                                    assert(next_list@[i].gv() == ng);
                                }
                            }
                            // Seen keys: reached earlier, or carried by the
                            // frontier being built.
                            assert forall|j: int| 0 <= j < seen@.len() implies
                                #[trigger] key_reached_within(
                                root.gv(),
                                w,
                                seen@[j] as int,
                                step as int,
                            ) || key_listed(next_list@, w, seen@[j] as int) by {
                                if j < seen_pre.len() {
                                    assert(seen_pre[j] == seen@[j]);
                                    if !key_reached_within(
                                        root.gv(),
                                        w,
                                        seen_pre[j] as int,
                                        step as int,
                                    ) {
                                        let i0 = choose|i0: int| 0 <= i0 < next_pre.len()
                                            && key_spec(#[trigger] next_pre[i0].gv(), w)
                                            == seen_pre[j] as int;
                                        assert(0 <= i0 < next_list@.len() && key_spec(
                                            next_list@[i0].gv(),
                                            w,
                                        ) == seen@[j] as int);
                                    }
                                } else {
                                    assert(seen@[j] == key);
                                    let il: int = next_list@.len() - 1;
                                    assert(key_spec(next_list@[il].gv(), w)
                                        == seen@[j] as int);
                                }
                            }
                            // Explored successors: reached earlier, or carried
                            // by the frontier being built.
                            assert forall|j: int| 0 <= j < ni + 1 implies key_reached_within(
                                root.gv(),
                                w,
                                key_spec(#[trigger] nexts@[j].gv(), w),
                                step as int,
                            ) || key_listed(next_list@, w, key_spec(nexts@[j].gv(), w)) by {
                                if j < ni {
                                    if !key_reached_within(
                                        root.gv(),
                                        w,
                                        key_spec(nexts@[j].gv(), w),
                                        step as int,
                                    ) {
                                        let i0 = choose|i0: int| 0 <= i0 < next_pre.len()
                                            && key_spec(#[trigger] next_pre[i0].gv(), w)
                                            == key_spec(nexts@[j].gv(), w);
                                        assert(0 <= i0 < next_list@.len() && key_spec(
                                            next_list@[i0].gv(),
                                            w,
                                        ) == key_spec(nexts@[j].gv(), w));
                                    }
                                } else {
                                    assert(nexts@[j].gv() == ng);
                                    if !key_reached_within(
                                        root.gv(),
                                        w,
                                        key_spec(ng, w),
                                        step as int,
                                    ) {
                                        if fresh {
                                            let il: int = next_list@.len() - 1;
                                            assert(key_spec(next_list@[il].gv(), w)
                                                == key_spec(ng, w));
                                        } else if seen_pre.contains(key) {
                                            let j2 = choose|j2: int| 0 <= j2 < seen_pre.len()
                                                && seen_pre[j2] == key;
                                            assert(key_reached_within(
                                                root.gv(),
                                                w,
                                                seen_pre[j2] as int,
                                                step as int,
                                            ) || key_listed(
                                                next_pre,
                                                w,
                                                seen_pre[j2] as int,
                                            ));
                                            let i0 = choose|i0: int| 0 <= i0
                                                < next_pre.len() && key_spec(
                                                #[trigger] next_pre[i0].gv(),
                                                w,
                                            ) == key as int;
                                            assert(0 <= i0 < next_list@.len() && key_spec(
                                                next_list@[i0].gv(),
                                                w,
                                            ) == key_spec(ng, w));
                                        } else {
                                            assert(compressed.model().contains_key(key));
                                            assert(false);
                                        }
                                    }
                                }
                            }
                            // Prefix closure is preserved: the frontier only
                            // grows.
                            assert forall|h1: GState, h: GState| #[trigger] reach_in(
                                root.gv(),
                                h1,
                                step as int,
                            ) && key_listed_prefix(leaf@, bi as int, w, key_spec(h1, w))
                                && !finished_g(h1) && #[trigger] turn_succ(h1, h)
                                && !key_reached_within(
                                root.gv(),
                                w,
                                key_spec(h, w),
                                step as int,
                            ) implies key_listed(next_list@, w, key_spec(h, w)) by {
                                assert(key_listed(next_pre, w, key_spec(h, w)));
                                let i0 = choose|i0: int| 0 <= i0 < next_pre.len()
                                    && key_spec(#[trigger] next_pre[i0].gv(), w) == key_spec(
                                    h,
                                    w,
                                );
                                assert(0 <= i0 < next_list@.len() && key_spec(
                                    next_list@[i0].gv(),
                                    w,
                                ) == key_spec(h, w));
                            }
                        }
                    }
                    ni = ni + 1;
                }
                proof {
                    if wave == 0 {
                        // One more processed board: its key's successors are
                        // now all accounted for.
                        assert forall|h1: GState, h: GState| #[trigger] reach_in(
                            root.gv(),
                            h1,
                            step as int,
                        ) && key_listed_prefix(leaf@, bi as int + 1, w, key_spec(h1, w))
                            && !finished_g(h1) && #[trigger] turn_succ(h1, h)
                            && !key_reached_within(
                            root.gv(),
                            w,
                            key_spec(h, w),
                            step as int,
                        ) implies key_listed(next_list@, w, key_spec(h, w)) by {
                            if !key_listed_prefix(leaf@, bi as int, w, key_spec(h1, w)) {
                                let iw = choose|iw: int| 0 <= iw < bi as int + 1 && iw
                                    < leaf@.len() && key_spec(#[trigger] leaf@[iw].gv(), w)
                                    == key_spec(h1, w);
                                assert(iw == bi as int);
                                let gb = leaf@[bi as int].gv();
                                lemma_reach_in_props(root.gv(), h1, step as int);
                                assert(reach_in(root.gv(), gb, step as int));
                                lemma_reach_in_props(root.gv(), gb, step as int);
                                lemma_key_succ_transfer(h1, gb, h, w);
                                assert(!finished_g(gb));
                                let hb = choose|hb: GState| #[trigger] turn_succ(gb, hb)
                                    && key_spec(hb, w) == key_spec(h, w);
                                assert(crate::board::covers(nexts@, hb));
                                let j = choose|j: int| 0 <= j < nexts@.len()
                                    && #[trigger] nexts@[j].gv() == hb;
                                assert(key_reached_within(
                                    root.gv(),
                                    w,
                                    key_spec(nexts@[j].gv(), w),
                                    step as int,
                                ) || key_listed(
                                    next_list@,
                                    w,
                                    key_spec(nexts@[j].gv(), w),
                                ));
                            }
                        }
                    }
                }
                bi = bi + 1;
            }
            proof {
                if wave == 0 {
                    // The next frontier carries every key first reached one
                    // turn further out.
                    assert forall|h: GState| #[trigger] reach_in(
                        root.gv(),
                        h,
                        step as int + 1,
                    ) && !key_reached_within(root.gv(), w, key_spec(h, w), step as int)
                        implies key_listed(next_list@, w, key_spec(h, w)) by {
                        lemma_reach_in_unsnoc(root.gv(), h, step as int + 1);
                        let x = choose|x: GState| #[trigger] reach_in(
                            root.gv(),
                            x,
                            step as int,
                        ) && !finished_g(x) && turn_succ(x, h);
                        if key_reached_within(root.gv(), w, key_spec(x, w), step as int
                            - 1) {
                            lemma_key_within_step(
                                root.gv(),
                                x,
                                h,
                                w,
                                step as int,
                                step as int - 1,
                            );
                            assert(false);
                        }
                        assert(key_listed(leaf@, w, key_spec(x, w)));
                        let i = choose|i: int| 0 <= i < leaf@.len() && key_spec(
                            #[trigger] leaf@[i].gv(),
                            w,
                        ) == key_spec(x, w);
                        assert(key_listed_prefix(leaf@, bi as int, w, key_spec(x, w)));
                    }
                    // Every seen key is reached within one more turn.
                    assert forall|j: int| 0 <= j < seen@.len() implies
                        #[trigger] key_reached_within(
                        root.gv(),
                        w,
                        seen@[j] as int,
                        step as int + 1,
                    ) by {
                        if key_reached_within(root.gv(), w, seen@[j] as int, step as int) {
                            let (h2, s2): (GState, int) = choose|h2: GState, s2: int| 1 <= s2
                                <= step as int && #[trigger] reach_in(root.gv(), h2, s2)
                                && key_spec(h2, w) == seen@[j] as int;
                            assert(1 <= s2 <= step as int + 1 && reach_in(root.gv(), h2, s2)
                                && key_spec(h2, w) == seen@[j] as int);
                        } else {
                            assert(key_listed(next_list@, w, seen@[j] as int));
                            let i = choose|i: int| 0 <= i < next_list@.len() && key_spec(
                                #[trigger] next_list@[i].gv(),
                                w,
                            ) == seen@[j] as int;
                            assert(reach_in(
                                root.gv(),
                                next_list@[i].gv(),
                                step as int + 1,
                            ));
                            assert(1 <= step as int + 1 <= step as int + 1 && reach_in(
                                root.gv(),
                                next_list@[i].gv(),
                                step as int + 1,
                            ) && key_spec(next_list@[i].gv(), w) == seen@[j] as int);
                        }
                    }
                }
            }
            leaf = next_list;
            step = step + 1;
            proof {
                assert(mu_below(leaf@, m_in + 1));
            }
        }
        proof {
            assert forall|i: int| 0 <= i < leaf@.len() implies 0 <= mu(
                #[trigger] leaf@[i].gv(),
            ) < m_in by {
                assert(leaf@[i].wf());
                assert(mu(leaf@[i].gv()) < m_in);
                leaf@[i].lemma_counts();
                lemma_mu_nonneg(leaf@[i].gv());
            }
            lemma_max_mu_bounded(leaf@, m_in);
            if leaf@.len() > 0 {
                assert(max_mu(leaf@) < m_in);
                lemma_max_mu_nonneg(leaf@);
            }
        }
        // Copy the wave's boundary into the output.
        let mut ci: usize = 0;
        while ci < leaf.len()
            invariant
                root.wf(),
                root.fits_u64(),
                0 <= ci <= leaf@.len(),
                db.inv(),
                compressed.inv(),
                w == root.key_width(),
                1 <= depth,
                step == depth,
                wf_g(root.gv()),
                total_g(root.gv()) < pow2i(w),
                forall|k: u64| #[trigger] compressed.model().contains_key(k)
                    ==> db.model().contains_key(k) && compressed.model()[k]
                    == db.model()[k],
                keys_reached(root, compressed.model()),
                wave_ok(root, leaf@),
                wave >= 0,
                wave == 0 ==> forall|h: GState| #[trigger] reach_in(
                    root.gv(),
                    h,
                    step as int,
                ) && !key_reached_within(root.gv(), w, key_spec(h, w), step as int - 1)
                    ==> key_listed(leaf@, w, key_spec(h, w)),
                wave == 0 ==> forall|i: int| 0 <= i < ci
                    ==> compressed.model().contains_key(
                    (key_spec(#[trigger] leaf@[i].gv(), w)) as u64,
                ),
                wave >= 1 ==> boundary_covered(root, depth as int, compressed.model()),
            decreases leaf@.len() - ci,
        {
            proof {
                assert(leaf@[ci as int].wf());
            }
            let key = leaf[ci].key();
            match db.get(&key) {
                Some(v) => {
                    let ghost c_pre: Map<u64, V> = compressed.model();
                    compressed.set(key, v);
                    proof {
                        assert(leaf@[ci as int].key_width() == root.key_width());
                        assert(chain_reached(root.gv(), leaf@[ci as int].gv())
                            && key as int == key_spec(
                            leaf@[ci as int].gv(),
                            root.key_width(),
                        ));
                        assert(keys_reached(root, compressed.model()));
                        if wave == 0 {
                            assert forall|i: int| 0 <= i < ci + 1 implies
                                compressed.model().contains_key(
                                (key_spec(#[trigger] leaf@[i].gv(), w)) as u64,
                            ) by {
                                if i < ci {
                                    assert(c_pre.contains_key(
                                        (key_spec(leaf@[i].gv(), w)) as u64,
                                    ));
                                }
                            }
                        }
                    }
                },
                None => {
                    proof {
                        if compact_db_closed(
                            db.model(),
                            root.gv().rule,
                            root.spec_pit_count(),
                            w,
                        ) && db.model().contains_key(
                            (key_spec(root.gv(), w)) as u64,
                        ) {
                            let gb = leaf@[ci as int].gv();
                            leaf@[ci as int].lemma_counts();
                            root.lemma_counts();
                            lemma_key_in_range(gb, w);
                            assert((key_spec(gb, w) as u64) as int == key_spec(gb, w));
                            assert(chain_reached(root.gv(), gb));
                            if gb == root.gv() {
                                assert(db.model().contains_key(key));
                                assert(false);
                            } else {
                                let hs = choose|hs: Seq<GState>| #[trigger] turn_chain(
                                    root.gv(),
                                    hs,
                                ) && hs.len() >= 1 && hs.last() == gb;
                                lemma_compact_store_covers_chains(
                                    db.model(),
                                    root.gv().rule,
                                    root.spec_pit_count(),
                                    w,
                                    root.gv(),
                                    hs,
                                );
                                assert(db.model().contains_key(
                                    (key_spec(hs.last(), w)) as u64,
                                ));
                                assert(false);
                            }
                        }
                    }
                    return None;
                },
            }
            ci = ci + 1;
        }
        proof {
            if wave == 0 {
                assert forall|h: GState| #[trigger] reach_in(root.gv(), h, depth as int)
                    && !key_reached_within(
                    root.gv(),
                    w,
                    key_spec(h, w),
                    depth as int - 1,
                ) implies compressed.model().contains_key((key_spec(h, w)) as u64) by {
                    assert(key_listed(leaf@, w, key_spec(h, w)));
                    let i = choose|i: int| 0 <= i < leaf@.len() && key_spec(
                        #[trigger] leaf@[i].gv(),
                        w,
                    ) == key_spec(h, w);
                    assert(compressed.model().contains_key(
                        (key_spec(leaf@[i].gv(), w)) as u64,
                    ));
                }
                assert(boundary_covered(root, depth as int, compressed.model()));
            }
            wave = wave + 1;
        }
    }
    Some(compressed)
}

} // verus!

