use vstd::prelude::*;

use crate::assignment::{approval_of, edge_eqv, evi_of, group_sum, voter_contrib, Assignment};
use crate::builder::{cand_ids, edge_matches_ids, lemma_counts_agree, setup_matches,
    voter_matches_ids};
use crate::election::{init_state, lemma_run_rounds_stuck, lemma_weights_fold_pointwise,
    phragmen_ok_post, reproduces, run_rounds, weight_formula, weights_fold, zero_seq};
use crate::fixed::{div_trunc, fits, lemma_div_trunc_close, lemma_div_trunc_fits, SCALE};
use crate::graph::{edges_before, voter_edges_before, Ballot, Voter};
use crate::rounds::lemma_cs_wf;
use crate::rounds::{lemma_select_props, num_fold, redist_fold, round_spec, scores_of,
    select_from, Ctx, RoundOut, SelectOut, State};

verus! {

/// One successful round touches the elected set in exactly one way: it
/// appends one new candidate, which was not elected before and has
/// positive approval, and reverts nobody.
pub proof fn lemma_round_extends(c: Ctx, st: State)
    requires
        st.flags.len() == c.appr.len(),
        c.appr.len() <= usize::MAX,
        round_spec(c, st) is Next,
    ensures
        ({
            let s = round_spec(c, st)->Next_0;
            &&& s.flags.len() == st.flags.len()
            &&& s.elist.len() == st.elist.len() + 1
            &&& forall|p: int| 0 <= p < st.elist.len() ==> s.elist[p] == st.elist[p]
            &&& forall|d: int| 0 <= d < st.flags.len() && st.flags[d] ==> s.flags[d]
            &&& 0 <= (s.elist[st.elist.len() as int] as int) < c.appr.len()
            &&& c.appr[s.elist[st.elist.len() as int] as int] > 0
            &&& !st.flags[s.elist[st.elist.len() as int] as int]
        }),
{
    let nf = num_fold(c, st, c.evi.len() as int);
    if nf is None {
        assert(false);
    }
    let num = nf->Some_0;
    let st1 = State { score: scores_of(c, st, num), ..st };
    let sel = select_from(c, st1, num, c.appr.len() as int);
    if !(sel is Winner) {
        assert(false);
    }
    let w = sel->Winner_0;
    lemma_select_props(c, st1, num, c.appr.len() as int);
    let st2 = State { flags: st1.flags.update(w, true), elist: st1.elist.push(w as usize), ..st1 };
    let rd = redist_fold(c, st2, w, c.evi.len() as int);
    if rd is None {
        assert(false);
    }
    let s = round_spec(c, st)->Next_0;
    assert(s.flags == st2.flags);
    assert(s.elist == st.elist.push(w as usize));
}

/// Law (monotonicity and electability): over any number of successful
/// rounds, the elected list only ever grows at its end, an elected
/// candidate's flag never reverts, and every newly elected candidate has
/// positive approval — a candidate nobody backs is never elected.
pub proof fn lemma_run_rounds_elected(c: Ctx, st: State, k: int)
    requires
        0 <= k,
        st.flags.len() == c.appr.len(),
        c.appr.len() <= usize::MAX,
        run_rounds(c, st, k) is Next,
    ensures
        ({
            let s = run_rounds(c, st, k)->Next_0;
            &&& s.flags.len() == st.flags.len()
            &&& s.elist.len() == st.elist.len() + k
            &&& forall|p: int| 0 <= p < st.elist.len() ==> s.elist[p] == st.elist[p]
            &&& forall|d: int| 0 <= d < st.flags.len() && st.flags[d] ==> s.flags[d]
            &&& forall|p: int|
                st.elist.len() <= p < s.elist.len() ==> 0 <= (#[trigger] s.elist[p] as int)
                    < c.appr.len() && c.appr[s.elist[p] as int] > 0
        }),
    decreases k,
{
    if k > 0 {
        let prev = run_rounds(c, st, k - 1);
        if !(prev is Next) {
            assert(run_rounds(c, st, k) == prev);
            assert(false);
        }
        lemma_run_rounds_elected(c, st, k - 1);
        let s1 = prev->Next_0;
        lemma_round_extends(c, s1);
    }
}

/// Law (prefix stability): a longer successful run extends the elected
/// list of any shorter run of the same election without disturbing it:
/// once a candidate is elected, it stays elected in every later round.
pub proof fn lemma_elected_monotone(c: Ctx, st: State, k1: int, k2: int)
    requires
        0 <= k1 <= k2,
        st.flags.len() == c.appr.len(),
        c.appr.len() <= usize::MAX,
        run_rounds(c, st, k2) is Next,
    ensures
        run_rounds(c, st, k1) is Next,
        ({
            let s1 = run_rounds(c, st, k1)->Next_0;
            let s2 = run_rounds(c, st, k2)->Next_0;
            &&& s1.elist.len() <= s2.elist.len()
            &&& forall|p: int| 0 <= p < s1.elist.len() ==> s2.elist[p] == s1.elist[p]
            &&& forall|d: int| 0 <= d < s1.flags.len() && s1.flags[d] ==> s2.flags[d]
        }),
{
    if !(run_rounds(c, st, k1) is Next) {
        lemma_run_rounds_stuck(c, st, k1, k2);
        assert(false);
    }
    lemma_run_split(c, st, k1, k2 - k1);
    let s1 = run_rounds(c, st, k1)->Next_0;
    lemma_run_rounds_elected(c, st, k1);
    lemma_run_rounds_elected(c, s1, k2 - k1);
}

/// Running `i + j` rounds is running `i` rounds and then `j` more from
/// where they ended.
pub proof fn lemma_run_split(c: Ctx, st: State, i: int, j: int)
    requires
        0 <= i,
        0 <= j,
        run_rounds(c, st, i) is Next,
    ensures
        run_rounds(c, st, i + j) == run_rounds(c, run_rounds(c, st, i)->Next_0, j),
    decreases j,
{
    if j > 0 {
        lemma_run_split(c, st, i, j - 1);
    }
}

/// Rolling form of the conservation bound: over the first `n` edges, the
/// weights assigned to voter `v`'s edges, scaled by its total load, track
/// its budget share of those edges' loads within one load unit per edge.
proof fn lemma_conservation_prefix(c: Ctx, vl: Seq<i128>, el: Seq<i128>, ws: Seq<i128>, v: int, n: int)
    requires
        el.len() == c.evi.len(),
        ws.len() == c.evi.len(),
        0 <= v < vl.len(),
        0 <= v < c.budget.len(),
        (vl[v] as int) > 0,
        0 <= n <= c.evi.len(),
        forall|e: int|
            0 <= e < c.evi.len() && #[trigger] c.evi[e] == v ==> (ws[e] as int) == div_trunc(
                c.budget[v] * SCALE * (el[e] as int),
                vl[v] as int,
            ),
    ensures
        ({
            let l = vl[v] as int;
            let bs = c.budget[v] * SCALE;
            bs * group_sum(c.evi, el, v, n) - n * l <= l * group_sum(c.evi, ws, v, n) <= bs
                * group_sum(c.evi, el, v, n) + n * l
        }),
    decreases n,
{
    let l = vl[v] as int;
    let bs = c.budget[v] * SCALE;
    if n > 0 {
        lemma_conservation_prefix(c, vl, el, ws, v, n - 1);
        let wp = group_sum(c.evi, ws, v, n - 1);
        let ep = group_sum(c.evi, el, v, n - 1);
        let wn = group_sum(c.evi, ws, v, n);
        let en = group_sum(c.evi, el, v, n);
        if c.evi[n - 1] == v {
            let y = bs * (el[n - 1] as int);
            let q = ws[n - 1] as int;
            lemma_div_trunc_close(y, l);
            assert(y - l < l * q < y + l);
            assert(l * wn == l * wp + l * q) by (nonlinear_arith)
                requires
                    wn == wp + q,
            ;
            assert(bs * en == bs * ep + y) by (nonlinear_arith)
                requires
                    en == ep + (el[n - 1] as int),
                    y == bs * (el[n - 1] as int),
            ;
            assert(n * l == (n - 1) * l + l) by (nonlinear_arith);
        } else {
            assert(n * l == (n - 1) * l + l) by (nonlinear_arith);
        }
    } else {
        assert(bs * group_sum(c.evi, el, v, 0) == 0) by (nonlinear_arith)
            requires
                group_sum(c.evi, el, v, 0) == 0,
        ;
        assert(l * group_sum(c.evi, ws, v, 0) == 0) by (nonlinear_arith)
            requires
                group_sum(c.evi, ws, v, 0) == 0,
        ;
        assert(n * l == 0) by (nonlinear_arith)
            requires
                n == 0,
        ;
    }
}

/// Law (weight conservation): after a successful normalization, every
/// voter with positive total load has the sum of its edges' weights equal
/// to its whole budget (in fixed point, `budget * SCALE`), up to one
/// fixed-point unit per edge of the graph.  Voters with zero load keep
/// their weights untouched, so they contribute nothing when those weights
/// started at zero.
pub proof fn lemma_weight_conservation(
    c: Ctx,
    vl: Seq<i128>,
    el: Seq<i128>,
    ws0: Seq<i128>,
    sup0: Seq<i128>,
    v: int,
)
    requires
        c.evi.len() == c.eci.len(),
        el.len() == c.evi.len(),
        ws0.len() == c.evi.len(),
        weights_fold(c, vl, el, ws0, sup0, c.evi.len() as int) is Some,
        0 <= v < vl.len(),
        0 <= v < c.budget.len(),
        (vl[v] as int) > 0,
        vl[v] as int == group_sum(c.evi, el, v, c.evi.len() as int),
    ensures
        ({
            let ws = weights_fold(c, vl, el, ws0, sup0, c.evi.len() as int)->Some_0.0;
            let n = c.evi.len() as int;
            c.budget[v] * SCALE - n <= group_sum(c.evi, ws, v, n) <= c.budget[v] * SCALE + n
        }),
{
    let n = c.evi.len() as int;
    let ws = weights_fold(c, vl, el, ws0, sup0, n)->Some_0.0;
    let l = vl[v] as int;
    let bs = c.budget[v] * SCALE;
    lemma_weights_fold_pointwise(c, vl, el, ws0, sup0, n);
    assert forall|e: int| 0 <= e < c.evi.len() && #[trigger] c.evi[e] == v implies (ws[e] as int)
        == div_trunc(bs * (el[e] as int), l) by {
        assert(ws[e] == weight_formula(c, vl, el, ws0, e));
        assert(fits(c.budget[c.evi[e]] * SCALE * (el[e] as int)));
        lemma_div_trunc_fits(bs * (el[e] as int), l);
    }
    lemma_conservation_prefix(c, vl, el, ws, v, n);
    let w = group_sum(c.evi, ws, v, n);
    assert(bs * l - n * l <= l * w <= bs * l + n * l);
    assert(bs - n <= w <= bs + n) by (nonlinear_arith)
        requires
            l > 0,
            bs * l - n * l <= l * w <= bs * l + n * l,
    ;
}

/// Law (weight conservation, at the entry point): in the assignment a
/// successful `seq_phragmen` returns, every voter with positive load
/// carries weights summing to its whole budget, up to one fixed-point
/// unit per edge; a voter with zero load contributes exactly zero weight.
pub proof fn lemma_weight_conservation_result(
    votelist: Seq<Ballot>,
    k: int,
    a: Assignment,
    v: int,
)
    requires
        phragmen_ok_post(votelist, k, a),
        0 <= v < a.nv(),
    ensures
        (a.voterload@[v] as int) > 0 ==> ({
            let total = group_sum(evi_of(a.edgelist@), a.edgeweight@, v, a.ne());
            a.voterlist@[v].budget * SCALE - a.ne() <= total <= a.voterlist@[v].budget * SCALE
                + a.ne()
        }),
        (a.voterload@[v] as int) <= 0 ==> forall|e: int|
            0 <= e < a.ne() && evi_of(a.edgelist@)[e] == v ==> a.edgeweight@[e] == 0,
{
    let c = a.ctx();
    lemma_cs_wf(a);
    let s = run_rounds(c, init_state(a.nv(), a.ne(), a.nc()), k)->Next_0;
    if (a.voterload@[v] as int) > 0 {
        lemma_weight_conservation(c, s.vl, s.el, zero_seq(a.ne()), zero_seq(a.nc()), v);
    } else {
        lemma_weights_fold_pointwise(c, s.vl, s.el, zero_seq(a.ne()), zero_seq(a.nc()), a.ne());
        assert forall|e: int|
            0 <= e < a.ne() && evi_of(a.edgelist@)[e] == v implies a.edgeweight@[e] == 0 by {
            assert(a.edgeweight@[e] == weight_formula(c, s.vl, s.el, zero_seq(a.ne()), e));
            assert(zero_seq(a.ne())[e] == 0);
        }
    }
}


/// Every edge position decomposes as "all edges of the earlier ballots,
/// plus an approval of one ballot".
proof fn lemma_edge_position(votelist: Seq<Ballot>, m: int, k: int)
    requires
        0 <= m <= votelist.len(),
        0 <= k < edges_before(votelist, m),
    ensures
        exists|v: int|
            0 <= v < m && #[trigger] edges_before(votelist, v) <= k < edges_before(votelist, v)
                + votelist[v].2@.len(),
    decreases m,
{
    if m > 0 {
        if k < edges_before(votelist, m - 1) {
            lemma_edge_position(votelist, m - 1, k);
            let v = choose|v: int|
                0 <= v < m - 1 && #[trigger] edges_before(votelist, v) <= k < edges_before(
                    votelist,
                    v,
                ) + votelist[v].2@.len();
            assert(0 <= v < m && edges_before(votelist, v) <= k < edges_before(votelist, v)
                + votelist[v].2@.len());
        } else {
            crate::graph::lemma_edges_before_mono(votelist, 0, m - 1);
            let v = m - 1;
            assert(0 <= v < m && edges_before(votelist, v) <= k < edges_before(votelist, v)
                + votelist[v].2@.len());
        }
    }
}

/// In a graph that reproduces the ballots, the edge at position
/// `edges_before(v) + j` names voter `v` and the candidate whose
/// identifier is approval `j` of ballot `v`.
proof fn lemma_edge_field_values(
    votelist: Seq<Ballot>,
    a: Assignment,
    v: int,
    j: int,
)
    requires
        reproduces(votelist, a),
        0 <= v < votelist.len(),
        0 <= j < votelist[v].2@.len(),
    ensures
        ({
            let k = edges_before(votelist, v) + j;
            let e = a.edgelist@[k];
            &&& 0 <= k < a.ne()
            &&& e.voterindex == v
            &&& 0 <= e.canindex < cand_ids(votelist).len()
            &&& cand_ids(votelist)[e.canindex as int] == votelist[v].2@[j]@
        }),
{
    lemma_counts_agree(votelist, a.voterlist@, votelist.len() as int);
    lemma_counts_agree(votelist, a.voterlist@, v);
    assert(voter_matches_ids(votelist, cand_ids(votelist), a.voterlist@, v));
    assert(edge_matches_ids(votelist, cand_ids(votelist), v, j, a.voterlist@[v].edges@[j]));
    assert(edge_eqv(
        a.edgelist@[voter_edges_before(a.voterlist@, v) + j],
        a.voterlist@[v].edges@[j],
    ));
    crate::graph::lemma_edges_before_mono(votelist, v + 1, votelist.len() as int);
    crate::graph::lemma_edges_before_mono(votelist, 0, v);
}

/// One voter's contribution to an approval depends only on the ballots.
proof fn lemma_contrib_same(w1: Voter, w2: Voter, c: int, j: int)
    requires
        0 <= j <= w1.edges@.len(),
        w1.edges@.len() == w2.edges@.len(),
        w1.budget == w2.budget,
        forall|p: int|
            0 <= p < w1.edges@.len() ==> (#[trigger] w1.edges@[p]).canindex
                == w2.edges@[p].canindex,
    ensures
        voter_contrib(w1, c, j) == voter_contrib(w2, c, j),
    decreases j,
{
    if j > 0 {
        lemma_contrib_same(w1, w2, c, j - 1);
    }
}

/// Approvals depend only on the ballots.
proof fn lemma_approval_same(votelist: Seq<Ballot>, a1: Assignment, a2: Assignment, c: int, v: int)
    requires
        reproduces(votelist, a1),
        reproduces(votelist, a2),
        0 <= v <= votelist.len(),
    ensures
        approval_of(a1.voterlist@, c, v) == approval_of(a2.voterlist@, c, v),
    decreases v,
{
    if v > 0 {
        lemma_approval_same(votelist, a1, a2, c, v - 1);
        let w1 = a1.voterlist@[v - 1];
        let w2 = a2.voterlist@[v - 1];
        assert(voter_matches_ids(votelist, cand_ids(votelist), a1.voterlist@, v - 1));
        assert(voter_matches_ids(votelist, cand_ids(votelist), a2.voterlist@, v - 1));
        assert forall|p: int|
            0 <= p < w1.edges@.len() implies (#[trigger] w1.edges@[p]).canindex
            == w2.edges@[p].canindex by {
            assert(edge_matches_ids(votelist, cand_ids(votelist), v - 1, p, w1.edges@[p]));
            assert(edge_matches_ids(votelist, cand_ids(votelist), v - 1, p, w2.edges@[p]));
        }
        lemma_contrib_same(w1, w2, c, w1.edges@.len() as int);
    }
}

/// Law (determinism): two successful runs on the same ballots and seat
/// count produce the same elected candidates, flags, loads, scores,
/// weights and supports.  The whole result is a function of the input.
pub proof fn lemma_deterministic(votelist: Seq<Ballot>, k: int, a1: Assignment, a2: Assignment)
    requires
        phragmen_ok_post(votelist, k, a1),
        phragmen_ok_post(votelist, k, a2),
    ensures
        a1.electedcandidates@ == a2.electedcandidates@,
        a1.canelected@ == a2.canelected@,
        a1.voterload@ == a2.voterload@,
        a1.edgeload@ == a2.edgeload@,
        a1.canscore@ == a2.canscore@,
        a1.edgeweight@ == a2.edgeweight@,
        a1.cansupport@ == a2.cansupport@,
{
    lemma_graph_determined(votelist, a1, a2);
    let run = run_rounds(a1.ctx(), init_state(a1.nv(), a1.ne(), a1.nc()), k);
    let s = run->Next_0;
    assert(a1.voterload@ == s.vl && a2.voterload@ == s.vl);
    assert(a1.edgeload@ == s.el && a2.edgeload@ == s.el);
    assert(a1.canscore@ == s.score && a2.canscore@ == s.score);
    assert(a1.canelected@ == s.flags && a2.canelected@ == s.flags);
    assert(a1.electedcandidates@ == s.elist && a2.electedcandidates@ == s.elist);
    let wsup = weights_fold(a1.ctx(), s.vl, s.el, zero_seq(a1.ne()), zero_seq(a1.nc()), a1.ne())->Some_0;
    assert(a1.edgeweight@ == wsup.0 && a2.edgeweight@ == wsup.0);
    assert(a1.cansupport@ == wsup.1 && a2.cansupport@ == wsup.1);
}

/// Law (the graph is a function of the ballots): any two assignments
/// whose graphs reproduce the same ballots have the same dimensions and
/// the same numeric context — voter and candidate indices, budgets and
/// approvals.  With the run and the normalization both functions of that
/// context, every outcome of the election is determined by the input.
pub proof fn lemma_graph_determined(votelist: Seq<Ballot>, a1: Assignment, a2: Assignment)
    requires
        reproduces(votelist, a1),
        reproduces(votelist, a2),
    ensures
        a1.nv() == a2.nv(),
        a1.ne() == a2.ne(),
        a1.nc() == a2.nc(),
        a1.ctx() == a2.ctx(),
{
    let ids = cand_ids(votelist);
    let n = votelist.len() as int;
    lemma_counts_agree(votelist, a1.voterlist@, n);
    lemma_counts_agree(votelist, a2.voterlist@, n);
    assert(a1.ne() == edges_before(votelist, n));
    assert(a1.nv() == a2.nv() && a1.ne() == a2.ne() && a1.nc() == a2.nc());
    let c1 = a1.ctx();
    let c2 = a2.ctx();
    assert forall|e: int| 0 <= e < a1.ne() implies c1.evi[e] == c2.evi[e] && c1.eci[e]
        == c2.eci[e] by {
        lemma_edge_position(votelist, n, e);
        let v = choose|v: int|
            0 <= v < n && #[trigger] edges_before(votelist, v) <= e < edges_before(votelist, v)
                + votelist[v].2@.len();
        let j = e - edges_before(votelist, v);
        lemma_edge_field_values(votelist, a1, v, j);
        lemma_edge_field_values(votelist, a2, v, j);
        let d1 = a1.edgelist@[e].canindex as int;
        let d2 = a2.edgelist@[e].canindex as int;
        if d1 != d2 {
            assert(ids[d1] == ids[d2]);
            assert(false);
        }
    }
    assert forall|v: int| 0 <= v < a1.nv() implies c1.budget[v] == c2.budget[v] by {
        assert(voter_matches_ids(votelist, ids, a1.voterlist@, v));
        assert(voter_matches_ids(votelist, ids, a2.voterlist@, v));
    }
    assert forall|d: int| 0 <= d < a1.nc() implies c1.appr[d] == c2.appr[d] by {
        lemma_approval_same(votelist, a1, a2, d, n);
    }
    assert(c1.evi =~= c2.evi);
    assert(c1.eci =~= c2.eci);
    assert(c1.budget =~= c2.budget);
    assert(c1.appr =~= c2.appr);
    assert(c1 == c2);
}


/// A normalization pass over voters without positive load changes
/// neither weights nor supports.
proof fn lemma_weights_fold_idle(
    c: Ctx,
    vl: Seq<i128>,
    el: Seq<i128>,
    ws0: Seq<i128>,
    sup0: Seq<i128>,
    i: int,
)
    requires
        forall|e: int| 0 <= e < i ==> (vl[#[trigger] c.evi[e]] as int) <= 0,
    ensures
        weights_fold(c, vl, el, ws0, sup0, i) == Some((ws0, sup0)),
    decreases i,
{
    if i > 0 {
        lemma_weights_fold_idle(c, vl, el, ws0, sup0, i - 1);
    }
}

/// Law (boundary): electing zero candidates succeeds and leaves every
/// load, weight, support and flag at zero, and the elected list empty.
pub proof fn lemma_zero_seats(votelist: Seq<Ballot>, a: Assignment)
    requires
        phragmen_ok_post(votelist, 0, a),
    ensures
        a.electedcandidates@.len() == 0,
        forall|v: int| 0 <= v < a.nv() ==> a.voterload@[v] == 0,
        forall|e: int| 0 <= e < a.ne() ==> a.edgeload@[e] == 0 && a.edgeweight@[e] == 0,
        forall|c: int| 0 <= c < a.nc() ==> a.cansupport@[c] == 0 && !a.canelected@[c],
{
    let c = a.ctx();
    lemma_cs_wf(a);
    let s0 = init_state(a.nv(), a.ne(), a.nc());
    assert(run_rounds(c, s0, 0) == RoundOut::Next(s0));
    assert forall|e: int| 0 <= e < a.ne() implies (s0.vl[#[trigger] c.evi[e]] as int) <= 0 by {
        assert(s0.vl[c.evi[e]] == 0);
    }
    lemma_weights_fold_idle(c, s0.vl, s0.el, zero_seq(a.ne()), zero_seq(a.nc()), a.ne());
    assert forall|v: int| 0 <= v < a.nv() implies a.voterload@[v] == 0 by {
        assert(a.voterload@[v] == s0.vl[v]);
    }
    assert forall|e: int| 0 <= e < a.ne() implies a.edgeload@[e] == 0 && a.edgeweight@[e]
        == 0 by {
        assert(a.edgeload@[e] == s0.el[e]);
        assert(a.edgeweight@[e] == zero_seq(a.ne())[e]);
    }
    assert forall|c2: int| 0 <= c2 < a.nc() implies a.cansupport@[c2] == 0
        && !a.canelected@[c2] by {
        assert(a.cansupport@[c2] == zero_seq(a.nc())[c2]);
        assert(a.canelected@[c2] == s0.flags[c2]);
    }
}

/// Law (seat count and electability, at the entry point): a successful
/// run elects exactly the requested number of candidates, all distinct,
/// and each of them has positive approval — a candidate with zero
/// approval is never elected.
pub proof fn lemma_elected_result(votelist: Seq<Ballot>, k: int, a: Assignment)
    requires
        phragmen_ok_post(votelist, k, a),
        0 <= k,
        a.nc() <= usize::MAX,
    ensures
        a.electedcandidates@.len() == k,
        forall|p: int|
            0 <= p < k ==> 0 <= (#[trigger] a.electedcandidates@[p] as int) < a.nc()
                && a.canapproval@[a.electedcandidates@[p] as int] > 0,
        forall|p1: int, p2: int|
            0 <= p1 < p2 < k ==> a.electedcandidates@[p1] != a.electedcandidates@[p2],
{
    let c = a.ctx();
    lemma_cs_wf(a);
    let s0 = init_state(a.nv(), a.ne(), a.nc());
    lemma_run_rounds_elected(c, s0, k);
    let s = run_rounds(c, s0, k)->Next_0;
    assert forall|p: int|
        0 <= p < k implies 0 <= (#[trigger] a.electedcandidates@[p] as int) < a.nc()
        && a.canapproval@[a.electedcandidates@[p] as int] > 0 by {
        assert(s.elist[p] == a.electedcandidates@[p]);
        assert(c.appr[s.elist[p] as int] > 0);
        assert(c.appr[s.elist[p] as int] == a.canapproval@[s.elist[p] as int]);
    }
}


} // verus!
