use vstd::prelude::*;

use crate::assignment::{approval_of, edge_eqv, Assignment};
use crate::builder::{cand_ids, setup_matches, setuplists, lemma_setup_graph_wf};
use crate::error::PhragmenError;
use crate::fixed::{div_trunc, div_trunc_i128, fits, SCALE};
use crate::graph::{total_edges, voter_edges_before, Ballot};
use crate::rounds::{round_spec, Ctx, RoundOut, State};

verus! {

/// A sequence of `n` zero values.
pub open spec fn zero_seq(n: int) -> Seq<i128> {
    Seq::new(n as nat, |i: int| 0i128)
}

/// The numeric state every run starts from: everything at zero, nobody
/// elected.
pub open spec fn init_state(nv: int, ne: int, nc: int) -> State {
    State {
        vl: zero_seq(nv),
        el: zero_seq(ne),
        score: zero_seq(nc),
        flags: Seq::new(nc as nat, |i: int| false),
        elist: Seq::empty(),
    }
}

/// Edge weights and candidate supports after the first `i` edges have been
/// normalized: an edge of a voter with positive total load gets
/// `budget * SCALE * edgeload / voterload` (truncated), and the target
/// candidate's support moves by the same delta.  Edges of voters without
/// positive load keep their weight.  `None` when some intermediate value
/// is unrepresentable.
pub open spec fn weights_fold(
    c: Ctx,
    vl: Seq<i128>,
    el: Seq<i128>,
    ws0: Seq<i128>,
    sup0: Seq<i128>,
    i: int,
) -> Option<(Seq<i128>, Seq<i128>)>
    decreases i,
{
    if i <= 0 {
        Some((ws0, sup0))
    } else {
        match weights_fold(c, vl, el, ws0, sup0, i - 1) {
            None => None,
            Some(wsup) => {
                let vi = c.evi[i - 1];
                if (vl[vi] as int) > 0 {
                    let ws = wsup.0;
                    let sup = wsup.1;
                    let prod = c.budget[vi] * SCALE * (el[i - 1] as int);
                    if !fits(prod) {
                        None
                    } else {
                        let w = div_trunc(prod, vl[vi] as int);
                        let delta = w - ws[i - 1];
                        let ns = sup[c.eci[i - 1]] + delta;
                        if !fits(delta) || !fits(ns) {
                            None
                        } else {
                            Some(
                                (ws.update(i - 1, w as i128), sup.update(c.eci[i - 1], ns as i128)),
                            )
                        }
                    }
                } else {
                    Some(wsup)
                }
            },
        }
    }
}

/// Once the normalization has failed it stays failed.
pub proof fn lemma_weights_none(
    c: Ctx,
    vl: Seq<i128>,
    el: Seq<i128>,
    ws0: Seq<i128>,
    sup0: Seq<i128>,
    i: int,
    j: int,
)
    requires
        i <= j,
        weights_fold(c, vl, el, ws0, sup0, i) is None,
    ensures
        weights_fold(c, vl, el, ws0, sup0, j) is None,
    decreases j,
{
    if j > i {
        lemma_weights_none(c, vl, el, ws0, sup0, i, j - 1);
    }
}

/// The weight an edge ends with after normalization.
pub open spec fn weight_formula(c: Ctx, vl: Seq<i128>, el: Seq<i128>, ws0: Seq<i128>, e: int) -> i128 {
    let vi = c.evi[e];
    if (vl[vi] as int) > 0 {
        div_trunc(c.budget[vi] * SCALE * (el[e] as int), vl[vi] as int) as i128
    } else {
        ws0[e]
    }
}

/// The normalized weights, position by position: a successful fold writes
/// exactly the per-edge formula.
pub proof fn lemma_weights_fold_pointwise(
    c: Ctx,
    vl: Seq<i128>,
    el: Seq<i128>,
    ws0: Seq<i128>,
    sup0: Seq<i128>,
    i: int,
)
    requires
        c.evi.len() == c.eci.len(),
        ws0.len() == c.evi.len(),
        i <= c.evi.len(),
        weights_fold(c, vl, el, ws0, sup0, i) is Some,
    ensures
        ({
            let ws = weights_fold(c, vl, el, ws0, sup0, i)->Some_0.0;
            &&& ws.len() == ws0.len()
            &&& forall|e: int| 0 <= e < i ==> ws[e] == weight_formula(c, vl, el, ws0, e)
            &&& forall|e: int| i <= e < ws0.len() ==> ws[e] == ws0[e]
            &&& forall|e: int|
                0 <= e < i && (vl[#[trigger] c.evi[e]] as int) > 0 ==> fits(
                    c.budget[c.evi[e]] * SCALE * (el[e] as int),
                )
        }),
    decreases i,
{
    if i > 0 {
        lemma_weights_fold_pointwise(c, vl, el, ws0, sup0, i - 1);
    }
}

/// Outcomes of `run_rounds`: `k` rounds run one after the other, stopping
/// at the first failure.
pub open spec fn run_rounds(c: Ctx, st: State, k: int) -> RoundOut
    decreases k,
{
    if k <= 0 {
        RoundOut::Next(st)
    } else {
        match run_rounds(c, st, k - 1) {
            RoundOut::Next(s) => round_spec(c, s),
            o => o,
        }
    }
}

/// Once a run has failed, running further rounds changes nothing.
pub proof fn lemma_run_rounds_stuck(c: Ctx, st: State, i: int, j: int)
    requires
        0 <= i <= j,
        !(run_rounds(c, st, i) is Next),
    ensures
        run_rounds(c, st, j) == run_rounds(c, st, i),
    decreases j,
{
    if j > i {
        lemma_run_rounds_stuck(c, st, i, j - 1);
    }
}

/// Edge loads and voter loads after the first `i` edges have been
/// rewritten from the weights: an edge whose target candidate has
/// positive support gets `SCALE * weight / support` (truncated), and the
/// owning voter's total load moves by the same delta.  `None` when some
/// intermediate value is unrepresentable.
pub open spec fn loads_fold(
    c: Ctx,
    ws: Seq<i128>,
    sup: Seq<i128>,
    el0: Seq<i128>,
    vl0: Seq<i128>,
    i: int,
) -> Option<(Seq<i128>, Seq<i128>)>
    decreases i,
{
    if i <= 0 {
        Some((el0, vl0))
    } else {
        match loads_fold(c, ws, sup, el0, vl0, i - 1) {
            None => None,
            Some(evl) => {
                let ci = c.eci[i - 1];
                if (sup[ci] as int) > 0 {
                    let el = evl.0;
                    let vl = evl.1;
                    let prod = SCALE * (ws[i - 1] as int);
                    if !fits(prod) {
                        None
                    } else {
                        let nl = div_trunc(prod, sup[ci] as int);
                        let vi = c.evi[i - 1];
                        let delta = nl - el[i - 1];
                        let nvl = vl[vi] + delta;
                        if !fits(delta) || !fits(nvl) {
                            None
                        } else {
                            Some((el.update(i - 1, nl as i128), vl.update(vi, nvl as i128)))
                        }
                    }
                } else {
                    Some(evl)
                }
            },
        }
    }
}

/// Once the rewrite has failed it stays failed.
pub proof fn lemma_loads_none(
    c: Ctx,
    ws: Seq<i128>,
    sup: Seq<i128>,
    el0: Seq<i128>,
    vl0: Seq<i128>,
    i: int,
    j: int,
)
    requires
        i <= j,
        loads_fold(c, ws, sup, el0, vl0, i) is None,
    ensures
        loads_fold(c, ws, sup, el0, vl0, j) is None,
    decreases j,
{
    if j > i {
        lemma_loads_none(c, ws, sup, el0, vl0, i, j - 1);
    }
}

impl Assignment {
    /// Converts the final loads into normalized weights: every voter with
    /// positive total load has its budget split over its edges in
    /// proportion to the load each edge carries.  Voters without positive
    /// load contribute no weight.  On overflow the weights may be
    /// partially written, but the support aggregate still holds.
    pub fn loadstoweights(&mut self) -> (r: Result<(), PhragmenError>)
        requires
            old(self).wf(),
        ensures
            final(self).wf(),
            final(self).same_graph(*old(self)),
            final(self).edgeload == old(self).edgeload,
            final(self).voterload == old(self).voterload,
            final(self).canelected == old(self).canelected,
            final(self).electedcandidates == old(self).electedcandidates,
            final(self).canscore == old(self).canscore,
            old(self).loads_consistent() ==> final(self).loads_consistent(),
            old(self).weights_consistent() ==> final(self).weights_consistent(),
            match r {
                Ok(_) => weights_fold(
                    old(self).ctx(),
                    old(self).voterload@,
                    old(self).edgeload@,
                    old(self).edgeweight@,
                    old(self).cansupport@,
                    old(self).ne(),
                ) == Some((final(self).edgeweight@, final(self).cansupport@)),
                Err(err) => {
                    &&& err == PhragmenError::ArithmeticOverflow
                    &&& weights_fold(
                        old(self).ctx(),
                        old(self).voterload@,
                        old(self).edgeload@,
                        old(self).edgeweight@,
                        old(self).cansupport@,
                        old(self).ne(),
                    ) is None
                },
            },
    {
        let ghost c0 = old(self).ctx();
        let ghost vl0 = old(self).voterload@;
        let ghost el0 = old(self).edgeload@;
        let ghost ws0 = old(self).edgeweight@;
        let ghost sup0 = old(self).cansupport@;
        let ne = self.edgelist.len();
        let mut e: usize = 0;
        while e < ne
            invariant
                self.wf(),
                self.same_graph(*old(self)),
                self.edgeload == old(self).edgeload,
                self.voterload == old(self).voterload,
                self.canelected == old(self).canelected,
                self.electedcandidates == old(self).electedcandidates,
                self.canscore == old(self).canscore,
                old(self).loads_consistent() ==> self.loads_consistent(),
                old(self).weights_consistent() ==> self.weights_consistent(),
                c0 == old(self).ctx(),
                vl0 == old(self).voterload@,
                el0 == old(self).edgeload@,
                ws0 == old(self).edgeweight@,
                sup0 == old(self).cansupport@,
                ne == self.ne(),
                e <= ne,
                weights_fold(c0, vl0, el0, ws0, sup0, e as int) == Some(
                    (self.edgeweight@, self.cansupport@),
                ),
            decreases ne - e,
        {
            let vi = self.edgelist[e].voterindex;
            let vload = self.voterload[vi];
            if vload > 0 {
                let b = self.voterlist[vi].budget;
                let bs = (b as i128) * SCALE;
                let prod = match bs.checked_mul(self.edgeload[e]) {
                    Some(p) => p,
                    None => {
                        proof {
                            assert(weights_fold(c0, vl0, el0, ws0, sup0, e as int + 1) is None);
                            lemma_weights_none(
                                c0,
                                vl0,
                                el0,
                                ws0,
                                sup0,
                                e as int + 1,
                                old(self).ne(),
                            );
                        }
                        return Err(PhragmenError::ArithmeticOverflow);
                    },
                };
                let wt = div_trunc_i128(prod, vload);
                match self.setweight_idx(e, wt) {
                    Ok(_) => {
                        proof {
                            assert(weights_fold(c0, vl0, el0, ws0, sup0, e as int + 1) == Some(
                                (self.edgeweight@, self.cansupport@),
                            ));
                        }
                    },
                    Err(err) => {
                        proof {
                            assert(weights_fold(c0, vl0, el0, ws0, sup0, e as int + 1) is None);
                            lemma_weights_none(
                                c0,
                                vl0,
                                el0,
                                ws0,
                                sup0,
                                e as int + 1,
                                old(self).ne(),
                            );
                        }
                        return Err(err);
                    },
                }
            } else {
                proof {
                    assert(weights_fold(c0, vl0, el0, ws0, sup0, e as int + 1) == Some(
                        (self.edgeweight@, self.cansupport@),
                    ));
                }
            }
            e = e + 1;
        }
        Ok(())
    }

    /// The inverse primitive: rewrites each edge's load as
    /// `SCALE * weight / support` of its target candidate, when that
    /// support is positive.  Unused by the forward election loop; kept as
    /// a reusable building block for iterative variants.
    pub fn weightstoloads(&mut self) -> (r: Result<(), PhragmenError>)
        requires
            old(self).wf(),
        ensures
            final(self).wf(),
            final(self).same_graph(*old(self)),
            final(self).edgeweight == old(self).edgeweight,
            final(self).cansupport == old(self).cansupport,
            final(self).canelected == old(self).canelected,
            final(self).electedcandidates == old(self).electedcandidates,
            final(self).canscore == old(self).canscore,
            old(self).loads_consistent() ==> final(self).loads_consistent(),
            r is Ok ==> forall|e: int|
                0 <= e < old(self).ne() ==> final(self).edgeload@[e] == ({
                    let ci = old(self).ctx().eci[e];
                    if (old(self).cansupport@[ci] as int) > 0 {
                        div_trunc(
                            SCALE * (old(self).edgeweight@[e] as int),
                            old(self).cansupport@[ci] as int,
                        ) as i128
                    } else {
                        old(self).edgeload@[e]
                    }
                }),
            match r {
                Ok(_) => loads_fold(
                    old(self).ctx(),
                    old(self).edgeweight@,
                    old(self).cansupport@,
                    old(self).edgeload@,
                    old(self).voterload@,
                    old(self).ne(),
                ) == Some((final(self).edgeload@, final(self).voterload@)),
                Err(err) => {
                    &&& err == PhragmenError::ArithmeticOverflow
                    &&& loads_fold(
                        old(self).ctx(),
                        old(self).edgeweight@,
                        old(self).cansupport@,
                        old(self).edgeload@,
                        old(self).voterload@,
                        old(self).ne(),
                    ) is None
                },
            },
    {
        let ghost c0 = old(self).ctx();
        let ghost ws0 = old(self).edgeweight@;
        let ghost sup0 = old(self).cansupport@;
        let ghost el0 = old(self).edgeload@;
        let ghost vl0 = old(self).voterload@;
        let ne = self.edgelist.len();
        let mut e: usize = 0;
        while e < ne
            invariant
                self.wf(),
                self.same_graph(*old(self)),
                self.edgeweight == old(self).edgeweight,
                self.cansupport == old(self).cansupport,
                self.canelected == old(self).canelected,
                self.electedcandidates == old(self).electedcandidates,
                self.canscore == old(self).canscore,
                old(self).loads_consistent() ==> self.loads_consistent(),
                c0 == old(self).ctx(),
                ws0 == old(self).edgeweight@,
                sup0 == old(self).cansupport@,
                el0 == old(self).edgeload@,
                vl0 == old(self).voterload@,
                loads_fold(c0, ws0, sup0, el0, vl0, e as int) == Some(
                    (self.edgeload@, self.voterload@),
                ),
                ne == self.ne(),
                e <= ne,
                forall|p: int|
                    0 <= p < e ==> self.edgeload@[p] == ({
                        let ci = c0.eci[p];
                        if (old(self).cansupport@[ci] as int) > 0 {
                            div_trunc(
                                SCALE * (old(self).edgeweight@[p] as int),
                                old(self).cansupport@[ci] as int,
                            ) as i128
                        } else {
                            old(self).edgeload@[p]
                        }
                    }),
                forall|p: int| e <= p < ne ==> self.edgeload@[p] == old(self).edgeload@[p],
            decreases ne - e,
        {
            let ci = self.edgelist[e].canindex;
            let support = self.cansupport[ci];
            if support > 0 {
                let prod = match SCALE.checked_mul(self.edgeweight[e]) {
                    Some(p) => p,
                    None => {
                        proof {
                            assert(loads_fold(c0, ws0, sup0, el0, vl0, e as int + 1) is None);
                            lemma_loads_none(c0, ws0, sup0, el0, vl0, e as int + 1, old(self).ne());
                        }
                        return Err(PhragmenError::ArithmeticOverflow);
                    },
                };
                let nl = div_trunc_i128(prod, support);
                match self.setload_idx(e, nl) {
                    Ok(_) => {
                        proof {
                            assert(loads_fold(c0, ws0, sup0, el0, vl0, e as int + 1) == Some(
                                (self.edgeload@, self.voterload@),
                            ));
                        }
                    },
                    Err(err) => {
                        proof {
                            assert(loads_fold(c0, ws0, sup0, el0, vl0, e as int + 1) is None);
                            lemma_loads_none(c0, ws0, sup0, el0, vl0, e as int + 1, old(self).ne());
                        }
                        return Err(err);
                    },
                }
            } else {
                proof {
                    assert(loads_fold(c0, ws0, sup0, el0, vl0, e as int + 1) == Some(
                        (self.edgeload@, self.voterload@),
                    ));
                }
            }
            e = e + 1;
        }
        Ok(())
    }
}

/// The assignment's graph reproduces the ballots: well-formed, the
/// voters and candidates as `setuplists` builds them, the flat edge list
/// their concatenation, and the approvals precomputed from the budgets.
pub open spec fn reproduces(votelist: Seq<Ballot>, a: Assignment) -> bool {
    &&& a.wf()
    &&& setup_matches(votelist, a.voterlist@, a.candidates@)
    &&& forall|v: int, j: int|
        0 <= v < a.voterlist@.len() && 0 <= j < a.voterlist@[v].edges@.len() ==> edge_eqv(
            a.edgelist@[voter_edges_before(a.voterlist@, v) + j],
            #[trigger] a.voterlist@[v].edges@[j],
        )
    &&& forall|c: int|
        0 <= c < a.nc() ==> a.canapproval@[c] == approval_of(a.voterlist@, c, a.nv())
}

/// A freshly constructed run: the graph reproduces the ballots, the
/// approvals are precomputed, and the numeric state is all zero.
pub open spec fn fresh_assignment(votelist: Seq<Ballot>, a: Assignment) -> bool {
    &&& reproduces(votelist, a)
    &&& a.st() == init_state(a.nv(), a.ne(), a.nc())
    &&& a.edgeweight@ == zero_seq(a.ne())
    &&& a.cansupport@ == zero_seq(a.nc())
    &&& a.loads_consistent()
    &&& a.weights_consistent()
}

/// What a successful run returns: a well-formed assignment whose graph
/// reproduces the ballots, whose numeric state is exactly the state the
/// spec-level run of `k` rounds reaches from zero, and whose weights and
/// supports are exactly the spec-level normalization of the final loads.
pub open spec fn phragmen_ok_post(votelist: Seq<Ballot>, k: int, a: Assignment) -> bool {
    &&& reproduces(votelist, a)
    &&& a.loads_consistent()
    &&& a.weights_consistent()
    &&& match run_rounds(a.ctx(), init_state(a.nv(), a.ne(), a.nc()), k) {
        RoundOut::Next(s) => {
            &&& a.voterload@ == s.vl
            &&& a.edgeload@ == s.el
            &&& a.canscore@ == s.score
            &&& a.canelected@ == s.flags
            &&& a.electedcandidates@ == s.elist
            &&& weights_fold(a.ctx(), s.vl, s.el, zero_seq(a.ne()), zero_seq(a.nc()), a.ne())
                == Some((a.edgeweight@, a.cansupport@))
        },
        _ => false,
    }
}

/// Some candidate's approval total exceeds what an `i128` can hold, for
/// the graph the ballots describe.
pub open spec fn approvals_overflow(votelist: Seq<Ballot>) -> bool {
    exists|voters: Seq<crate::graph::Voter>, cands: Seq<crate::graph::Candidate>|
        #[trigger] setup_matches(votelist, voters, cands) && exists|c: int|
            0 <= c < cands.len() && approval_of(voters, c, voters.len() as int) > i128::MAX
}

/// What a failed run reports, and on which inputs each failure comes.
pub open spec fn phragmen_err_post(votelist: Seq<Ballot>, k: int, err: PhragmenError) -> bool {
    match err {
        PhragmenError::InvalidSeatCount => k > cand_ids(votelist).len(),
        PhragmenError::UnelectableCandidate => k <= cand_ids(votelist).len() && exists|
            a: Assignment,
        |
            #[trigger] fresh_assignment(votelist, a) && run_rounds(
                a.ctx(),
                init_state(a.nv(), a.ne(), a.nc()),
                k,
            ) is Unelectable,
        PhragmenError::ArithmeticOverflow => k <= cand_ids(votelist).len() && (approvals_overflow(
            votelist,
        ) || exists|a: Assignment|
            #[trigger] fresh_assignment(votelist, a) && (run_rounds(
                a.ctx(),
                init_state(a.nv(), a.ne(), a.nc()),
                k,
            ) is Overflow || (run_rounds(a.ctx(), init_state(a.nv(), a.ne(), a.nc()), k) matches
                RoundOut::Next(s) && weights_fold(
                a.ctx(),
                s.vl,
                s.el,
                zero_seq(a.ne()),
                zero_seq(a.nc()),
                a.ne(),
            ) is None))),
    }
}


/// The single entry point: builds the graph from the ballots, runs
/// `numtoelect` election rounds, and normalizes the final loads into
/// weights.  Rejects a seat count above the number of distinct candidates
/// before touching any state; reports an unelectable round or an
/// unrepresentable intermediate value as an error.
pub fn seq_phragmen(votelist: Vec<Ballot>, numtoelect: usize) -> (r: Result<
    Assignment,
    PhragmenError,
>)
    requires
        total_edges(votelist@) <= usize::MAX,
    ensures
        (r matches Err(err) && err == PhragmenError::InvalidSeatCount) <==> numtoelect as int
            > cand_ids(votelist@).len(),
        r matches Ok(a) ==> phragmen_ok_post(votelist@, numtoelect as int, a),
        r matches Err(err) ==> phragmen_err_post(votelist@, numtoelect as int, err),
{
    let (nomlist, candidates) = setuplists(votelist);
    let ghost gv = nomlist@;
    let ghost gc = candidates@;
    if numtoelect > candidates.len() {
        return Err(PhragmenError::InvalidSeatCount);
    }
    proof {
        lemma_setup_graph_wf(votelist@, gv, gc);
    }
    let mut a = match Assignment::new(nomlist, candidates) {
        Ok(a) => a,
        Err(err) => {
            proof {
                assert(approvals_overflow(votelist@)) by {
                    assert(setup_matches(votelist@, gv, gc));
                    let c = choose|c: int|
                        0 <= c < gc.len() && approval_of(gv, c, gv.len() as int) > i128::MAX;
                    assert(setup_matches(votelist@, gv, gc) && 0 <= c < gc.len() && approval_of(
                        gv,
                        c,
                        gv.len() as int,
                    ) > i128::MAX);
                }
            }
            return Err(err);
        },
    };
    proof {
        assert(a.voterload@ =~= zero_seq(a.nv()));
        assert(a.edgeload@ =~= zero_seq(a.ne()));
        assert(a.canscore@ =~= zero_seq(a.nc()));
        assert(a.canelected@ =~= Seq::new(a.nc() as nat, |i: int| false));
        assert(a.electedcandidates@ =~= Seq::<usize>::empty());
        assert(a.edgeweight@ =~= zero_seq(a.ne()));
        assert(a.cansupport@ =~= zero_seq(a.nc()));
        assert(a.st() =~= init_state(a.nv(), a.ne(), a.nc()));
        assert(fresh_assignment(votelist@, a));
    }
    let ghost f = a;
    let ghost c0 = a.ctx();
    let ghost s0 = init_state(a.nv(), a.ne(), a.nc());
    let ghost k = numtoelect as int;
    let mut round: usize = 0;
    while round < numtoelect
        invariant
            a.wf(),
            a.loads_consistent(),
            a.weights_consistent(),
            a.same_graph(f),
            a.edgeweight == f.edgeweight,
            a.cansupport == f.cansupport,
            fresh_assignment(votelist@, f),
            c0 == f.ctx(),
            s0 == init_state(f.nv(), f.ne(), f.nc()),
            k == numtoelect as int,
            k <= cand_ids(votelist@).len(),
            round <= numtoelect,
            run_rounds(c0, s0, round as int) == RoundOut::Next(a.st()),
        decreases numtoelect - round,
    {
        let ghost prev = a;
        match a.elect_round() {
            Ok(_) => {
                proof {
                    assert(prev.ctx() == c0);
                    assert(round_spec(c0, prev.st()) == RoundOut::Next(a.st()));
                    assert(run_rounds(c0, s0, round as int + 1) == RoundOut::Next(a.st()));
                    assert(a.ctx() == c0);
                }
            },
            Err(err) => {
                proof {
                    assert(prev.ctx() == c0);
                    let ro = round_spec(c0, prev.st());
                    assert(run_rounds(c0, s0, round as int + 1) == ro);
                    if ro is Next {
                        assert(false);
                    }
                    lemma_run_rounds_stuck(c0, s0, round as int + 1, k);
                    if ro is Unelectable {
                        assert(err == PhragmenError::UnelectableCandidate);
                        assert(phragmen_err_post(votelist@, k, err)) by {
                            assert(fresh_assignment(votelist@, f) && run_rounds(
                                f.ctx(),
                                init_state(f.nv(), f.ne(), f.nc()),
                                k,
                            ) is Unelectable);
                        }
                    } else {
                        assert(err == PhragmenError::ArithmeticOverflow);
                        assert(phragmen_err_post(votelist@, k, err)) by {
                            assert(fresh_assignment(votelist@, f) && run_rounds(
                                f.ctx(),
                                init_state(f.nv(), f.ne(), f.nc()),
                                k,
                            ) is Overflow);
                        }
                    }
                }
                return Err(err);
            },
        }
        round = round + 1;
    }
    let ghost s_final = run_rounds(c0, s0, k)->Next_0;
    proof {
        assert(s_final == a.st());
    }
    match a.loadstoweights() {
        Ok(_) => {},
        Err(err) => {
            proof {
                assert(weights_fold(
                    c0,
                    s_final.vl,
                    s_final.el,
                    zero_seq(f.ne()),
                    zero_seq(f.nc()),
                    f.ne() as int,
                ) is None);
                assert(phragmen_err_post(votelist@, k, err)) by {
                    assert(fresh_assignment(votelist@, f) && (run_rounds(
                        c0,
                        init_state(f.nv(), f.ne(), f.nc()),
                        k,
                    ) matches RoundOut::Next(s) && weights_fold(
                        f.ctx(),
                        s.vl,
                        s.el,
                        zero_seq(f.ne()),
                        zero_seq(f.nc()),
                        f.ne(),
                    ) is None));
                }
            }
            return Err(err);
        },
    }
    proof {
        assert(a.ctx() == c0);
        assert(phragmen_ok_post(votelist@, k, a)) by {
            assert(setup_matches(votelist@, a.voterlist@, a.candidates@));
            assert(run_rounds(a.ctx(), init_state(a.nv(), a.ne(), a.nc()), k) == RoundOut::Next(
                s_final,
            ));
            assert(a.voterload@ == s_final.vl);
            assert(a.edgeload@ == s_final.el);
        }
    }
    Ok(a)
}

} // verus!
