use vstd::prelude::*;

use crate::error::PhragmenError;
use crate::fixed::fits;
use crate::graph::{graph_wf, lemma_voter_edges_mono, voter_edges_before, Candidate, Edge,
    Voter};

verus! {

/// Voter index of every edge, as mathematical integers.
pub open spec fn evi_of(edges: Seq<Edge>) -> Seq<int> {
    Seq::new(edges.len(), |e: int| edges[e].voterindex as int)
}

/// Candidate index of every edge, as mathematical integers.
pub open spec fn eci_of(edges: Seq<Edge>) -> Seq<int> {
    Seq::new(edges.len(), |e: int| edges[e].canindex as int)
}

/// Budget of every voter, as mathematical integers.
pub open spec fn budgets_of(voters: Seq<Voter>) -> Seq<int> {
    Seq::new(voters.len(), |v: int| voters[v].budget as int)
}

/// Sum of `vals[e]` over the first `n` edges whose key is `k`: the common
/// shape of the per-voter load aggregate and the per-candidate support
/// aggregate.
pub open spec fn group_sum(keys: Seq<int>, vals: Seq<i128>, k: int, n: int) -> int
    decreases n,
{
    if n <= 0 {
        0
    } else {
        group_sum(keys, vals, k, n - 1) + if keys[n - 1] == k {
            vals[n - 1] as int
        } else {
            0
        }
    }
}

/// Replacing one value moves a grouped sum by exactly the delta of that
/// value, and only for the group the value belongs to.
pub proof fn lemma_group_sum_update(keys: Seq<int>, vals: Seq<i128>, k: int, n: int, j: int, x: i128)
    requires
        0 <= j < vals.len(),
        n <= vals.len(),
    ensures
        group_sum(keys, vals.update(j, x), k, n) == group_sum(keys, vals, k, n) + if j < n
            && keys[j] == k {
            x - vals[j]
        } else {
            0
        },
    decreases n,
{
    if n > 0 {
        lemma_group_sum_update(keys, vals, k, n - 1, j, x);
    }
}

/// Budget contributed to candidate `c` by the first `j` edges of one
/// voter: the voter's budget once per approval of `c`.
pub open spec fn voter_contrib(w: Voter, c: int, j: int) -> int
    decreases j,
{
    if j <= 0 {
        0
    } else {
        voter_contrib(w, c, j - 1) + if w.edges@[j - 1].canindex == c {
            w.budget as int
        } else {
            0
        }
    }
}

/// Approval of candidate `c`: the sum of the budgets of the first `v`
/// voters, counted once per edge of theirs that targets `c`.
pub open spec fn approval_of(voters: Seq<Voter>, c: int, v: int) -> int
    decreases v,
{
    if v <= 0 {
        0
    } else {
        approval_of(voters, c, v - 1) + voter_contrib(
            voters[v - 1],
            c,
            voters[v - 1].edges@.len() as int,
        )
    }
}

/// One voter's contribution is non-negative and grows with the edges
/// taken in.
pub proof fn lemma_contrib_mono(w: Voter, c: int, j1: int, j2: int)
    requires
        0 <= j1 <= j2,
    ensures
        0 <= voter_contrib(w, c, j1) <= voter_contrib(w, c, j2),
    decreases j2,
{
    if j2 > 0 {
        if j1 <= j2 - 1 {
            lemma_contrib_mono(w, c, j1, j2 - 1);
        } else {
            lemma_contrib_mono(w, c, j1 - 1, j2 - 1);
        }
    }
}

/// Approvals are non-negative and grow as voters are taken in.
pub proof fn lemma_approval_of_mono(voters: Seq<Voter>, c: int, v1: int, v2: int)
    requires
        0 <= v1 <= v2,
    ensures
        0 <= approval_of(voters, c, v1) <= approval_of(voters, c, v2),
    decreases v2,
{
    if v2 > 0 {
        if v1 <= v2 - 1 {
            lemma_approval_of_mono(voters, c, v1, v2 - 1);
            let w = voters[v2 - 1];
            lemma_contrib_mono(w, c, 0, w.edges@.len() as int);
        } else {
            lemma_approval_of_mono(voters, c, v1 - 1, v2 - 1);
            let w = voters[v2 - 1];
            lemma_contrib_mono(w, c, 0, w.edges@.len() as int);
        }
    }
}

/// A grouped sum over zero values is zero.
pub proof fn lemma_group_sum_zero(keys: Seq<int>, vals: Seq<i128>, k: int, n: int)
    requires
        n <= vals.len(),
        forall|i: int| 0 <= i < n ==> vals[i] == 0,
    ensures
        group_sum(keys, vals, k, n) == 0,
    decreases n,
{
    if n > 0 {
        lemma_group_sum_zero(keys, vals, k, n - 1);
    }
}

/// Every edge of the flat list carries its own position, a valid voter
/// index and a valid candidate index.
pub open spec fn edge_wf(e: Edge, pos: int, nv: int, nc: int) -> bool {
    &&& e.index == pos
    &&& e.voterindex < nv
    &&& e.canindex < nc
}

/// The boolean flags and the list of elected candidates tell the same
/// story: every listed candidate is flagged, no candidate is listed twice,
/// and every flagged candidate is listed.
pub open spec fn elected_wf(flags: Seq<bool>, elist: Seq<usize>) -> bool {
    &&& forall|p: int|
        0 <= p < elist.len() ==> (#[trigger] elist[p]) < flags.len() && flags[elist[p] as int]
    &&& forall|p1: int, p2: int| 0 <= p1 < p2 < elist.len() ==> elist[p1] != elist[p2]
    &&& forall|c: int|
        0 <= c < flags.len() && (#[trigger] flags[c]) ==> exists|p: int|
            0 <= p < elist.len() && (#[trigger] elist[p]) as int == c
}

/// Two edges that agree on every index and name the same voter and
/// candidate.
pub open spec fn edge_eqv(a: Edge, b: Edge) -> bool {
    &&& a.voterid@ == b.voterid@
    &&& a.canid@ == b.canid@
    &&& a.index == b.index
    &&& a.voterindex == b.voterindex
    &&& a.canindex == b.canindex
}

/// The numeric state of one election run over a fixed graph: per-voter
/// loads, per-edge loads and weights, per-candidate support, approval and
/// score, and the elected set.  Loads, scores and weights are fixed-point
/// values (multiples of `1 / SCALE`); approvals are in budget units.
///
/// A score's exact value is a rational whose denominator is the
/// candidate's approval; the numerators are recomputed from scratch each
/// round (`round_numerators`) rather than stored here, so the state
/// carries no separate score-numerator or score-denominator arrays.
/// `canscore` holds the truncated fixed-point value of that rational.
#[derive(Clone, Debug)]
pub struct Assignment {
    pub voterlist: Vec<Voter>,
    pub candidates: Vec<Candidate>,
    pub edgelist: Vec<Edge>,
    pub voterload: Vec<i128>,
    pub edgeload: Vec<i128>,
    pub edgeweight: Vec<i128>,
    pub cansupport: Vec<i128>,
    pub canelected: Vec<bool>,
    pub electedcandidates: Vec<usize>,
    pub canapproval: Vec<i128>,
    pub canscore: Vec<i128>,
}

impl Assignment {
    /// Number of voters.
    pub open spec fn nv(self) -> int {
        self.voterlist@.len() as int
    }

    /// Number of candidates.
    pub open spec fn nc(self) -> int {
        self.candidates@.len() as int
    }

    /// Number of edges.
    pub open spec fn ne(self) -> int {
        self.edgelist@.len() as int
    }

    /// Structural well-formedness: all arrays sized by the graph, dense
    /// indices in range, and the elected flags in step with the elected
    /// list.
    pub open spec fn wf(self) -> bool {
        &&& graph_wf(self.voterlist@, self.candidates@)
        &&& self.voterload@.len() == self.nv()
        &&& self.edgeload@.len() == self.ne()
        &&& self.edgeweight@.len() == self.ne()
        &&& self.cansupport@.len() == self.nc()
        &&& self.canelected@.len() == self.nc()
        &&& self.canapproval@.len() == self.nc()
        &&& self.canscore@.len() == self.nc()
        &&& self.ne() == voter_edges_before(self.voterlist@, self.nv())
        &&& forall|e: int|
            0 <= e < self.ne() ==> edge_wf(#[trigger] self.edgelist@[e], e, self.nv(), self.nc())
        &&& forall|c: int| 0 <= c < self.nc() ==> #[trigger] self.canapproval@[c] >= 0
        &&& elected_wf(self.canelected@, self.electedcandidates@)
    }

    /// The load aggregate: every voter's recorded load is the sum of the
    /// loads of that voter's edges.
    pub open spec fn loads_consistent(self) -> bool {
        forall|v: int|
            0 <= v < self.nv() ==> #[trigger] self.voterload@[v] == group_sum(
                evi_of(self.edgelist@),
                self.edgeload@,
                v,
                self.ne(),
            )
    }

    /// The support aggregate: every candidate's recorded support is the sum
    /// of the weights of the edges that target it.
    pub open spec fn weights_consistent(self) -> bool {
        forall|c: int|
            0 <= c < self.nc() ==> #[trigger] self.cansupport@[c] == group_sum(
                eci_of(self.edgelist@),
                self.edgeweight@,
                c,
                self.ne(),
            )
    }

    /// The graph and the approvals are shared by `self` and `other`.
    pub open spec fn same_graph(self, other: Assignment) -> bool {
        &&& self.voterlist == other.voterlist
        &&& self.candidates == other.candidates
        &&& self.edgelist == other.edgelist
        &&& self.canapproval == other.canapproval
    }

    /// Replaces the load of edge `e` and moves the owning voter's total
    /// load by the same delta, so the load aggregate is preserved.  Fails,
    /// leaving the state untouched, when the new total would not be
    /// representable.
    pub fn setload_idx(&mut self, e: usize, load: i128) -> (r: Result<(), PhragmenError>)
        requires
            old(self).wf(),
            e < old(self).ne(),
        ensures
            final(self).wf(),
            final(self).same_graph(*old(self)),
            final(self).edgeweight == old(self).edgeweight,
            final(self).cansupport == old(self).cansupport,
            final(self).canelected == old(self).canelected,
            final(self).electedcandidates == old(self).electedcandidates,
            final(self).canscore == old(self).canscore,
            ({
                let vi = old(self).edgelist@[e as int].voterindex as int;
                let delta = load - old(self).edgeload@[e as int];
                let nl = old(self).voterload@[vi] + delta;
                match r {
                    Ok(_) => {
                        &&& fits(delta)
                        &&& fits(nl)
                        &&& final(self).edgeload@ == old(self).edgeload@.update(e as int, load)
                        &&& final(self).voterload@ == old(self).voterload@.update(vi, nl as i128)
                    },
                    Err(err) => {
                        &&& err == PhragmenError::ArithmeticOverflow
                        &&& !(fits(delta) && fits(nl))
                        &&& *final(self) == *old(self)
                    },
                }
            }),
            old(self).loads_consistent() && r is Ok ==> final(self).loads_consistent(),
    {
        let vi = self.edgelist[e].voterindex;
        let oldload = self.edgeload[e];
        let delta = match load.checked_sub(oldload) {
            Some(d) => d,
            None => {
                return Err(PhragmenError::ArithmeticOverflow);
            },
        };
        let nl = match self.voterload[vi].checked_add(delta) {
            Some(t) => t,
            None => {
                return Err(PhragmenError::ArithmeticOverflow);
            },
        };
        self.edgeload[e] = load;
        self.voterload[vi] = nl;
        proof {
            let evi = evi_of(self.edgelist@);
            if old(self).loads_consistent() {
                assert forall|v: int|
                    0 <= v < self.nv() implies #[trigger] self.voterload@[v] == group_sum(
                    evi,
                    self.edgeload@,
                    v,
                    self.ne(),
                ) by {
                    lemma_group_sum_update(
                        evi,
                        old(self).edgeload@,
                        v,
                        self.ne(),
                        e as int,
                        load,
                    );
                    assert(evi[e as int] == vi as int);
                }
            }
        }
        Ok(())
    }

    /// Replaces the load of the given edge; see `setload_idx`.
    pub fn setload(&mut self, edge: &Edge, load: i128) -> (r: Result<(), PhragmenError>)
        requires
            old(self).wf(),
            edge.index < old(self).ne(),
        ensures
            final(self).wf(),
            final(self).same_graph(*old(self)),
            final(self).edgeweight == old(self).edgeweight,
            final(self).cansupport == old(self).cansupport,
            final(self).canelected == old(self).canelected,
            final(self).electedcandidates == old(self).electedcandidates,
            final(self).canscore == old(self).canscore,
            ({
                let vi = old(self).edgelist@[edge.index as int].voterindex as int;
                let delta = load - old(self).edgeload@[edge.index as int];
                let nl = old(self).voterload@[vi] + delta;
                match r {
                    Ok(_) => {
                        &&& fits(delta)
                        &&& fits(nl)
                        &&& final(self).edgeload@ == old(self).edgeload@.update(edge.index as int, load)
                        &&& final(self).voterload@ == old(self).voterload@.update(vi, nl as i128)
                    },
                    Err(err) => {
                        &&& err == PhragmenError::ArithmeticOverflow
                        &&& !(fits(delta) && fits(nl))
                        &&& *final(self) == *old(self)
                    },
                }
            }),
            old(self).loads_consistent() && r is Ok ==> final(self).loads_consistent(),
    {
        self.setload_idx(edge.index, load)
    }

    /// Replaces the weight of edge `e` and moves the target candidate's
    /// support by the same delta, so the support aggregate is preserved.
    /// Fails, leaving the state untouched, when the new support would not
    /// be representable.
    pub fn setweight_idx(&mut self, e: usize, weight: i128) -> (r: Result<(), PhragmenError>)
        requires
            old(self).wf(),
            e < old(self).ne(),
        ensures
            final(self).wf(),
            final(self).same_graph(*old(self)),
            final(self).edgeload == old(self).edgeload,
            final(self).voterload == old(self).voterload,
            final(self).canelected == old(self).canelected,
            final(self).electedcandidates == old(self).electedcandidates,
            final(self).canscore == old(self).canscore,
            ({
                let ci = old(self).edgelist@[e as int].canindex as int;
                let delta = weight - old(self).edgeweight@[e as int];
                let ns = old(self).cansupport@[ci] + delta;
                match r {
                    Ok(_) => {
                        &&& fits(delta)
                        &&& fits(ns)
                        &&& final(self).edgeweight@ == old(self).edgeweight@.update(e as int, weight)
                        &&& final(self).cansupport@ == old(self).cansupport@.update(ci, ns as i128)
                    },
                    Err(err) => {
                        &&& err == PhragmenError::ArithmeticOverflow
                        &&& !(fits(delta) && fits(ns))
                        &&& *final(self) == *old(self)
                    },
                }
            }),
            old(self).weights_consistent() && r is Ok ==> final(self).weights_consistent(),
    {
        let ci = self.edgelist[e].canindex;
        let oldweight = self.edgeweight[e];
        let delta = match weight.checked_sub(oldweight) {
            Some(d) => d,
            None => {
                return Err(PhragmenError::ArithmeticOverflow);
            },
        };
        let ns = match self.cansupport[ci].checked_add(delta) {
            Some(t) => t,
            None => {
                return Err(PhragmenError::ArithmeticOverflow);
            },
        };
        self.edgeweight[e] = weight;
        self.cansupport[ci] = ns;
        proof {
            let eci = eci_of(self.edgelist@);
            if old(self).weights_consistent() {
                assert forall|c: int|
                    0 <= c < self.nc() implies #[trigger] self.cansupport@[c] == group_sum(
                    eci,
                    self.edgeweight@,
                    c,
                    self.ne(),
                ) by {
                    lemma_group_sum_update(
                        eci,
                        old(self).edgeweight@,
                        c,
                        self.ne(),
                        e as int,
                        weight,
                    );
                    assert(eci[e as int] == ci as int);
                }
            }
        }
        Ok(())
    }

    /// Replaces the weight of the given edge; see `setweight_idx`.
    pub fn setweight(&mut self, edge: &Edge, weight: i128) -> (r: Result<(), PhragmenError>)
        requires
            old(self).wf(),
            edge.index < old(self).ne(),
        ensures
            final(self).wf(),
            final(self).same_graph(*old(self)),
            final(self).edgeload == old(self).edgeload,
            final(self).voterload == old(self).voterload,
            final(self).canelected == old(self).canelected,
            final(self).electedcandidates == old(self).electedcandidates,
            final(self).canscore == old(self).canscore,
            ({
                let ci = old(self).edgelist@[edge.index as int].canindex as int;
                let delta = weight - old(self).edgeweight@[edge.index as int];
                let ns = old(self).cansupport@[ci] + delta;
                match r {
                    Ok(_) => {
                        &&& fits(delta)
                        &&& fits(ns)
                        &&& final(self).edgeweight@ == old(self).edgeweight@.update(
                            edge.index as int,
                            weight,
                        )
                        &&& final(self).cansupport@ == old(self).cansupport@.update(ci, ns as i128)
                    },
                    Err(err) => {
                        &&& err == PhragmenError::ArithmeticOverflow
                        &&& !(fits(delta) && fits(ns))
                        &&& *final(self) == *old(self)
                    },
                }
            }),
            old(self).weights_consistent() && r is Ok ==> final(self).weights_consistent(),
    {
        self.setweight_idx(edge.index, weight)
    }

    /// Records the given candidate's score for the current round.
    pub fn setscore(&mut self, candidate: &Candidate, score: i128)
        requires
            old(self).wf(),
            candidate.index < old(self).nc(),
        ensures
            final(self).wf(),
            final(self).same_graph(*old(self)),
            final(self).edgeload == old(self).edgeload,
            final(self).voterload == old(self).voterload,
            final(self).edgeweight == old(self).edgeweight,
            final(self).cansupport == old(self).cansupport,
            final(self).canelected == old(self).canelected,
            final(self).electedcandidates == old(self).electedcandidates,
            final(self).canscore@ == old(self).canscore@.update(candidate.index as int, score),
    {
        self.canscore[candidate.index] = score;
    }

    /// Marks the candidate at index `ci` elected: sets its flag and
    /// appends it to the elected list unless it is already a member.
    pub fn elect_idx(&mut self, ci: usize)
        requires
            old(self).wf(),
            ci < old(self).nc(),
        ensures
            final(self).wf(),
            final(self).same_graph(*old(self)),
            final(self).edgeload == old(self).edgeload,
            final(self).voterload == old(self).voterload,
            final(self).edgeweight == old(self).edgeweight,
            final(self).cansupport == old(self).cansupport,
            final(self).canscore == old(self).canscore,
            final(self).canelected@ == old(self).canelected@.update(ci as int, true),
            final(self).electedcandidates@ == if old(self).canelected@[ci as int] {
                old(self).electedcandidates@
            } else {
                old(self).electedcandidates@.push(ci)
            },
    {
        if !self.canelected[ci] {
            self.electedcandidates.push(ci);
        }
        self.canelected[ci] = true;
        proof {
            let flags = self.canelected@;
            let elist = self.electedcandidates@;
            let oflags = old(self).canelected@;
            let oelist = old(self).electedcandidates@;
            assert forall|c: int|
                0 <= c < flags.len() && (#[trigger] flags[c]) implies exists|p: int|
                0 <= p < elist.len() && (#[trigger] elist[p]) as int == c by {
                if c == ci as int && !oflags[c] {
                    assert(elist[elist.len() - 1] as int == c);
                } else {
                    let p = choose|p: int| 0 <= p < oelist.len() && (#[trigger] oelist[p]) as int == c;
                    assert(elist[p] as int == c);
                }
            }
        }
    }

    /// Marks the given candidate elected; see `elect_idx`.
    pub fn elect(&mut self, candidate: &Candidate)
        requires
            old(self).wf(),
            candidate.index < old(self).nc(),
        ensures
            final(self).wf(),
            final(self).same_graph(*old(self)),
            final(self).edgeload == old(self).edgeload,
            final(self).voterload == old(self).voterload,
            final(self).edgeweight == old(self).edgeweight,
            final(self).cansupport == old(self).cansupport,
            final(self).canscore == old(self).canscore,
            final(self).canelected@ == old(self).canelected@.update(candidate.index as int, true),
            final(self).electedcandidates@ == if old(self).canelected@[candidate.index as int] {
                old(self).electedcandidates@
            } else {
                old(self).electedcandidates@.push(candidate.index)
            },
    {
        self.elect_idx(candidate.index)
    }

    /// Clears the candidate's elected flag and removes it from the elected
    /// list; the undo of `elect`, unused by the forward election loop.
    pub fn unelect(&mut self, candidate: &Candidate)
        requires
            old(self).wf(),
            candidate.index < old(self).nc(),
        ensures
            final(self).wf(),
            final(self).same_graph(*old(self)),
            final(self).edgeload == old(self).edgeload,
            final(self).voterload == old(self).voterload,
            final(self).edgeweight == old(self).edgeweight,
            final(self).cansupport == old(self).cansupport,
            final(self).canscore == old(self).canscore,
            final(self).canelected@ == old(self).canelected@.update(candidate.index as int, false),
            !old(self).canelected@[candidate.index as int] ==> final(self).electedcandidates@ == old(
                self,
            ).electedcandidates@,
            old(self).canelected@[candidate.index as int] ==> exists|p: int|
                0 <= p < old(self).electedcandidates@.len() && old(self).electedcandidates@[p]
                    == candidate.index && final(self).electedcandidates@ == old(
                    self,
                ).electedcandidates@.remove(p),
    {
        let ci = candidate.index;
        let ghost mut gp: int = 0;
        if self.canelected[ci] {
            let ghost oelist = self.electedcandidates@;
            let mut p: usize = 0;
            proof {
                let w = choose|w: int|
                    0 <= w < oelist.len() && (#[trigger] oelist[w]) as int == ci as int;
                assert(oelist[w] == ci);
                assert(oelist.contains(ci));
            }
            while p < self.electedcandidates.len() && self.electedcandidates[p] != ci
                invariant
                    p <= self.electedcandidates@.len(),
                    self.electedcandidates@ == oelist,
                    forall|q: int| 0 <= q < p ==> oelist[q] != ci,
                    oelist.contains(ci),
                decreases self.electedcandidates@.len() - p,
            {
                p = p + 1;
            }
            proof {
                if p >= oelist.len() {
                    let w = choose|w: int| 0 <= w < oelist.len() && oelist[w] == ci;
                    assert(false);
                }
                gp = p as int;
            }
            self.electedcandidates.remove(p);
            proof {
                assert(self.electedcandidates@ == oelist.remove(p as int));
            }
        }
        self.canelected[ci] = false;
        proof {
            let flags = self.canelected@;
            let elist = self.electedcandidates@;
            let oelist = old(self).electedcandidates@;
            let had = old(self).canelected@[ci as int];
            if had {
                assert(0 <= gp < oelist.len() && oelist[gp] == ci && elist == oelist.remove(gp));
            }
            assert forall|q: int|
                0 <= q < elist.len() implies (#[trigger] elist[q]) < flags.len()
                && flags[elist[q] as int] by {
                if had {
                    if q < gp {
                        assert(elist[q] == oelist[q]);
                    } else {
                        assert(elist[q] == oelist[q + 1]);
                    }
                }
            }
            assert forall|q1: int, q2: int|
                0 <= q1 < q2 < elist.len() implies elist[q1] != elist[q2] by {
                if had {
                    if q1 < gp {
                        assert(elist[q1] == oelist[q1]);
                    } else {
                        assert(elist[q1] == oelist[q1 + 1]);
                    }
                    if q2 < gp {
                        assert(elist[q2] == oelist[q2]);
                    } else {
                        assert(elist[q2] == oelist[q2 + 1]);
                    }
                }
            }
            assert forall|c: int|
                0 <= c < flags.len() && (#[trigger] flags[c]) implies exists|p: int|
                0 <= p < elist.len() && (#[trigger] elist[p]) as int == c by {
                let w = choose|w: int|
                    0 <= w < oelist.len() && (#[trigger] oelist[w]) as int == c;
                if had {
                    assert(c != ci as int);
                    assert(oelist[w] as int == c && oelist[gp] as int == ci as int);
                    assert(w != gp);
                    if w < gp {
                        assert(elist[w] as int == c);
                    } else {
                        assert(w > gp);
                        assert(elist[w - 1] as int == c);
                    }
                } else {
                    assert(elist[w] as int == c);
                }
            }
        }
    }
}

/// A vector of `n` zeros.
fn zero_vec(n: usize) -> (r: Vec<i128>)
    ensures
        r@.len() == n,
        forall|i: int| 0 <= i < n ==> r@[i] == 0,
{
    let mut r: Vec<i128> = Vec::new();
    let mut i: usize = 0;
    while i < n
        invariant
            i <= n,
            r@.len() == i,
            forall|p: int| 0 <= p < i ==> r@[p] == 0,
        decreases n - i,
    {
        r.push(0);
        i = i + 1;
    }
    r
}

/// A vector of `n` cleared flags.
fn false_vec(n: usize) -> (r: Vec<bool>)
    ensures
        r@.len() == n,
        forall|i: int| 0 <= i < n ==> !r@[i],
{
    let mut r: Vec<bool> = Vec::new();
    let mut i: usize = 0;
    while i < n
        invariant
            i <= n,
            r@.len() == i,
            forall|p: int| 0 <= p < i ==> !r@[p],
        decreases n - i,
    {
        r.push(false);
        i = i + 1;
    }
    r
}

impl Assignment {
    /// Fresh numeric state over the given graph: the flat edge list in
    /// traversal order, every load, weight, support and score at zero,
    /// nobody elected, and each candidate's approval precomputed as the
    /// sum of the budgets of the voters approving it.  Fails only when an
    /// approval total would not be representable.
    ///
    /// Construction is always fresh; there is no parameter for copying an
    /// existing state.  A run that wants to fork its state clones the
    /// `Assignment` instead — the same reserved role `unelect` and
    /// `weightstoloads` play for backtracking variants.
    pub fn new(voterlist: Vec<Voter>, candidates: Vec<Candidate>) -> (r: Result<
        Assignment,
        PhragmenError,
    >)
        requires
            graph_wf(voterlist@, candidates@),
        ensures
            match r {
                Ok(a) => {
                    &&& a.wf()
                    &&& a.voterlist == voterlist
                    &&& a.candidates == candidates
                    &&& a.ne() == voter_edges_before(voterlist@, voterlist@.len() as int)
                    &&& forall|v: int, j: int|
                        0 <= v < voterlist@.len() && 0 <= j < voterlist@[v].edges@.len()
                            ==> edge_eqv(
                            a.edgelist@[voter_edges_before(voterlist@, v) + j],
                            #[trigger] voterlist@[v].edges@[j],
                        )
                    &&& forall|v: int| 0 <= v < a.nv() ==> a.voterload@[v] == 0
                    &&& forall|e: int|
                        0 <= e < a.ne() ==> a.edgeload@[e] == 0 && a.edgeweight@[e] == 0
                    &&& forall|c: int|
                        0 <= c < a.nc() ==> a.cansupport@[c] == 0 && a.canscore@[c] == 0
                            && !a.canelected@[c]
                    &&& a.electedcandidates@.len() == 0
                    &&& forall|c: int|
                        0 <= c < a.nc() ==> a.canapproval@[c] == approval_of(
                            voterlist@,
                            c,
                            voterlist@.len() as int,
                        ) && a.canapproval@[c] >= 0
                    &&& a.loads_consistent()
                    &&& a.weights_consistent()
                },
                Err(err) => {
                    &&& err == PhragmenError::ArithmeticOverflow
                    &&& exists|c: int|
                        0 <= c < candidates@.len() && approval_of(
                            voterlist@,
                            c,
                            voterlist@.len() as int,
                        ) > i128::MAX
                },
            },
    {
        let ghost nv = voterlist@.len() as int;
        let ghost nc = candidates@.len() as int;
        let mut edgelist: Vec<Edge> = Vec::new();
        let mut v: usize = 0;
        while v < voterlist.len()
            invariant
                graph_wf(voterlist@, candidates@),
                v <= voterlist@.len(),
                nv == voterlist@.len() as int,
                nc == candidates@.len() as int,
                edgelist@.len() == voter_edges_before(voterlist@, v as int),
                forall|u: int, j: int|
                    0 <= u < v && 0 <= j < voterlist@[u].edges@.len() ==> edge_eqv(
                        edgelist@[voter_edges_before(voterlist@, u) + j],
                        #[trigger] voterlist@[u].edges@[j],
                    ),
                forall|k: int|
                    0 <= k < edgelist@.len() ==> edge_wf(#[trigger] edgelist@[k], k, nv, nc),
            decreases voterlist@.len() - v,
        {
            let numapprovals = voterlist[v].edges.len();
            let mut j: usize = 0;
            while j < numapprovals
                invariant
                    graph_wf(voterlist@, candidates@),
                    v < voterlist@.len(),
                    nv == voterlist@.len() as int,
                    nc == candidates@.len() as int,
                    numapprovals == voterlist@[v as int].edges@.len(),
                    j <= numapprovals,
                    edgelist@.len() == voter_edges_before(voterlist@, v as int) + j,
                    forall|u: int, jj: int|
                        0 <= u < v && 0 <= jj < voterlist@[u].edges@.len() ==> edge_eqv(
                            edgelist@[voter_edges_before(voterlist@, u) + jj],
                            #[trigger] voterlist@[u].edges@[jj],
                        ),
                    forall|jj: int|
                        0 <= jj < j ==> edge_eqv(
                            edgelist@[voter_edges_before(voterlist@, v as int) + jj],
                            #[trigger] voterlist@[v as int].edges@[jj],
                        ),
                    forall|k: int|
                        0 <= k < edgelist@.len() ==> edge_wf(#[trigger] edgelist@[k], k, nv, nc),
                decreases numapprovals - j,
            {
                let ghost prev = edgelist@;
                let e = &voterlist[v].edges[j];
                edgelist.push(
                    Edge {
                        voterid: e.voterid.clone(),
                        canid: e.canid.clone(),
                        index: e.index,
                        voterindex: e.voterindex,
                        canindex: e.canindex,
                    },
                );
                proof {
                    assert forall|u: int, jj: int|
                        0 <= u < v && 0 <= jj < voterlist@[u].edges@.len() implies edge_eqv(
                        edgelist@[voter_edges_before(voterlist@, u) + jj],
                        #[trigger] voterlist@[u].edges@[jj],
                    ) by {
                        lemma_voter_edges_mono(voterlist@, u + 1, v as int);
                        assert(voter_edges_before(voterlist@, u) + jj < voter_edges_before(
                            voterlist@,
                            u + 1,
                        ));
                        assert(edge_eqv(prev[voter_edges_before(voterlist@, u) + jj],
                            voterlist@[u].edges@[jj]));
                    }
                }
                j = j + 1;
            }
            proof {
                assert(edgelist@.len() == voter_edges_before(voterlist@, v as int + 1));
            }
            v = v + 1;
        }
        let numvoters = voterlist.len();
        let numcandidates = candidates.len();
        let numedges = edgelist.len();
        let mut canapproval = zero_vec(numcandidates);
        proof {
            assert forall|c: int| 0 <= c < nc implies canapproval@[c] == approval_of(
                voterlist@,
                c,
                0,
            ) by {}
        }
        let mut v2: usize = 0;
        while v2 < numvoters
            invariant
                graph_wf(voterlist@, candidates@),
                v2 <= numvoters,
                numvoters == voterlist@.len(),
                nv == voterlist@.len() as int,
                nc == candidates@.len() as int,
                canapproval@.len() == nc,
                forall|c: int|
                    0 <= c < nc ==> #[trigger] canapproval@[c] == approval_of(
                        voterlist@,
                        c,
                        v2 as int,
                    ) && canapproval@[c] >= 0,
            decreases numvoters - v2,
        {
            let numapprovals = voterlist[v2].edges.len();
            let mut j: usize = 0;
            while j < numapprovals
                invariant
                    graph_wf(voterlist@, candidates@),
                    v2 < numvoters,
                    numvoters == voterlist@.len(),
                    nv == voterlist@.len() as int,
                    nc == candidates@.len() as int,
                    numapprovals == voterlist@[v2 as int].edges@.len(),
                    j <= numapprovals,
                    canapproval@.len() == nc,
                    forall|c: int|
                        0 <= c < nc ==> #[trigger] canapproval@[c] == approval_of(
                            voterlist@,
                            c,
                            v2 as int,
                        ) + voter_contrib(voterlist@[v2 as int], c, j as int) && canapproval@[c]
                            >= 0,
                decreases numapprovals - j,
            {
                let ci = voterlist[v2].edges[j].canindex;
                let b = voterlist[v2].budget;
                let cur = canapproval[ci];
                match cur.checked_add(b as i128) {
                    Some(t) => {
                        canapproval[ci] = t;
                    },
                    None => {
                        proof {
                            let w = voterlist@[v2 as int];
                            lemma_contrib_mono(w, ci as int, j as int + 1, w.edges@.len() as int);
                            lemma_approval_of_mono(voterlist@, ci as int, v2 as int + 1, nv);
                            assert(approval_of(voterlist@, ci as int, nv) > i128::MAX);
                        }
                        return Err(PhragmenError::ArithmeticOverflow);
                    },
                }
                j = j + 1;
            }
            v2 = v2 + 1;
        }
        let a = Assignment {
            voterlist,
            candidates,
            edgelist,
            voterload: zero_vec(numvoters),
            edgeload: zero_vec(numedges),
            edgeweight: zero_vec(numedges),
            cansupport: zero_vec(numcandidates),
            canelected: false_vec(numcandidates),
            electedcandidates: Vec::new(),
            canapproval,
            canscore: zero_vec(numcandidates),
        };
        proof {
            assert forall|v3: int| 0 <= v3 < a.nv() implies #[trigger] a.voterload@[v3]
                == group_sum(evi_of(a.edgelist@), a.edgeload@, v3, a.ne()) by {
                lemma_group_sum_zero(evi_of(a.edgelist@), a.edgeload@, v3, a.ne());
            }
            assert forall|c: int| 0 <= c < a.nc() implies #[trigger] a.cansupport@[c] == group_sum(
                eci_of(a.edgelist@),
                a.edgeweight@,
                c,
                a.ne(),
            ) by {
                lemma_group_sum_zero(eci_of(a.edgelist@), a.edgeweight@, c, a.ne());
            }
        }
        Ok(a)
    }
}


} // verus!
