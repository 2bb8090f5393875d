use vstd::prelude::*;

use crate::assignment::{budgets_of, eci_of, evi_of, Assignment};
use crate::error::PhragmenError;
use crate::fixed::{div_trunc, div_trunc_i128, fits, INFINITE_SCORE, SCALE};

verus! {

/// The immutable surroundings of one election run, reduced to plain
/// integers: per-edge voter and candidate indices, per-voter budgets, and
/// per-candidate approvals.
#[verifier::ext_equal]
pub struct Ctx {
    pub evi: Seq<int>,
    pub eci: Seq<int>,
    pub budget: Seq<int>,
    pub appr: Seq<int>,
}

/// The mutable numeric content of an `Assignment`: voter loads, edge
/// loads, scores, elected flags and the elected list.
#[verifier::ext_equal]
pub struct State {
    pub vl: Seq<i128>,
    pub el: Seq<i128>,
    pub score: Seq<i128>,
    pub flags: Seq<bool>,
    pub elist: Seq<usize>,
}

impl Assignment {
    /// The immutable context this assignment carries.
    pub open spec fn ctx(self) -> Ctx {
        Ctx {
            evi: evi_of(self.edgelist@),
            eci: eci_of(self.edgelist@),
            budget: budgets_of(self.voterlist@),
            appr: Seq::new(self.canapproval@.len(), |c: int| self.canapproval@[c] as int),
        }
    }

    /// The mutable numeric content of this assignment.
    pub open spec fn st(self) -> State {
        State {
            vl: self.voterload@,
            el: self.edgeload@,
            score: self.canscore@,
            flags: self.canelected@,
            elist: self.electedcandidates@,
        }
    }
}

/// A context and a state that fit together: all index sequences in range
/// and all array lengths agreeing.
pub open spec fn cs_wf(c: Ctx, st: State) -> bool {
    &&& c.evi.len() == c.eci.len()
    &&& st.el.len() == c.evi.len()
    &&& st.vl.len() == c.budget.len()
    &&& st.score.len() == c.appr.len()
    &&& st.flags.len() == c.appr.len()
    &&& forall|e: int| 0 <= e < c.evi.len() ==> 0 <= #[trigger] c.evi[e] < c.budget.len()
    &&& forall|e: int| 0 <= e < c.eci.len() ==> 0 <= #[trigger] c.eci[e] < c.appr.len()
    &&& forall|v: int| 0 <= v < c.budget.len() ==> #[trigger] c.budget[v] >= 0
    &&& forall|d: int| 0 <= d < c.appr.len() ==> #[trigger] c.appr[d] >= 0
}

/// A well-formed assignment yields a context and state that fit together.
pub proof fn lemma_cs_wf(a: Assignment)
    requires
        a.wf(),
    ensures
        cs_wf(a.ctx(), a.st()),
{
    let c = a.ctx();
    assert forall|e: int| 0 <= e < c.evi.len() implies 0 <= #[trigger] c.evi[e]
        < c.budget.len() by {
        assert(crate::assignment::edge_wf(a.edgelist@[e], e, a.nv(), a.nc()));
    }
    assert forall|e: int| 0 <= e < c.eci.len() implies 0 <= #[trigger] c.eci[e]
        < c.appr.len() by {
        assert(crate::assignment::edge_wf(a.edgelist@[e], e, a.nv(), a.nc()));
    }
}

/// Numerators of this round's exact scores, after the first `i` edges.
/// Candidate `d`'s exact score is `numerator[d] / (approval[d] * SCALE)`:
/// the numerator starts at `SCALE` (standing for the `1` of the
/// `1 / approval` term) and every edge of voter `v` to an unelected
/// candidate `d` with positive approval adds `budget[v] * load[v]`,
/// exactly, with no rounding.  `None` when a numerator leaves the
/// representable range.
pub open spec fn num_fold(c: Ctx, st: State, i: int) -> Option<Seq<i128>>
    decreases i,
{
    if i <= 0 {
        Some(Seq::new(c.appr.len(), |d: int| SCALE))
    } else {
        match num_fold(c, st, i - 1) {
            None => None,
            Some(num) => {
                let d = c.eci[i - 1];
                if !st.flags[d] && c.appr[d] > 0 {
                    let prod = c.budget[c.evi[i - 1]] * (st.vl[c.evi[i - 1]] as int);
                    if !fits(prod) {
                        None
                    } else {
                        let ns = num[d] + prod;
                        if !fits(ns) {
                            None
                        } else {
                            Some(num.update(d, ns as i128))
                        }
                    }
                } else {
                    Some(num)
                }
            },
        }
    }
}

/// Once the accumulation has failed it stays failed.
pub proof fn lemma_num_none(c: Ctx, st: State, i: int, j: int)
    requires
        i <= j,
        num_fold(c, st, i) is None,
    ensures
        num_fold(c, st, j) is None,
    decreases j,
{
    if j > i {
        lemma_num_none(c, st, i, j - 1);
    }
}

/// The fixed-point scores written back once the numerators are known: an
/// elected candidate keeps its stale score, a candidate without approval
/// gets the infinite sentinel, and every other candidate gets its exact
/// score truncated once to fixed point, `numerator / approval`.
pub open spec fn scores_of(c: Ctx, st: State, num: Seq<i128>) -> Seq<i128> {
    Seq::new(
        st.score.len(),
        |d: int|
            if st.flags[d] {
                st.score[d]
            } else if c.appr[d] <= 0 {
                INFINITE_SCORE
            } else {
                div_trunc(num[d] as int, c.appr[d]) as i128
            },
    )
}

/// Outcome of the selection scan.
pub enum SelectOut {
    /// A comparison product left the representable range.
    Overflow,
    /// No unelected candidate with positive approval exists.
    NoCandidate,
    /// The elected candidate.
    Winner(int),
}

/// The candidate the round elects, among the first `i`: unelected, with
/// positive approval, of minimal exact score.  Scores are compared
/// exactly — `num[d] / appr[d] < num[b] / appr[b]` decided by the
/// cross-products `num[d] * appr[b]` and `num[b] * appr[d]` — so the
/// index tie-break applies only to exact ties, never to rounded ones.
pub open spec fn select_from(c: Ctx, st: State, num: Seq<i128>, i: int) -> SelectOut
    decreases i,
{
    if i <= 0 {
        SelectOut::NoCandidate
    } else {
        let d = i - 1;
        let eligible = !st.flags[d] && c.appr[d] > 0;
        match select_from(c, st, num, i - 1) {
            SelectOut::Overflow => SelectOut::Overflow,
            SelectOut::NoCandidate => if eligible {
                SelectOut::Winner(d)
            } else {
                SelectOut::NoCandidate
            },
            SelectOut::Winner(b) => if eligible {
                let pd = (num[d] as int) * c.appr[b];
                let pb = (num[b] as int) * c.appr[d];
                if !fits(pd) || !fits(pb) {
                    SelectOut::Overflow
                } else if pd < pb {
                    SelectOut::Winner(d)
                } else {
                    SelectOut::Winner(b)
                }
            } else {
                SelectOut::Winner(b)
            },
        }
    }
}

/// Transitivity of the exact score order, in cross-product form.
proof fn lemma_rat_trans(n1: int, a1: int, n2: int, a2: int, n3: int, a3: int)
    requires
        a1 > 0,
        a2 > 0,
        a3 > 0,
        n1 * a2 < n2 * a1,
        n2 * a3 <= n3 * a2,
    ensures
        n1 * a3 < n3 * a1,
{
    assert(n1 * a2 * a3 < n2 * a1 * a3) by (nonlinear_arith)
        requires
            a3 > 0,
            n1 * a2 < n2 * a1,
    ;
    assert(n2 * a3 * a1 <= n3 * a2 * a1) by (nonlinear_arith)
        requires
            a1 > 0,
            n2 * a3 <= n3 * a2,
    ;
    assert(n1 * a2 * a3 < n3 * a2 * a1) by (nonlinear_arith)
        requires
            n1 * a2 * a3 < n2 * a1 * a3,
            n2 * a3 * a1 <= n3 * a2 * a1,
    ;
    assert(n1 * a3 < n3 * a1) by (nonlinear_arith)
        requires
            a2 > 0,
            n1 * a2 * a3 < n3 * a2 * a1,
    ;
}

/// Once the selection scan has hit an unrepresentable product it stays
/// there.
pub proof fn lemma_select_overflow(c: Ctx, st: State, num: Seq<i128>, i: int, j: int)
    requires
        i <= j,
        select_from(c, st, num, i) == SelectOut::Overflow,
    ensures
        select_from(c, st, num, j) == SelectOut::Overflow,
    decreases j,
{
    if j > i {
        lemma_select_overflow(c, st, num, i, j - 1);
    }
}

/// What the selection returns: an eligible candidate whose exact score is
/// minimal, every earlier eligible candidate scoring strictly worse; or
/// `NoCandidate` exactly when nobody is eligible.
pub proof fn lemma_select_props(c: Ctx, st: State, num: Seq<i128>, i: int)
    requires
        i <= c.appr.len(),
    ensures
        match select_from(c, st, num, i) {
            SelectOut::Winner(w) => {
                &&& 0 <= w < i
                &&& !st.flags[w]
                &&& c.appr[w] > 0
                &&& forall|d: int|
                    0 <= d < i && !st.flags[d] && (#[trigger] c.appr[d]) > 0 ==> (num[w] as int)
                        * c.appr[d] <= (num[d] as int) * c.appr[w]
                &&& forall|d: int|
                    0 <= d < w && !st.flags[d] && (#[trigger] c.appr[d]) > 0 ==> (num[w] as int)
                        * c.appr[d] < (num[d] as int) * c.appr[w]
            },
            SelectOut::NoCandidate => forall|d: int|
                0 <= d < i ==> st.flags[d] || (#[trigger] c.appr[d]) <= 0,
            SelectOut::Overflow => true,
        },
    decreases i,
{
    if i > 0 {
        lemma_select_props(c, st, num, i - 1);
        let d = i - 1;
        let eligible = !st.flags[d] && c.appr[d] > 0;
        match select_from(c, st, num, i - 1) {
            SelectOut::Overflow => {},
            SelectOut::NoCandidate => {},
            SelectOut::Winner(b) => {
                if eligible {
                    let pd = (num[d] as int) * c.appr[b];
                    let pb = (num[b] as int) * c.appr[d];
                    if fits(pd) && fits(pb) && pd < pb {
                        assert forall|dd: int|
                            0 <= dd < i && !st.flags[dd] && (#[trigger] c.appr[dd]) > 0 implies (
                        num[d] as int) * c.appr[dd] <= (num[dd] as int) * c.appr[d] by {
                            if dd < i - 1 {
                                lemma_rat_trans(
                                    num[d] as int,
                                    c.appr[d],
                                    num[b] as int,
                                    c.appr[b],
                                    num[dd] as int,
                                    c.appr[dd],
                                );
                            }
                        }
                        assert forall|dd: int|
                            0 <= dd < d && !st.flags[dd] && (#[trigger] c.appr[dd]) > 0 implies (
                        num[d] as int) * c.appr[dd] < (num[dd] as int) * c.appr[d] by {
                            lemma_rat_trans(
                                num[d] as int,
                                c.appr[d],
                                num[b] as int,
                                c.appr[b],
                                num[dd] as int,
                                c.appr[dd],
                            );
                        }
                    }
                }
            },
        }
    }
}

/// Edge loads and voter loads after the first `i` edges of the newly
/// elected candidate `w` have been raised: each such edge's load becomes
/// `score[w] - voterload[owner]`, which lifts the owner's total load to
/// `score[w]`.  `None` when some intermediate value is unrepresentable.
pub open spec fn redist_fold(c: Ctx, st: State, w: int, i: int) -> Option<(Seq<i128>, Seq<i128>)>
    decreases i,
{
    if i <= 0 {
        Some((st.el, st.vl))
    } else {
        match redist_fold(c, st, w, i - 1) {
            None => None,
            Some(evl) => {
                if c.eci[i - 1] == w {
                    let el = evl.0;
                    let vl = evl.1;
                    let vi = c.evi[i - 1];
                    let t = st.score[w] as int;
                    let nl = t - vl[vi];
                    let delta = nl - el[i - 1];
                    let nvl = vl[vi] + delta;
                    if !fits(nl) || !fits(delta) || !fits(nvl) {
                        None
                    } else {
                        Some((el.update(i - 1, nl as i128), vl.update(vi, nvl as i128)))
                    }
                } else {
                    Some(evl)
                }
            },
        }
    }
}

/// Once the redistribution has failed it stays failed.
pub proof fn lemma_redist_none(c: Ctx, st: State, w: int, i: int, j: int)
    requires
        i <= j,
        redist_fold(c, st, w, i) is None,
    ensures
        redist_fold(c, st, w, j) is None,
    decreases j,
{
    if j > i {
        lemma_redist_none(c, st, w, i, j - 1);
    }
}

/// Outcome of one round over the spec-level state.
pub enum RoundOut {
    /// An intermediate value left the representable range.
    Overflow,
    /// No unelected candidate with positive approval remains.
    Unelectable,
    /// The state after the round.
    Next(State),
}

/// One full round: accumulate each candidate's exact score numerator,
/// write the truncated scores back, pick the eligible candidate of
/// minimal exact score, mark it elected, and raise its supporters' loads
/// to the winning score.
pub open spec fn round_spec(c: Ctx, st: State) -> RoundOut {
    match num_fold(c, st, c.evi.len() as int) {
        None => RoundOut::Overflow,
        Some(num) => {
            let st1 = State { score: scores_of(c, st, num), ..st };
            match select_from(c, st1, num, c.appr.len() as int) {
                SelectOut::Overflow => RoundOut::Overflow,
                SelectOut::NoCandidate => RoundOut::Unelectable,
                SelectOut::Winner(w) => {
                    let st2 = State {
                        flags: st1.flags.update(w, true),
                        elist: st1.elist.push(w as usize),
                        ..st1
                    };
                    match redist_fold(c, st2, w, c.evi.len() as int) {
                        None => RoundOut::Overflow,
                        Some(evl) => RoundOut::Next(State { el: evl.0, vl: evl.1, ..st2 }),
                    }
                },
            }
        },
    }
}

impl Assignment {
    /// Computes this round's exact score numerators: `SCALE` for every
    /// candidate, plus `budget * load` for each edge to an unelected
    /// candidate with positive approval, accumulated exactly.
    pub fn round_numerators(&self) -> (r: Result<Vec<i128>, PhragmenError>)
        requires
            self.wf(),
        ensures
            match r {
                Ok(v) => v@.len() == self.nc() && num_fold(self.ctx(), self.st(), self.ne())
                    == Some(v@),
                Err(err) => {
                    &&& err == PhragmenError::ArithmeticOverflow
                    &&& num_fold(self.ctx(), self.st(), self.ne()) is None
                },
            },
    {
        let ghost c0 = self.ctx();
        let ghost s0 = self.st();
        let n = self.candidates.len();
        let mut nums: Vec<i128> = Vec::new();
        let mut d: usize = 0;
        while d < n
            invariant
                d <= n,
                nums@.len() == d,
                forall|p: int| 0 <= p < d ==> nums@[p] == SCALE,
            decreases n - d,
        {
            nums.push(SCALE);
            d = d + 1;
        }
        proof {
            assert(nums@ =~= Seq::new(c0.appr.len(), |p: int| SCALE));
            assert(num_fold(c0, s0, 0) == Some(nums@));
        }
        let ne = self.edgelist.len();
        let mut e: usize = 0;
        while e < ne
            invariant
                self.wf(),
                c0 == self.ctx(),
                s0 == self.st(),
                ne == self.ne(),
                e <= ne,
                nums@.len() == self.nc(),
                num_fold(c0, s0, e as int) == Some(nums@),
            decreases ne - e,
        {
            let d2 = self.edgelist[e].canindex;
            let vi = self.edgelist[e].voterindex;
            let ghost before = nums@;
            if !self.canelected[d2] && self.canapproval[d2] > 0 {
                let b = self.voterlist[vi].budget;
                let prod = match (b as i128).checked_mul(self.voterload[vi]) {
                    Some(p) => p,
                    None => {
                        proof {
                            assert(num_fold(c0, s0, e as int + 1) is None);
                            lemma_num_none(c0, s0, e as int + 1, self.ne());
                        }
                        return Err(PhragmenError::ArithmeticOverflow);
                    },
                };
                let ns = match nums[d2].checked_add(prod) {
                    Some(x) => x,
                    None => {
                        proof {
                            assert(num_fold(c0, s0, e as int + 1) is None);
                            lemma_num_none(c0, s0, e as int + 1, self.ne());
                        }
                        return Err(PhragmenError::ArithmeticOverflow);
                    },
                };
                nums[d2] = ns;
                proof {
                    assert(nums@ =~= before.update(d2 as int, ns));
                    assert(num_fold(c0, s0, e as int + 1) == Some(nums@));
                }
            } else {
                proof {
                    assert(num_fold(c0, s0, e as int + 1) == Some(nums@));
                }
            }
            e = e + 1;
        }
        Ok(nums)
    }

    /// Writes every unelected candidate's score for the round: its exact
    /// score `numerator / approval` truncated once to fixed point, or the
    /// infinite sentinel when the approval is zero.
    pub fn write_scores(&mut self, nums: &Vec<i128>)
        requires
            old(self).wf(),
            nums@.len() == old(self).nc(),
        ensures
            final(self).wf(),
            final(self).same_graph(*old(self)),
            final(self).edgeload == old(self).edgeload,
            final(self).voterload == old(self).voterload,
            final(self).edgeweight == old(self).edgeweight,
            final(self).cansupport == old(self).cansupport,
            final(self).canelected == old(self).canelected,
            final(self).electedcandidates == old(self).electedcandidates,
            final(self).canscore@ == scores_of(old(self).ctx(), old(self).st(), nums@),
    {
        let ghost target = scores_of(old(self).ctx(), old(self).st(), nums@);
        let n = self.candidates.len();
        let mut d: usize = 0;
        while d < n
            invariant
                self.wf(),
                self.same_graph(*old(self)),
                self.edgeload == old(self).edgeload,
                self.voterload == old(self).voterload,
                self.edgeweight == old(self).edgeweight,
                self.cansupport == old(self).cansupport,
                self.canelected == old(self).canelected,
                self.electedcandidates == old(self).electedcandidates,
                n == self.nc(),
                d <= n,
                nums@.len() == n,
                target == scores_of(old(self).ctx(), old(self).st(), nums@),
                target.len() == n,
                self.canscore@.len() == n,
                forall|p: int| 0 <= p < d ==> self.canscore@[p] == target[p],
                forall|p: int| d <= p < n ==> self.canscore@[p] == old(self).canscore@[p],
            decreases n - d,
        {
            if !self.canelected[d] {
                let appr = self.canapproval[d];
                if appr <= 0 {
                    self.canscore[d] = INFINITE_SCORE;
                } else {
                    let q = div_trunc_i128(nums[d], appr);
                    self.canscore[d] = q;
                }
            }
            d = d + 1;
        }
        proof {
            assert(self.canscore@ =~= target);
        }
    }

    /// The candidate this round elects: the unelected candidate with
    /// positive approval whose exact score `numerator / approval` is
    /// minimal, compared by cross-multiplication; the earliest such
    /// candidate on an exact tie.  `None` when no candidate is eligible.
    pub fn select_candidate(&self, nums: &Vec<i128>) -> (r: Result<
        Option<usize>,
        PhragmenError,
    >)
        requires
            self.wf(),
            nums@.len() == self.nc(),
        ensures
            match r {
                Ok(Some(w)) => w < self.nc() && select_from(
                    self.ctx(),
                    self.st(),
                    nums@,
                    self.nc(),
                ) == SelectOut::Winner(w as int),
                Ok(None) => select_from(self.ctx(), self.st(), nums@, self.nc())
                    == SelectOut::NoCandidate,
                Err(err) => {
                    &&& err == PhragmenError::ArithmeticOverflow
                    &&& select_from(self.ctx(), self.st(), nums@, self.nc())
                        == SelectOut::Overflow
                },
            },
    {
        let ghost c0 = self.ctx();
        let ghost s0 = self.st();
        let n = self.candidates.len();
        let mut best: Option<usize> = None;
        let mut d: usize = 0;
        while d < n
            invariant
                self.wf(),
                c0 == self.ctx(),
                s0 == self.st(),
                n == self.nc(),
                d <= n,
                nums@.len() == n,
                match best {
                    Some(b) => b < n && select_from(c0, s0, nums@, d as int)
                        == SelectOut::Winner(b as int),
                    None => select_from(c0, s0, nums@, d as int) == SelectOut::NoCandidate,
                },
            decreases n - d,
        {
            let eligible = !self.canelected[d] && self.canapproval[d] > 0;
            if eligible {
                best = match best {
                    None => Some(d),
                    Some(b) => {
                        let pd = match nums[d].checked_mul(self.canapproval[b]) {
                            Some(p) => p,
                            None => {
                                proof {
                                    assert(select_from(c0, s0, nums@, d as int + 1)
                                        == SelectOut::Overflow);
                                    lemma_select_overflow(c0, s0, nums@, d as int + 1, n as int);
                                }
                                return Err(PhragmenError::ArithmeticOverflow);
                            },
                        };
                        let pb = match nums[b].checked_mul(self.canapproval[d]) {
                            Some(p) => p,
                            None => {
                                proof {
                                    assert(select_from(c0, s0, nums@, d as int + 1)
                                        == SelectOut::Overflow);
                                    lemma_select_overflow(c0, s0, nums@, d as int + 1, n as int);
                                }
                                return Err(PhragmenError::ArithmeticOverflow);
                            },
                        };
                        if pd < pb {
                            Some(d)
                        } else {
                            Some(b)
                        }
                    },
                };
            }
            d = d + 1;
        }
        Ok(best)
    }
}

impl Assignment {
    /// Raises each of the winner's edges' loads to `score[winner] -
    /// voterload[owner]`, lifting every supporting voter's total load to
    /// the winning score.  On overflow the loads may be partially raised,
    /// but the load aggregate still holds.
    pub fn redistribute(&mut self, w: usize) -> (r: Result<(), PhragmenError>)
        requires
            old(self).wf(),
            w < old(self).nc(),
        ensures
            final(self).wf(),
            final(self).same_graph(*old(self)),
            final(self).edgeweight == old(self).edgeweight,
            final(self).cansupport == old(self).cansupport,
            final(self).canelected == old(self).canelected,
            final(self).electedcandidates == old(self).electedcandidates,
            final(self).canscore == old(self).canscore,
            old(self).loads_consistent() ==> final(self).loads_consistent(),
            match r {
                Ok(_) => redist_fold(old(self).ctx(), old(self).st(), w as int, old(self).ne())
                    == Some((final(self).edgeload@, final(self).voterload@)),
                Err(err) => {
                    &&& err == PhragmenError::ArithmeticOverflow
                    &&& redist_fold(old(self).ctx(), old(self).st(), w as int, old(self).ne())
                        is None
                },
            },
    {
        let ghost c0 = old(self).ctx();
        let ghost s0 = old(self).st();
        let ne = self.edgelist.len();
        let mut e: usize = 0;
        while e < ne
            invariant
                self.wf(),
                self.same_graph(*old(self)),
                self.edgeweight == old(self).edgeweight,
                self.cansupport == old(self).cansupport,
                self.canelected == old(self).canelected,
                self.electedcandidates == old(self).electedcandidates,
                self.canscore == old(self).canscore,
                old(self).loads_consistent() ==> self.loads_consistent(),
                c0 == old(self).ctx(),
                s0 == old(self).st(),
                w < self.nc(),
                ne == self.ne(),
                e <= ne,
                redist_fold(c0, s0, w as int, e as int) == Some(
                    (self.edgeload@, self.voterload@),
                ),
            decreases ne - e,
        {
            if self.edgelist[e].canindex == w {
                let vi = self.edgelist[e].voterindex;
                let t = self.canscore[w];
                let nl = match t.checked_sub(self.voterload[vi]) {
                    Some(x) => x,
                    None => {
                        proof {
                            assert(redist_fold(c0, s0, w as int, e as int + 1) is None);
                            lemma_redist_none(c0, s0, w as int, e as int + 1, old(self).ne());
                        }
                        return Err(PhragmenError::ArithmeticOverflow);
                    },
                };
                let ghost before_el = self.edgeload@;
                let ghost before_vl = self.voterload@;
                match self.setload_idx(e, nl) {
                    Ok(_) => {
                        proof {
                            assert(redist_fold(c0, s0, w as int, e as int + 1) == Some(
                                (self.edgeload@, self.voterload@),
                            ));
                        }
                    },
                    Err(err) => {
                        proof {
                            assert(redist_fold(c0, s0, w as int, e as int + 1) is None);
                            lemma_redist_none(c0, s0, w as int, e as int + 1, old(self).ne());
                        }
                        return Err(err);
                    },
                }
            } else {
                proof {
                    assert(redist_fold(c0, s0, w as int, e as int + 1) == Some(
                        (self.edgeload@, self.voterload@),
                    ));
                }
            }
            e = e + 1;
        }
        Ok(())
    }

    /// One election round: the exact score numerators accumulated, the
    /// truncated scores written back, the eligible candidate of minimal
    /// exact score elected (earliest on an exact tie), and its
    /// supporters' loads raised to the winning score.  Returns the
    /// winner's index, or the round's failure.
    pub fn elect_round(&mut self) -> (r: Result<usize, PhragmenError>)
        requires
            old(self).wf(),
        ensures
            final(self).wf(),
            final(self).same_graph(*old(self)),
            final(self).edgeweight == old(self).edgeweight,
            final(self).cansupport == old(self).cansupport,
            old(self).loads_consistent() ==> final(self).loads_consistent(),
            match round_spec(old(self).ctx(), old(self).st()) {
                RoundOut::Next(s) => {
                    &&& r is Ok
                    &&& final(self).st() == s
                    &&& ({
                        let w = r->Ok_0;
                        &&& w < old(self).nc()
                        &&& !old(self).canelected@[w as int]
                        &&& old(self).canapproval@[w as int] > 0
                        &&& final(self).electedcandidates@ == old(self).electedcandidates@.push(w)
                        &&& final(self).canelected@ == old(self).canelected@.update(w as int, true)
                    })
                },
                RoundOut::Unelectable => {
                    &&& r == Result::<usize, PhragmenError>::Err(
                        PhragmenError::UnelectableCandidate,
                    )
                    &&& final(self).canelected == old(self).canelected
                    &&& final(self).electedcandidates == old(self).electedcandidates
                },
                RoundOut::Overflow => r == Result::<usize, PhragmenError>::Err(
                    PhragmenError::ArithmeticOverflow,
                ),
            },
    {
        let ghost c0 = old(self).ctx();
        let ghost s0 = old(self).st();
        let nums = match self.round_numerators() {
            Ok(v) => v,
            Err(err) => {
                proof {
                    assert(round_spec(c0, s0) is Overflow);
                }
                return Err(err);
            },
        };
        self.write_scores(&nums);
        let ghost st1 = State { score: scores_of(c0, s0, nums@), ..s0 };
        proof {
            assert(self.ctx() == c0);
            assert(self.st() == st1);
        }
        let w = match self.select_candidate(&nums) {
            Ok(Some(w)) => w,
            Ok(None) => {
                proof {
                    assert(round_spec(c0, s0) is Unelectable);
                }
                return Err(PhragmenError::UnelectableCandidate);
            },
            Err(err) => {
                proof {
                    assert(round_spec(c0, s0) is Overflow);
                }
                return Err(err);
            },
        };
        proof {
            lemma_select_props(c0, st1, nums@, c0.appr.len() as int);
        }
        self.elect_idx(w);
        let ghost st2 = State {
            flags: st1.flags.update(w as int, true),
            elist: st1.elist.push(w),
            ..st1
        };
        proof {
            assert(self.ctx() == c0);
            assert(self.st() == st2);
        }
        match self.redistribute(w) {
            Ok(_) => {},
            Err(err) => {
                proof {
                    assert(redist_fold(c0, st2, w as int, c0.evi.len() as int) is None);
                    assert(round_spec(c0, s0) is Overflow);
                }
                return Err(err);
            },
        }
        proof {
            let evl = redist_fold(c0, st2, w as int, c0.evi.len() as int)->Some_0;
            assert(self.st() == State { el: evl.0, vl: evl.1, ..st2 });
            assert(round_spec(c0, s0) == RoundOut::Next(self.st()));
        }
        Ok(w)
    }
}


} // verus!
