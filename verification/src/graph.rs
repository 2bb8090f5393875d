use vstd::prelude::*;

verus! {

/// A ballot: the voter's identifier, its budget, and the identifiers of the
/// candidates it approves.
pub type Ballot = (String, u64, Vec<String>);

/// One approval relation: the voter at `voterindex` supports the candidate
/// at `canindex`.  `index` is the edge's position in the flat edge list of
/// an `Assignment`; the endpoints never change after construction.
#[derive(Clone, Debug)]
pub struct Edge {
    pub voterid: String,
    pub canid: String,
    pub index: usize,
    pub voterindex: usize,
    pub canindex: usize,
}

impl Edge {
    /// A fresh edge between the named voter and candidate; the dense
    /// indices are filled in when the graph is assembled.
    pub fn new(voterid: String, canid: String) -> (e: Edge)
        ensures
            e.voterid == voterid,
            e.canid == canid,
            e.index == 0,
            e.voterindex == 0,
            e.canindex == 0,
    {
        Edge { voterid, canid, index: 0, voterindex: 0, canindex: 0 }
    }
}

/// A voter: its identifier, its budget (total spending power), one edge per
/// approved candidate, and its dense index in input order.
#[derive(Clone, Debug)]
pub struct Voter {
    pub voterid: String,
    pub budget: u64,
    pub edges: Vec<Edge>,
    pub index: usize,
}

impl Voter {
    /// A voter built from one ballot, with one fresh edge per approval; the
    /// dense indices are filled in when the graph is assembled.
    pub fn new(votetuple: Ballot) -> (v: Voter)
        ensures
            v.voterid@ == votetuple.0@,
            v.budget == votetuple.1,
            v.index == 0,
            v.edges@.len() == votetuple.2@.len(),
            forall|j: int|
                0 <= j < votetuple.2@.len() ==> {
                    let e = #[trigger] v.edges@[j];
                    &&& e.voterid@ == votetuple.0@
                    &&& e.canid@ == votetuple.2@[j]@
                    &&& e.index == 0
                    &&& e.voterindex == 0
                    &&& e.canindex == 0
                },
    {
        let (voterid, budget, approvals) = votetuple;
        let mut edges: Vec<Edge> = Vec::new();
        let mut j: usize = 0;
        while j < approvals.len()
            invariant
                j <= approvals@.len(),
                edges@.len() == j,
                forall|p: int|
                    0 <= p < j ==> {
                        let e = #[trigger] edges@[p];
                        &&& e.voterid@ == voterid@
                        &&& e.canid@ == approvals@[p]@
                        &&& e.index == 0
                        &&& e.voterindex == 0
                        &&& e.canindex == 0
                    },
            decreases approvals@.len() - j,
        {
            let canid = approvals[j].clone();
            edges.push(Edge::new(voterid.clone(), canid));
            j = j + 1;
        }
        Voter { voterid, budget, edges, index: 0 }
    }
}

/// A candidate: its identifier and its dense index, assigned at first
/// mention among the ballots.
#[derive(Clone, Debug)]
pub struct Candidate {
    pub canid: String,
    pub index: usize,
}

impl Candidate {
    /// A candidate with the given identifier and dense index.
    pub fn new(canid: String, index: usize) -> (c: Candidate)
        ensures
            c.canid == canid,
            c.index == index,
    {
        Candidate { canid, index }
    }
}

/// Number of approvals (edges) contributed by the first `i` ballots.
pub open spec fn edges_before(votelist: Seq<Ballot>, i: int) -> int
    decreases i,
{
    if i <= 0 {
        0
    } else {
        edges_before(votelist, i - 1) + votelist[i - 1].2@.len()
    }
}

/// Total number of approvals over all ballots.
pub open spec fn total_edges(votelist: Seq<Ballot>) -> int {
    edges_before(votelist, votelist.len() as int)
}

/// Number of edges owned by the first `v` voters.
pub open spec fn voter_edges_before(voters: Seq<Voter>, v: int) -> int
    decreases v,
{
    if v <= 0 {
        0
    } else {
        voter_edges_before(voters, v - 1) + voters[v - 1].edges@.len()
    }
}

/// The per-ballot edge counts only grow as more ballots are taken in.
pub proof fn lemma_edges_before_mono(votelist: Seq<Ballot>, i: int, j: int)
    requires
        0 <= i <= j,
    ensures
        edges_before(votelist, i) <= edges_before(votelist, j),
        0 <= edges_before(votelist, i),
    decreases j,
{
    if j > 0 {
        if i <= j - 1 {
            lemma_edges_before_mono(votelist, i, j - 1);
        } else {
            lemma_edges_before_mono(votelist, i - 1, j - 1);
        }
    }
}

/// The per-voter edge counts only grow as more voters are taken in.
pub proof fn lemma_voter_edges_mono(voters: Seq<Voter>, i: int, j: int)
    requires
        0 <= i <= j,
    ensures
        voter_edges_before(voters, i) <= voter_edges_before(voters, j),
        0 <= voter_edges_before(voters, i),
    decreases j,
{
    if j > 0 {
        if i <= j - 1 {
            lemma_voter_edges_mono(voters, i, j - 1);
        } else {
            lemma_voter_edges_mono(voters, i - 1, j - 1);
        }
    }
}

/// A well-formed graph: dense voter and candidate indices, and every edge
/// carrying its owner's index, a valid candidate index, and its global
/// position among all edges.
pub open spec fn graph_wf(voters: Seq<Voter>, cands: Seq<Candidate>) -> bool {
    &&& forall|v: int| 0 <= v < voters.len() ==> (#[trigger] voters[v]).index == v
    &&& forall|c: int| 0 <= c < cands.len() ==> (#[trigger] cands[c]).index == c
    &&& forall|v: int, j: int|
        0 <= v < voters.len() && 0 <= j < voters[v].edges@.len() ==> {
            let e = #[trigger] voters[v].edges@[j];
            &&& e.voterindex == v
            &&& e.canindex < cands.len()
            &&& e.index == voter_edges_before(voters, v) + j
        }
}

} // verus!
