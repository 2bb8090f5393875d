use vstd::prelude::*;

use crate::graph::{edges_before, graph_wf, lemma_edges_before_mono, total_edges,
    voter_edges_before, Ballot, Candidate, Edge, Voter};

verus! {

/// Candidate identifiers in first-seen order: appending an identifier that
/// is already known changes nothing, a new one is given the next index.
pub open spec fn insert_id(ids: Seq<Seq<char>>, id: Seq<char>) -> Seq<Seq<char>> {
    if ids.contains(id) {
        ids
    } else {
        ids.push(id)
    }
}

/// Identifiers known after the first `j` approvals of one ballot, starting
/// from `ids`.
pub open spec fn ids_after_approvals(ids: Seq<Seq<char>>, apps: Seq<String>, j: int) -> Seq<
    Seq<char>,
>
    decreases j,
{
    if j <= 0 {
        ids
    } else {
        insert_id(ids_after_approvals(ids, apps, j - 1), apps[j - 1]@)
    }
}

/// Identifiers known after the first `i` ballots.
pub open spec fn ids_after(votelist: Seq<Ballot>, i: int) -> Seq<Seq<char>>
    decreases i,
{
    if i <= 0 {
        Seq::empty()
    } else {
        ids_after_approvals(ids_after(votelist, i - 1), votelist[i - 1].2@, votelist[i - 1].2@.len() as int)
    }
}

/// Identifiers known while ballot `i` is being read, after `j` of its
/// approvals.
pub open spec fn cur_ids(votelist: Seq<Ballot>, i: int, j: int) -> Seq<Seq<char>> {
    ids_after_approvals(ids_after(votelist, i), votelist[i].2@, j)
}

/// All candidate identifiers, in first-seen order over the whole input;
/// a candidate's dense index is its position here.
pub open spec fn cand_ids(votelist: Seq<Ballot>) -> Seq<Seq<char>> {
    ids_after(votelist, votelist.len() as int)
}

/// No identifier occurs twice.
pub open spec fn distinct_ids(ids: Seq<Seq<char>>) -> bool {
    forall|k1: int, k2: int| 0 <= k1 < k2 < ids.len() ==> ids[k1] != ids[k2]
}

/// `a` is an initial segment of `b`.
pub open spec fn is_prefix(a: Seq<Seq<char>>, b: Seq<Seq<char>>) -> bool {
    a.len() <= b.len() && forall|k: int| 0 <= k < a.len() ==> a[k] == b[k]
}

/// The edge stands for approval `j` of ballot `v`: it names that ballot's
/// voter and candidate, carries the dense indices, and its candidate index
/// points at the right identifier.
pub open spec fn edge_matches_ids(
    votelist: Seq<Ballot>,
    ids: Seq<Seq<char>>,
    v: int,
    j: int,
    e: Edge,
) -> bool {
    &&& e.voterid@ == votelist[v].0@
    &&& e.canid@ == votelist[v].2@[j]@
    &&& e.voterindex == v
    &&& e.index == edges_before(votelist, v) + j
    &&& 0 <= e.canindex < ids.len()
    &&& ids[e.canindex as int] == votelist[v].2@[j]@
}

/// Voter `v` of the output reproduces ballot `v`, edge by edge.
pub open spec fn voter_matches_ids(
    votelist: Seq<Ballot>,
    ids: Seq<Seq<char>>,
    voters: Seq<Voter>,
    v: int,
) -> bool {
    let w = voters[v];
    &&& w.voterid@ == votelist[v].0@
    &&& w.budget == votelist[v].1
    &&& w.index == v
    &&& w.edges@.len() == votelist[v].2@.len()
    &&& forall|j: int|
        0 <= j < votelist[v].2@.len() ==> edge_matches_ids(
            votelist,
            ids,
            v,
            j,
            #[trigger] w.edges@[j],
        )
}

/// The candidate list mirrors the identifier list, index by index.
pub open spec fn cands_match(cands: Seq<Candidate>, ids: Seq<Seq<char>>) -> bool {
    &&& cands.len() == ids.len()
    &&& forall|k: int|
        0 <= k < cands.len() ==> (#[trigger] cands[k]).canid@ == ids[k] && cands[k].index == k
}

/// The full contract of `setuplists`: the voters reproduce the ballots in
/// order, the candidates are the distinct identifiers in first-seen order,
/// and every edge carries dense indices consistent with both.
pub open spec fn setup_matches(
    votelist: Seq<Ballot>,
    voters: Seq<Voter>,
    cands: Seq<Candidate>,
) -> bool {
    &&& voters.len() == votelist.len()
    &&& forall|v: int|
        0 <= v < votelist.len() ==> #[trigger] voter_matches_ids(
            votelist,
            cand_ids(votelist),
            voters,
            v,
        )
    &&& cands_match(cands, cand_ids(votelist))
    &&& distinct_ids(cand_ids(votelist))
}

pub proof fn lemma_insert_id(ids: Seq<Seq<char>>, id: Seq<char>)
    ensures
        is_prefix(ids, insert_id(ids, id)),
        distinct_ids(ids) ==> distinct_ids(insert_id(ids, id)),
{
    if !ids.contains(id) {
        assert forall|k1: int, k2: int|
            distinct_ids(ids) && 0 <= k1 < k2 < ids.push(id).len() implies ids.push(id)[k1]
            != ids.push(id)[k2] by {
            if k2 == ids.len() {
                assert(ids.push(id)[k1] == ids[k1]);
                assert(ids.contains(id) <== ids[k1] == id);
            }
        }
    }
}

pub proof fn lemma_ids_after_approvals(ids: Seq<Seq<char>>, apps: Seq<String>, j: int)
    ensures
        is_prefix(ids, ids_after_approvals(ids, apps, j)),
        distinct_ids(ids) ==> distinct_ids(ids_after_approvals(ids, apps, j)),
    decreases j,
{
    if j > 0 {
        lemma_ids_after_approvals(ids, apps, j - 1);
        lemma_insert_id(ids_after_approvals(ids, apps, j - 1), apps[j - 1]@);
    }
}

pub proof fn lemma_ids_after(votelist: Seq<Ballot>, i: int)
    ensures
        distinct_ids(ids_after(votelist, i)),
    decreases i,
{
    if i > 0 {
        lemma_ids_after(votelist, i - 1);
        lemma_ids_after_approvals(
            ids_after(votelist, i - 1),
            votelist[i - 1].2@,
            votelist[i - 1].2@.len() as int,
        );
    }
}

/// Growing the identifier list never invalidates an edge stated against a
/// prefix of it.
pub proof fn lemma_prefix_edges(
    votelist: Seq<Ballot>,
    ids1: Seq<Seq<char>>,
    ids2: Seq<Seq<char>>,
    edges: Seq<Edge>,
    v: int,
    m: int,
)
    requires
        is_prefix(ids1, ids2),
        forall|j: int| 0 <= j < m ==> edge_matches_ids(votelist, ids1, v, j, #[trigger] edges[j]),
    ensures
        forall|j: int| 0 <= j < m ==> edge_matches_ids(votelist, ids2, v, j, #[trigger] edges[j]),
{
    assert forall|j: int| 0 <= j < m implies edge_matches_ids(votelist, ids2, v, j, edges[j]) by {
        assert(edge_matches_ids(votelist, ids1, v, j, edges[j]));
    }
}

/// Growing the identifier list never invalidates a finished voter either.
pub proof fn lemma_prefix_voters(
    votelist: Seq<Ballot>,
    ids1: Seq<Seq<char>>,
    ids2: Seq<Seq<char>>,
    voters: Seq<Voter>,
    n: int,
)
    requires
        is_prefix(ids1, ids2),
        forall|v: int| 0 <= v < n ==> #[trigger] voter_matches_ids(votelist, ids1, voters, v),
    ensures
        forall|v: int| 0 <= v < n ==> #[trigger] voter_matches_ids(votelist, ids2, voters, v),
{
    assert forall|v: int| 0 <= v < n implies #[trigger] voter_matches_ids(votelist, ids2, voters, v) by {
        assert(voter_matches_ids(votelist, ids1, voters, v));
        lemma_prefix_edges(votelist, ids1, ids2, voters[v].edges@, v, votelist[v].2@.len() as int);
    }
}

/// First candidate (if any) whose identifier equals `id`.
fn find_candidate(cands: &Vec<Candidate>, id: &String) -> (r: Option<usize>)
    ensures
        match r {
            Some(k) => k < cands@.len() && cands@[k as int].canid@ == id@,
            None => forall|k: int| 0 <= k < cands@.len() ==> (#[trigger] cands@[k]).canid@ != id@,
        },
{
    let mut k: usize = 0;
    while k < cands.len()
        invariant
            k <= cands@.len(),
            forall|p: int| 0 <= p < k ==> (#[trigger] cands@[p]).canid@ != id@,
        decreases cands@.len() - k,
    {
        if cands[k].canid == *id {
            return Some(k);
        }
        k = k + 1;
    }
    None
}

/// Builds the normalized voter/candidate graph from raw ballots: voters get
/// dense indices in input order, candidates in first-seen order, and edges
/// dense global indices in traversal order.  Budgets are taken as given;
/// duplicate approvals simply yield two edges.
pub fn setuplists(votelist: Vec<Ballot>) -> (r: (Vec<Voter>, Vec<Candidate>))
    requires
        total_edges(votelist@) <= usize::MAX,
    ensures
        setup_matches(votelist@, r.0@, r.1@),
{
    let mut voterlist: Vec<Voter> = Vec::new();
    let mut candidatearray: Vec<Candidate> = Vec::new();
    let mut numedges: usize = 0;
    let mut i: usize = 0;
    while i < votelist.len()
        invariant
            total_edges(votelist@) <= usize::MAX,
            i <= votelist@.len(),
            numedges == edges_before(votelist@, i as int),
            voterlist@.len() == i,
            cands_match(candidatearray@, ids_after(votelist@, i as int)),
            forall|v: int|
                0 <= v < i ==> #[trigger] voter_matches_ids(
                    votelist@,
                    ids_after(votelist@, i as int),
                    voterlist@,
                    v,
                ),
        decreases votelist@.len() - i,
    {
        let ghost base = ids_after(votelist@, i as int);
        let ballot = &votelist[i];
        let mut edges: Vec<Edge> = Vec::new();
        let mut j: usize = 0;
        proof {
            lemma_edges_before_step(votelist@, i as int);
        }
        while j < ballot.2.len()
            invariant
                total_edges(votelist@) <= usize::MAX,
                i < votelist@.len(),
                ballot == &votelist@[i as int],
                j <= ballot.2@.len(),
                numedges == edges_before(votelist@, i as int) + j,
                edges_before(votelist@, i as int) + ballot.2@.len() <= total_edges(votelist@),
                voterlist@.len() == i,
                edges@.len() == j,
                cands_match(candidatearray@, cur_ids(votelist@, i as int, j as int)),
                forall|p: int|
                    0 <= p < j ==> edge_matches_ids(
                        votelist@,
                        cur_ids(votelist@, i as int, j as int),
                        i as int,
                        p,
                        #[trigger] edges@[p],
                    ),
                forall|v: int|
                    0 <= v < i ==> #[trigger] voter_matches_ids(
                        votelist@,
                        cur_ids(votelist@, i as int, j as int),
                        voterlist@,
                        v,
                    ),
            decreases ballot.2@.len() - j,
        {
            let ghost ids = cur_ids(votelist@, i as int, j as int);
            let id = &ballot.2[j];
            let canindex: usize = match find_candidate(&candidatearray, id) {
                Some(k) => {
                    proof {
                        assert(ids.contains(id@)) by {
                            assert(ids[k as int] == id@);
                        }
                        assert(insert_id(ids, id@) == ids);
                    }
                    k
                },
                None => {
                    let k = candidatearray.len();
                    proof {
                        assert(!ids.contains(id@)) by {
                            if ids.contains(id@) {
                                let w = choose|w: int| 0 <= w < ids.len() && ids[w] == id@;
                                assert(candidatearray@[w].canid@ == id@);
                            }
                        }
                    }
                    candidatearray.push(Candidate::new(id.clone(), k));
                    k
                },
            };
            let ghost ids2 = cur_ids(votelist@, i as int, j as int + 1);
            proof {
                assert(ids2 == insert_id(ids, id@));
                lemma_insert_id(ids, id@);
                lemma_prefix_edges(votelist@, ids, ids2, edges@, i as int, j as int);
                lemma_prefix_voters(votelist@, ids, ids2, voterlist@, i as int);
            }
            edges.push(
                Edge {
                    voterid: ballot.0.clone(),
                    canid: id.clone(),
                    index: numedges,
                    voterindex: i,
                    canindex,
                },
            );
            proof {
                lemma_edges_before_mono(votelist@, i as int + 1, votelist@.len() as int);
            }
            numedges = numedges + 1;
            j = j + 1;
        }
        let ghost prev = voterlist@;
        let ghost m = ballot.2@.len() as int;
        voterlist.push(
            Voter { voterid: ballot.0.clone(), budget: ballot.1, edges, index: i },
        );
        proof {
            let idsf = ids_after(votelist@, i as int + 1);
            assert(cur_ids(votelist@, i as int, m) == idsf);
            assert forall|v: int|
                0 <= v < i + 1 implies #[trigger] voter_matches_ids(
                votelist@,
                idsf,
                voterlist@,
                v,
            ) by {
                if v < i {
                    assert(voter_matches_ids(votelist@, cur_ids(votelist@, i as int, m), prev, v));
                    assert(voterlist@[v] == prev[v]);
                } else {
                    assert(voterlist@[v].edges@ == edges@);
                }
            }
        }
        i = i + 1;
    }
    proof {
        lemma_ids_after(votelist@, votelist@.len() as int);
    }
    (voterlist, candidatearray)
}

/// One ballot's approvals extend the running edge count by its own length,
/// and the running count never exceeds the total.
proof fn lemma_edges_before_step(votelist: Seq<Ballot>, i: int)
    requires
        0 <= i < votelist.len(),
    ensures
        edges_before(votelist, i + 1) == edges_before(votelist, i) + votelist[i].2@.len(),
        edges_before(votelist, i + 1) <= total_edges(votelist),
{
    lemma_edges_before_mono(votelist, i + 1, votelist.len() as int);
}

/// A graph produced by `setuplists` is well-formed in the sense the
/// numeric state expects.
pub proof fn lemma_setup_graph_wf(votelist: Seq<Ballot>, voters: Seq<Voter>, cands: Seq<Candidate>)
    requires
        setup_matches(votelist, voters, cands),
    ensures
        graph_wf(voters, cands),
{
    lemma_counts_agree(votelist, voters, votelist.len() as int);
    assert forall|v: int, j: int|
        0 <= v < voters.len() && 0 <= j < voters[v].edges@.len() implies {
        let e = #[trigger] voters[v].edges@[j];
        &&& e.voterindex == v
        &&& e.canindex < cands.len()
        &&& e.index == voter_edges_before(voters, v) + j
    } by {
        assert(voter_matches_ids(votelist, cand_ids(votelist), voters, v));
        assert(edge_matches_ids(votelist, cand_ids(votelist), v, j, voters[v].edges@[j]));
        lemma_counts_agree(votelist, voters, v);
    }
    assert forall|v: int| 0 <= v < voters.len() implies (#[trigger] voters[v]).index == v by {
        assert(voter_matches_ids(votelist, cand_ids(votelist), voters, v));
    }
}

/// When the voters reproduce the ballots, the two edge counters agree.
pub proof fn lemma_counts_agree(votelist: Seq<Ballot>, voters: Seq<Voter>, i: int)
    requires
        voters.len() == votelist.len(),
        forall|v: int|
            0 <= v < votelist.len() ==> #[trigger] voter_matches_ids(
                votelist,
                cand_ids(votelist),
                voters,
                v,
            ),
        i <= votelist.len(),
    ensures
        voter_edges_before(voters, i) == edges_before(votelist, i),
    decreases i,
{
    if i > 0 {
        lemma_counts_agree(votelist, voters, i - 1);
        assert(voter_matches_ids(votelist, cand_ids(votelist), voters, i - 1));
    }
}

} // verus!
