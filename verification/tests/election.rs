use phragmen::assignment::Assignment;
use phragmen::builder::setuplists;
use phragmen::election::seq_phragmen;
use phragmen::error::PhragmenError;
use phragmen::fixed::SCALE;
use phragmen::graph::Ballot;

fn demo_ballots() -> Vec<Ballot> {
    vec![
        ("A".to_string(), 10, vec!["X".to_string(), "Y".to_string()]),
        ("B".to_string(), 20, vec!["X".to_string(), "Z".to_string()]),
        ("C".to_string(), 30, vec!["Y".to_string(), "Z".to_string()]),
        ("C".to_string(), 50, vec!["Z".to_string()]),
    ]
}

#[test]
fn scenario_candidate_indices_first_seen() {
    let (voters, cands) = setuplists(demo_ballots());
    assert_eq!(cands.len(), 3);
    assert_eq!(cands[0].canid, "X");
    assert_eq!(cands[0].index, 0);
    assert_eq!(cands[1].canid, "Y");
    assert_eq!(cands[1].index, 1);
    assert_eq!(cands[2].canid, "Z");
    assert_eq!(cands[2].index, 2);
    assert_eq!(voters.len(), 4);
    assert_eq!(voters[0].index, 0);
    assert_eq!(voters[3].index, 3);
    // edges get dense global indices in traversal order
    assert_eq!(voters[0].edges[0].index, 0);
    assert_eq!(voters[0].edges[1].index, 1);
    assert_eq!(voters[1].edges[0].index, 2);
    assert_eq!(voters[3].edges[0].index, 6);
    // and candidate indices by first appearance
    assert_eq!(voters[1].edges[1].canindex, 2);
    assert_eq!(voters[2].edges[0].canindex, 1);
}

#[test]
fn scenario_round_one_elects_z_then_y() {
    let a = seq_phragmen(demo_ballots(), 2).unwrap();
    // approvals: X = 10+20, Y = 10+30, Z = 20+30+50
    assert_eq!(a.canapproval, vec![30, 40, 100]);
    // Z (index 2) wins round one with score 1/100, Y (index 1) round two
    assert_eq!(a.electedcandidates, vec![2, 1]);
    assert_eq!(a.canelected, vec![false, true, true]);
}

#[test]
fn scenario_golden_loads_scores_weights() {
    let a = seq_phragmen(demo_ballots(), 2).unwrap();
    // round one: Z's score 1/100 raises its three edges to 10_000_000
    // round two: Y's score 0.0325 raises A's and C's loads to 32_500_000
    assert_eq!(
        a.edgeload,
        vec![0, 32_500_000, 0, 10_000_000, 22_500_000, 10_000_000, 10_000_000]
    );
    assert_eq!(
        a.voterload,
        vec![32_500_000, 10_000_000, 32_500_000, 10_000_000]
    );
    // scores are exact fractions truncated once: round two leaves X at
    // (1 + 20 * 0.01) / 30 = 0.04 and Y at (1 + 30 * 0.01) / 40 = 0.0325
    assert_eq!(a.canscore, vec![40_000_000, 32_500_000, 10_000_000]);
    // weights split each voter's budget over its loaded edges
    assert_eq!(
        a.edgeweight,
        vec![
            0,
            10 * SCALE,
            0,
            20 * SCALE,
            20_769_230_769,
            9_230_769_230,
            50 * SCALE,
        ]
    );
    assert_eq!(a.cansupport, vec![0, 30_769_230_769, 79_230_769_230]);
}

#[test]
fn determinism_two_runs_agree() {
    let a1 = seq_phragmen(demo_ballots(), 2).unwrap();
    let a2 = seq_phragmen(demo_ballots(), 2).unwrap();
    assert_eq!(a1.electedcandidates, a2.electedcandidates);
    assert_eq!(a1.edgeweight, a2.edgeweight);
    assert_eq!(a1.voterload, a2.voterload);
    assert_eq!(a1.cansupport, a2.cansupport);
}

#[test]
fn boundary_zero_seats_changes_nothing() {
    let a = seq_phragmen(demo_ballots(), 0).unwrap();
    assert!(a.electedcandidates.is_empty());
    assert!(a.canelected.iter().all(|&f| !f));
    assert!(a.voterload.iter().all(|&l| l == 0));
    assert!(a.edgeload.iter().all(|&l| l == 0));
    assert!(a.edgeweight.iter().all(|&w| w == 0));
    assert!(a.cansupport.iter().all(|&s| s == 0));
}

#[test]
fn boundary_all_candidates_elected() {
    let a = seq_phragmen(demo_ballots(), 3).unwrap();
    assert_eq!(a.electedcandidates.len(), 3);
    assert!(a.canelected.iter().all(|&f| f));
    let mut sorted = a.electedcandidates.clone();
    sorted.sort();
    assert_eq!(sorted, vec![0, 1, 2]);
}

#[test]
fn too_many_seats_is_rejected() {
    let r = seq_phragmen(demo_ballots(), 4);
    assert_eq!(r.err(), Some(PhragmenError::InvalidSeatCount));
}

#[test]
fn zero_approval_candidate_is_never_selected() {
    // X's only supporter has budget zero; Y is electable
    let ballots: Vec<Ballot> = vec![
        ("A".to_string(), 0, vec!["X".to_string()]),
        ("B".to_string(), 10, vec!["Y".to_string()]),
    ];
    let a = seq_phragmen(ballots, 1).unwrap();
    assert_eq!(a.electedcandidates, vec![1]);
    assert!(!a.canelected[0]);
}

#[test]
fn all_zero_approval_is_unelectable() {
    let ballots: Vec<Ballot> = vec![("A".to_string(), 0, vec!["X".to_string()])];
    let r = seq_phragmen(ballots, 1);
    assert_eq!(r.err(), Some(PhragmenError::UnelectableCandidate));
}

#[test]
fn zero_approval_unelectable_even_with_electable_round_before() {
    let ballots: Vec<Ballot> = vec![
        ("A".to_string(), 0, vec!["X".to_string()]),
        ("B".to_string(), 10, vec!["Y".to_string()]),
    ];
    let r = seq_phragmen(ballots, 2);
    assert_eq!(r.err(), Some(PhragmenError::UnelectableCandidate));
}

#[test]
fn duplicate_approvals_make_two_edges() {
    let ballots: Vec<Ballot> = vec![(
        "A".to_string(),
        10,
        vec!["X".to_string(), "X".to_string()],
    )];
    let a = seq_phragmen(ballots, 1).unwrap();
    // the voter's budget is counted once per edge
    assert_eq!(a.canapproval, vec![20]);
    assert_eq!(a.electedcandidates, vec![0]);
}

#[test]
fn weight_conservation_on_scenario() {
    let a = seq_phragmen(demo_ballots(), 2).unwrap();
    // every loaded voter's weights add up to its whole budget (times SCALE),
    // up to one fixed-point unit per edge
    for v in 0..a.voterlist.len() {
        if a.voterload[v] > 0 {
            let total: i128 = a
                .edgelist
                .iter()
                .filter(|e| e.voterindex == v)
                .map(|e| a.edgeweight[e.index])
                .sum();
            let budget = a.voterlist[v].budget as i128 * SCALE;
            let edges = a.edgelist.len() as i128;
            assert!(budget - edges < total && total < budget + edges);
        }
    }
}

#[test]
fn weightstoloads_inverts_supports() {
    let mut a = seq_phragmen(demo_ballots(), 2).unwrap();
    let weights = a.edgeweight.clone();
    let supports = a.cansupport.clone();
    a.weightstoloads().unwrap();
    for e in 0..a.edgelist.len() {
        let ci = a.edgelist[e].canindex;
        if supports[ci] > 0 {
            assert_eq!(a.edgeload[e], SCALE * weights[e] / supports[ci]);
        }
    }
}

#[test]
fn aggregates_follow_mutators() {
    let (voters, cands) = setuplists(demo_ballots());
    let mut a = Assignment::new(voters, cands).unwrap();
    let edge = a.edgelist[1].clone();
    a.setload(&edge, 7).unwrap();
    assert_eq!(a.voterload[0], 7);
    a.setload(&edge, 3).unwrap();
    assert_eq!(a.voterload[0], 3);
    let other = a.edgelist[0].clone();
    a.setload(&other, 5).unwrap();
    assert_eq!(a.voterload[0], 8);
    a.setweight(&edge, 11).unwrap();
    assert_eq!(a.cansupport[edge.canindex], 11);
    a.setweight(&edge, 4).unwrap();
    assert_eq!(a.cansupport[edge.canindex], 4);
}

#[test]
fn elect_and_unelect_stay_in_sync() {
    let (voters, cands) = setuplists(demo_ballots());
    let mut a = Assignment::new(voters, cands).unwrap();
    let y = phragmen::graph::Candidate::new("Y".to_string(), 1);
    a.elect(&y);
    assert!(a.canelected[1]);
    assert_eq!(a.electedcandidates, vec![1]);
    // electing again does not duplicate the membership
    a.elect(&y);
    assert_eq!(a.electedcandidates, vec![1]);
    a.unelect(&y);
    assert!(!a.canelected[1]);
    assert!(a.electedcandidates.is_empty());
}

#[test]
fn voter_new_builds_one_edge_per_approval() {
    let voter = phragmen::graph::Voter::new((
        "A".to_string(),
        10,
        vec!["X".to_string(), "Y".to_string()],
    ));
    assert_eq!(voter.voterid, "A");
    assert_eq!(voter.budget, 10);
    assert_eq!(voter.edges.len(), 2);
    assert_eq!(voter.edges[0].voterid, "A");
    assert_eq!(voter.edges[0].canid, "X");
    assert_eq!(voter.edges[1].canid, "Y");
    let edge = phragmen::graph::Edge::new("A".to_string(), "X".to_string());
    assert_eq!(edge.voterid, "A");
    assert_eq!(edge.canid, "X");
    assert_eq!(edge.index, 0);
}

#[test]
fn setscore_writes_the_candidate_score() {
    let (voters, cands) = setuplists(demo_ballots());
    let mut a = Assignment::new(voters, cands).unwrap();
    let z = phragmen::graph::Candidate::new("Z".to_string(), 2);
    a.setscore(&z, 123);
    assert_eq!(a.canscore, vec![0, 0, 123]);
}

#[test]
fn scores_are_compared_exactly_not_in_fixed_point() {
    // both initial scores truncate to a single fixed-point unit, but
    // 1/900000000 < 1/600000000 exactly, so the higher-approval Y wins
    let ballots: Vec<Ballot> = vec![
        ("A".to_string(), 600_000_000, vec!["X".to_string()]),
        ("B".to_string(), 900_000_000, vec!["Y".to_string()]),
    ];
    let a = seq_phragmen(ballots, 1).unwrap();
    assert_eq!(a.electedcandidates, vec![1]);
}

#[test]
fn exact_tie_elects_the_earlier_candidate() {
    let ballots: Vec<Ballot> = vec![
        ("A".to_string(), 10, vec!["X".to_string()]),
        ("B".to_string(), 10, vec!["Y".to_string()]),
    ];
    let a = seq_phragmen(ballots, 1).unwrap();
    assert_eq!(a.electedcandidates, vec![0]);
}
