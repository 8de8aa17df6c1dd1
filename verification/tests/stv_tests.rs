use easyvote::stv::{purge_ballots, ranked_rows, sort_by_count_desc, Election, ElectionResult};

fn s(x: &str) -> String {
    x.to_string()
}

fn ballot(names: &[&str]) -> Vec<String> {
    names.iter().map(|n| n.to_string()).collect()
}

fn conservation_holds(total_ballots: usize, r: &ElectionResult) -> bool {
    r.spoiled_count + r.quota * r.elected.len() + r.exhausted_count + r.leftover_count
        == total_ballots
}

fn names_disjoint(r: &ElectionResult) -> bool {
    r.elected
        .iter()
        .all(|(n, _)| r.eliminated.iter().all(|(m, _)| n != m))
}

#[test]
fn spoiled_ballot_scenario() {
    // One unknown name spoils the whole ballot; the rest elect `a`.
    let e = Election::new(
        vec![s("a")],
        vec![ballot(&["a"]), ballot(&["a"]), ballot(&["z"]), ballot(&["a"])],
        1,
    );
    let r = e.results();
    assert_eq!(r.spoiled_count, 1);
    assert_eq!(r.quota, 2);
    assert_eq!(r.elected, vec![(s("a"), 3)]);
    assert_eq!(r.eliminated, vec![]);
    assert_eq!(r.exhausted_count, 1);
    assert!(conservation_holds(4, &r));
    assert!(names_disjoint(&r));
}

#[test]
fn multi_round_scenario() {
    // Nine ballots, two seats: c wins at once, d and b fall, a wins last.
    let votes = vec![
        ballot(&["c", "b", "a"]),
        ballot(&["c", "b", "a"]),
        ballot(&["b", "c"]),
        ballot(&["a", "b"]),
        ballot(&["c", "b"]),
        ballot(&["b", "a"]),
        ballot(&["c", "b", "a"]),
        ballot(&["d", "a"]),
        ballot(&["a", "b"]),
    ];
    let e = Election::new(vec![s("a"), s("b"), s("c"), s("d")], votes, 2);
    let r = e.results();
    assert_eq!(r.quota, 4);
    assert_eq!(r.spoiled_count, 0);
    assert_eq!(r.elected, vec![(s("c"), 4), (s("a"), 4)]);
    assert_eq!(r.eliminated, vec![(s("d"), 1), (s("b"), 2)]);
    assert_eq!(r.exhausted_count, 1);
    assert_eq!(r.leftover_count, 0);
    assert!(r.rounds <= 4);
    assert!(conservation_holds(9, &r));
    assert!(names_disjoint(&r));
}

#[test]
fn multi_round_scenario_seeded_matches() {
    let votes = vec![
        ballot(&["c", "b", "a"]),
        ballot(&["c", "b", "a"]),
        ballot(&["b", "c"]),
        ballot(&["a", "b"]),
        ballot(&["c", "b"]),
        ballot(&["b", "a"]),
        ballot(&["c", "b", "a"]),
        ballot(&["d", "a"]),
        ballot(&["a", "b"]),
    ];
    let e = Election::new(vec![s("a"), s("b"), s("c"), s("d")], votes, 2);
    let r = e.results_seeded(12345);
    assert_eq!(r.elected, vec![(s("c"), 4), (s("a"), 4)]);
    assert_eq!(r.eliminated, vec![(s("d"), 1), (s("b"), 2)]);
}

#[test]
fn zero_ballots_eliminates_everyone() {
    let e = Election::new(vec![s("a"), s("b")], vec![], 1);
    let r = e.results();
    assert_eq!(r.quota, 1);
    assert_eq!(r.elected, vec![]);
    assert_eq!(r.eliminated, vec![(s("a"), 0), (s("b"), 0)]);
    assert!(conservation_holds(0, &r));
    assert!(r.rounds <= 2);
}

#[test]
fn more_seats_than_candidates_halts_early() {
    let e = Election::new(vec![s("x")], vec![ballot(&["x"]), ballot(&["x"])], 3);
    let r = e.results();
    assert_eq!(r.quota, 1);
    assert_eq!(r.elected, vec![(s("x"), 2)]);
    assert_eq!(r.eliminated, vec![]);
    assert_eq!(r.exhausted_count, 1);
    assert!(conservation_holds(2, &r));
}

#[test]
fn leftover_ballots_when_seats_fill() {
    let e = Election::new(
        vec![s("a"), s("b")],
        vec![ballot(&["a"]), ballot(&["a"]), ballot(&["b"])],
        1,
    );
    let r = e.results();
    assert_eq!(r.quota, 2);
    assert_eq!(r.elected, vec![(s("a"), 2)]);
    assert_eq!(r.leftover_count, 1);
    assert!(conservation_holds(3, &r));
}

#[test]
fn validity_is_whole_ballot() {
    // A ballot is spoiled when ANY entry is unknown, not just the first.
    let e = Election::new(vec![s("a")], vec![ballot(&["a", "z"]), ballot(&["a"])], 1);
    let r = e.results();
    assert_eq!(r.spoiled_count, 1);
    assert_eq!(r.quota, 1);
    assert_eq!(r.elected, vec![(s("a"), 1)]);
}

#[test]
fn surplus_transfer_moves_next_preferences() {
    // Five first-preference ballots for a, seats 1, quota 3: two surplus
    // ballots transfer; every one of them lands on b's pile whatever the
    // random draw picked.
    let votes = vec![
        ballot(&["a", "b"]),
        ballot(&["a", "b"]),
        ballot(&["a", "b"]),
        ballot(&["a", "b"]),
        ballot(&["a", "b"]),
    ];
    let e = Election::new(vec![s("a"), s("b")], votes, 1);
    let r = e.results();
    assert_eq!(r.quota, 3);
    assert_eq!(r.elected, vec![(s("a"), 5)]);
    assert_eq!(r.exhausted_count, 0);
    assert_eq!(r.leftover_count, 2);
    assert!(conservation_holds(5, &r));
}

#[test]
fn purge_reports_spoiled_and_keeps_valid() {
    let cands = vec![s("a"), s("b")];
    let votes = vec![ballot(&["a"]), ballot(&["q"]), ballot(&["b", "a"])];
    let (kept, spoiled) = purge_ballots(&cands, votes);
    assert_eq!(spoiled, 1);
    assert_eq!(kept, vec![ballot(&["a"]), ballot(&["b", "a"])]);
}

#[test]
fn purge_is_idempotent() {
    let cands = vec![s("a"), s("b")];
    let votes = vec![ballot(&["a"]), ballot(&["q"]), ballot(&["b", "a"])];
    let (kept, _) = purge_ballots(&cands, votes);
    let kept_before = kept.clone();
    let (kept2, spoiled2) = purge_ballots(&cands, kept);
    assert_eq!(spoiled2, 0);
    assert_eq!(kept2, kept_before);
}

#[test]
fn winners_are_ranked_by_count() {
    let votes = vec![
        ballot(&["c", "b", "a"]),
        ballot(&["c", "b", "a"]),
        ballot(&["b", "c"]),
        ballot(&["a", "b"]),
        ballot(&["c", "b"]),
        ballot(&["b", "a"]),
        ballot(&["c", "b", "a"]),
        ballot(&["d", "a"]),
        ballot(&["a", "b"]),
    ];
    let e = Election::new(vec![s("a"), s("b"), s("c"), s("d")], votes, 2);
    let w = e.winners();
    assert_eq!(w, vec![(s("c"), 4), (s("a"), 4)]);
}

#[test]
fn sort_by_count_desc_orders_pairs() {
    let sorted = sort_by_count_desc(vec![(s("x"), 1), (s("y"), 5), (s("z"), 3)]);
    assert_eq!(sorted, vec![(s("y"), 5), (s("z"), 3), (s("x"), 1)]);
}

#[test]
fn ranked_rows_share_rank_on_ties() {
    let rows = ranked_rows(&vec![(s("c"), 4), (s("a"), 4), (s("b"), 2)]);
    assert_eq!(rows, vec![(1, s("c"), 4), (1, s("a"), 4), (2, s("b"), 2)]);
}

#[test]
fn zero_surplus_runs_agree() {
    // When no winning pile ever exceeds the quota, the draw never picks a
    // ballot and the outcome is the same whatever the seed.
    let votes = vec![
        ballot(&["c", "b", "a"]),
        ballot(&["c", "b", "a"]),
        ballot(&["b", "c"]),
        ballot(&["a", "b"]),
        ballot(&["c", "b"]),
        ballot(&["b", "a"]),
        ballot(&["c", "b", "a"]),
        ballot(&["d", "a"]),
        ballot(&["a", "b"]),
    ];
    let e = Election::new(vec![s("a"), s("b"), s("c"), s("d")], votes, 2);
    let first = e.results_seeded(1);
    for seed in [2u64, 77, 9402024, u64::MAX] {
        let again = e.results_seeded(seed);
        assert_eq!(again.elected, first.elected);
        assert_eq!(again.eliminated, first.eliminated);
        assert_eq!(again.spoiled_count, first.spoiled_count);
        assert_eq!(again.exhausted_count, first.exhausted_count);
    }
    let unseeded = e.results();
    assert_eq!(unseeded.elected, first.elected);
    assert_eq!(unseeded.eliminated, first.eliminated);
}

#[test]
fn invariants_hold_for_any_seed() {
    // Heavy surplus activity: whatever the draw picks, conservation, the
    // seat bound, the round bound and mutual exclusion must hold.
    let votes = vec![
        ballot(&["a", "b", "c"]),
        ballot(&["a", "c", "b"]),
        ballot(&["a", "b"]),
        ballot(&["a"]),
        ballot(&["a", "c"]),
        ballot(&["b", "c"]),
        ballot(&["c"]),
    ];
    for seed in 0..32 {
        let e = Election::new(vec![s("a"), s("b"), s("c")], votes.clone(), 2);
        let r = e.results_seeded(seed);
        assert!(conservation_holds(7, &r));
        assert!(names_disjoint(&r));
        assert!(r.elected.len() <= 2);
        assert!(r.rounds <= 3);
        assert!(r.elected.iter().all(|(_, c)| *c >= r.quota));
        assert!(r.eliminated.iter().all(|(_, c)| *c < r.quota));
    }
}

#[test]
fn quota_law_examples() {
    assert_eq!(easyvote::droop_quota(100, 2), 34);
    assert_eq!(easyvote::droop_quota(3, 1), 2);
    assert_eq!(easyvote::droop_quota(9, 2), 4);
    assert_eq!(easyvote::droop_quota(0, 5), 1);
}
