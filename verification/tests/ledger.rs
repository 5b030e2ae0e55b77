use rollman_elo::rating::Outcome;
use rollman_elo::stats::{Match, Stats};

fn elo_bits(a: u32, b: u32, o: Outcome, opp: u32, n: usize) -> (u32, u32) {
    let w = match o {
        Outcome::Win => 1.0,
        Outcome::Draw => 0.5,
        Outcome::Loss => 0.0,
    };
    let pa = 1.0 / (1.0 + 10.0_f32.powf((f32::from_bits(b) - f32::from_bits(a)) / 400.0));
    let pb = 1.0 / (1.0 + 10.0_f32.powf((f32::from_bits(a) - f32::from_bits(b)) / 400.0));
    let rate = 5.0 * ((f32::from_bits(opp) - 1500.0) / 400.0).exp() / (n as f32);
    (
        (f32::from_bits(a) + rate * (w - pa)).to_bits(),
        (f32::from_bits(b) + rate * (1.0 - w - pb)).to_bits(),
    )
}

fn fresh_ledger() -> Stats {
    let mut st = Stats::default();
    st.ensure_agent(&"R".to_string(), "uR".to_string(), "botR".to_string(), 1);
    st.ensure_agent(&"G1".to_string(), "u1".to_string(), "bot1".to_string(), 1);
    st.ensure_agent(&"G2".to_string(), "u2".to_string(), "bot2".to_string(), 1);
    st
}

fn m(r: &str, g: &str, rs: i16, gs: i16) -> Match {
    Match {
        rollman_token: r.to_string(),
        ghost_token: g.to_string(),
        rollman_score: rs,
        ghost_score: gs,
    }
}

fn ingest_all(st: &mut Stats, ms: Vec<(u32, Match)>) {
    let f = |a, b, o, opp, n| elo_bits(a, b, o, opp, n);
    for (id, mm) in ms {
        st.add_match(id, mm, &f);
    }
}

fn structural_snapshot(st: &Stats) -> Vec<(usize, usize, u32, u32, Vec<u32>, Vec<u32>, Vec<(usize, u32)>)> {
    st.agents
        .iter()
        .map(|(_, a)| {
            let mut rh: Vec<u32> = a.rollman_history.iter().map(|h| h.id).collect();
            let mut gh: Vec<u32> = a.ghost_history.iter().map(|h| h.id).collect();
            rh.sort();
            gh.sort();
            let mut pc = a.pair_counts.clone();
            pc.sort();
            (
                a.rollman_count,
                a.ghost_count,
                a.rollman_time,
                a.ghost_time,
                rh,
                gh,
                pc,
            )
        })
        .collect()
}

#[test]
fn ingestion_order_keeps_counts_and_indices_but_not_ratings() {
    // The documented path-dependence: counts and indices are order
    // independent, the final ratings are not.
    let ms = vec![
        (1u32, m("R", "G1", 10, 5)),
        (2u32, m("R", "G2", 10, 7)),
        (3u32, m("R", "G1", 10, 9)),
    ];
    let rev: Vec<(u32, Match)> = ms.iter().rev().map(|(i, mm)| (*i, mm.clone())).collect();
    let mut a = fresh_ledger();
    ingest_all(&mut a, ms);
    let mut b = fresh_ledger();
    ingest_all(&mut b, rev);
    assert_eq!(structural_snapshot(&a), structural_snapshot(&b));
    let ids_a: Vec<u32> = a.matches.iter().map(|(i, _)| *i).collect();
    let ids_b: Vec<u32> = b.matches.iter().map(|(i, _)| *i).collect();
    assert_eq!(ids_a, vec![1, 2, 3]);
    assert_eq!(ids_b, vec![1, 2, 3]);
    let ratings_a: Vec<u32> = a.agents.iter().map(|(_, x)| x.ghost_elo).collect();
    let ratings_b: Vec<u32> = b.agents.iter().map(|(_, x)| x.ghost_elo).collect();
    assert_ne!(ratings_a, ratings_b);
}

#[test]
fn add_match_updates_counts_recency_and_indices() {
    let mut st = fresh_ledger();
    ingest_all(&mut st, vec![(7, m("R", "G1", 3, 1)), (9, m("R", "G2", 2, 4))]);
    assert_eq!(st.agents[0].1.rollman_count, 2);
    assert_eq!(st.agents[0].1.rollman_time, 7);
    assert_eq!(st.agents[1].1.ghost_count, 1);
    assert_eq!(st.agents[1].1.ghost_time, 7);
    assert_eq!(st.agents[0].1.rollman_history.len(), 2);
    assert_eq!(st.agents[0].1.pair_counts, vec![(1, 1), (2, 1)]);
    assert_eq!(st.matches.len(), 2);
    assert!(st.contains_match(9));
    assert!(!st.contains_match(8));
    assert_eq!(st.last_match_id(), 9);
}

#[test]
fn rematch_counts_the_pair_twice_and_adds_no_transitive_signal() {
    let mut st = fresh_ledger();
    ingest_all(&mut st, vec![(1, m("R", "G1", 3, 1)), (2, m("R", "G1", 0, 5))]);
    // a direct rematch contributes no cross-comparison: ratings untouched
    assert_eq!(st.agents[1].1.ghost_elo, rollman_elo::constants::ELO_BASE_BITS);
    assert_eq!(st.agents[0].1.pair_counts, vec![(1, 2)]);
}

#[test]
fn clear_keeps_identity_and_failures_only() {
    let mut st = fresh_ledger();
    ingest_all(&mut st, vec![(1, m("R", "G1", 3, 1))]);
    rollman_elo::agent::insert_failure(&mut st.agents[0].1.failure, 5);
    st.logic_version = 4;
    st.clear();
    assert_eq!(st.matches.len(), 0);
    assert_eq!(st.logic_version, 0);
    assert_eq!(st.awaiting, 0);
    assert_eq!(st.agents.len(), 3);
    assert_eq!(st.agents[0].0, "R");
    assert_eq!(st.agents[0].1.user, "uR");
    assert_eq!(st.agents[0].1.failure, vec![5]);
    assert_eq!(st.agents[0].1.rollman_count, 0);
    assert_eq!(st.agents[0].1.rollman_time, u32::MAX);
    assert_eq!(st.agents[0].1.rollman_elo, rollman_elo::constants::ELO_BASE_BITS);
}

#[test]
fn insert_failure_keeps_a_sorted_set() {
    let mut v: Vec<u32> = Vec::new();
    rollman_elo::agent::insert_failure(&mut v, 5);
    rollman_elo::agent::insert_failure(&mut v, 2);
    rollman_elo::agent::insert_failure(&mut v, 9);
    rollman_elo::agent::insert_failure(&mut v, 5);
    assert_eq!(v, vec![2, 5, 9]);
}
