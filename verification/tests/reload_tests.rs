use rollman_elo::rating::Outcome;
use rollman_elo::stats::{Match, Stats};

fn elo_bits(a: u32, b: u32, o: Outcome, opp: u32, n: usize) -> (u32, u32) {
    let w = match o {
        Outcome::Win => 1.0,
        Outcome::Draw => 0.5,
        Outcome::Loss => 0.0,
    };
    let pa = 1.0 / (1.0 + 10.0_f32.powf((f32::from_bits(b) - f32::from_bits(a)) / 400.0));
    let pb = 1.0 / (1.0 + 10.0_f32.powf((f32::from_bits(a) - f32::from_bits(b)) / 400.0));
    let rate = 5.0 * ((f32::from_bits(opp) - 1500.0) / 400.0).exp() / (n as f32);
    (
        (f32::from_bits(a) + rate * (w - pa)).to_bits(),
        (f32::from_bits(b) + rate * (1.0 - w - pb)).to_bits(),
    )
}

fn m(r: &str, g: &str, rs: i16, gs: i16) -> Match {
    Match {
        rollman_token: r.to_string(),
        ghost_token: g.to_string(),
        rollman_score: rs,
        ghost_score: gs,
    }
}

#[test]
fn reloading_an_empty_ledger_resets_everyone_to_base() {
    let mut st = Stats::default();
    st.ensure_agent(&"a".to_string(), "u".to_string(), "a".to_string(), 1);
    st.agents[0].1.rollman_elo = 1620.5f32.to_bits();
    st.agents[0].1.rollman_count = 12;
    st.agents[0].1.rollman_time = 7;
    let f = |a, b, o, opp, n| elo_bits(a, b, o, opp, n);
    st.reload(&f);
    assert_eq!(st.matches.len(), 0);
    assert_eq!(st.agents.len(), 1);
    assert_eq!(st.agents[0].1.rollman_elo, rollman_elo::constants::ELO_BASE_BITS);
    assert_eq!(st.agents[0].1.ghost_elo, rollman_elo::constants::ELO_BASE_BITS);
    assert_eq!(st.agents[0].1.rollman_count, 0);
    assert_eq!(st.agents[0].1.rollman_time, u32::MAX);
}

#[test]
fn reload_keeps_the_matches_and_rebuilds_the_indices() {
    let mut st = Stats::default();
    st.ensure_agent(&"R".to_string(), "uR".to_string(), "r".to_string(), 1);
    st.ensure_agent(&"G1".to_string(), "u1".to_string(), "g1".to_string(), 1);
    st.ensure_agent(&"G2".to_string(), "u2".to_string(), "g2".to_string(), 1);
    let f = |a, b, o, opp, n| elo_bits(a, b, o, opp, n);
    st.add_match(1, m("R", "G1", 10, 5), &f);
    st.add_match(2, m("R", "G2", 10, 7), &f);
    st.add_match(3, m("R", "G1", 10, 9), &f);
    st.logic_version = 2;
    st.awaiting = 77;
    st.reload(&f);
    let ids: Vec<u32> = st.matches.iter().map(|(i, _)| *i).collect();
    assert_eq!(ids, vec![1, 2, 3]);
    assert_eq!(st.logic_version, 2);
    assert_eq!(st.awaiting, 77);
    assert_eq!(st.agents[0].1.rollman_count, 3);
    assert_eq!(st.agents[0].1.rollman_time, 1);
    assert_eq!(st.agents[1].1.ghost_count, 2);
    assert_eq!(st.agents[2].1.ghost_count, 1);
    assert_eq!(st.agents[0].1.pair_counts.len(), 2);
    // the identity fields survive the reload untouched
    assert_eq!(st.agents[1].0, "G1");
    assert_eq!(st.agents[1].1.user, "u1");
}
