use rollman_elo::pairing::{matches_to_create, schedule_order, Candidate};
use rollman_elo::rating::order_key;
use rollman_elo::stats::Stats;

fn priority_bits(relo_b: u32, gelo_b: u32, count: u32, ra: usize, rb: usize) -> u32 {
    let relo = f32::from_bits(relo_b);
    let gelo = f32::from_bits(gelo_b);
    let diff = (relo - gelo).abs();
    let sum = relo + gelo;
    let weight = ((diff - sum / 1.5) / (400.0 * 1.5) + (ra + rb) as f32 / 10.0).exp();
    (count as f32 * weight).to_bits()
}

fn cand(r: &str, g: &str, count: u32, bits: u32) -> Candidate {
    Candidate {
        rollman_token: r.to_string(),
        ghost_token: g.to_string(),
        count,
        priority_bits: bits,
        key: order_key(bits),
    }
}

#[test]
fn capacity_budget_is_respected() {
    assert_eq!(matches_to_create(210, 0), 0);
    assert_eq!(matches_to_create(0, 210), 0);
    assert_eq!(matches_to_create(105, 106), 0);
    assert_eq!(matches_to_create(200, 5), 5);
    assert_eq!(matches_to_create(0, 0), 210);
}

#[test]
fn played_pairs_never_beat_unplayed_ones() {
    // priority grows with the pair's played count, all else fixed
    let base = rollman_elo::constants::ELO_BASE_BITS;
    let p0 = priority_bits(base, base, 0, 0, 0);
    let p1 = priority_bits(base, base, 1, 0, 0);
    let p2 = priority_bits(base, base, 2, 0, 0);
    assert!(f32::from_bits(p0) <= f32::from_bits(p1));
    assert!(f32::from_bits(p1) <= f32::from_bits(p2));
    let pairs = vec![cand("a", "b", 2, p2), cand("c", "d", 0, p0)];
    let out = schedule_order(pairs, 10);
    assert_eq!(out.len(), 2);
    assert_eq!(out[0].rollman_token, "c");
    assert_eq!(out[1].rollman_token, "a");
}

#[test]
fn fresh_equal_pair_is_scheduled_with_zero_priority() {
    // a 1500-rated rollman and a 1500-rated ghost that never played:
    // the pair is offered with count zero and priority exactly zero
    let mut st = Stats::default();
    st.ensure_agent(&"X".to_string(), "ux".to_string(), "x".to_string(), 1);
    st.ensure_agent(&"Y".to_string(), "uy".to_string(), "y".to_string(), 1);
    st.agents[0].1.rollman_count = 100;
    st.agents[1].1.ghost_count = 100;
    let rollmen = st.rollman_candidate_indices();
    let ghosts = st.ghost_candidate_indices();
    assert_eq!(rollmen, vec![0]);
    assert_eq!(ghosts, vec![1]);
    let f = |a, b, c, ra, rb| priority_bits(a, b, c, ra, rb);
    let cands = st.candidate_pairs(&rollmen, &ghosts, &f);
    assert_eq!(cands.len(), 1);
    assert_eq!(cands[0].rollman_token, "X");
    assert_eq!(cands[0].ghost_token, "Y");
    assert_eq!(cands[0].count, 0);
    assert_eq!(f32::from_bits(cands[0].priority_bits), 0.0);
    let out = schedule_order(cands, matches_to_create(0, 0));
    assert_eq!(out.len(), 1);
    assert_eq!(out[0].rollman_token, "X");
    assert_eq!(out[0].ghost_token, "Y");
}

#[test]
fn full_capacity_schedules_nothing() {
    let mut st = Stats::default();
    st.ensure_agent(&"X".to_string(), "ux".to_string(), "x".to_string(), 1);
    st.ensure_agent(&"Y".to_string(), "uy".to_string(), "y".to_string(), 1);
    st.agents[0].1.rollman_count = 100;
    st.agents[1].1.ghost_count = 100;
    let rollmen = st.rollman_candidate_indices();
    let ghosts = st.ghost_candidate_indices();
    let f = |a, b, c, ra, rb| priority_bits(a, b, c, ra, rb);
    let cands = st.candidate_pairs(&rollmen, &ghosts, &f);
    let out = schedule_order(cands, matches_to_create(110, 100));
    assert_eq!(out.len(), 0);
}

#[test]
fn weak_or_unreliable_agents_are_not_candidates() {
    let mut st = Stats::default();
    st.ensure_agent(&"w".to_string(), "u1".to_string(), "w".to_string(), 1);
    st.ensure_agent(&"i".to_string(), "u2".to_string(), "i".to_string(), 1);
    // rated below the floor
    st.agents[0].1.rollman_count = 100;
    st.agents[0].1.rollman_elo = 1200.0f32.to_bits();
    // ineligible: no matches at all
    st.agents[1].1.rollman_elo = 1600.0f32.to_bits();
    assert_eq!(st.rollman_candidate_indices(), Vec::<usize>::new());
}

#[test]
fn ranks_order_a_users_agents_by_rating() {
    let mut st = Stats::default();
    st.ensure_agent(&"a".to_string(), "u".to_string(), "a".to_string(), 1);
    st.ensure_agent(&"b".to_string(), "u".to_string(), "b".to_string(), 1);
    st.ensure_agent(&"c".to_string(), "other".to_string(), "c".to_string(), 1);
    for k in 0..3 {
        st.agents[k].1.rollman_count = 100;
    }
    st.agents[0].1.rollman_elo = 1550.0f32.to_bits();
    st.agents[1].1.rollman_elo = 1600.0f32.to_bits();
    st.agents[2].1.rollman_elo = 1700.0f32.to_bits();
    assert_eq!(st.rollman_rank(0), 1); // beaten by its user's better agent
    assert_eq!(st.rollman_rank(1), 0);
    assert_eq!(st.rollman_rank(2), 0); // other user: own group
}
