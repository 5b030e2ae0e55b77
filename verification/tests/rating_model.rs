use rollman_elo::rating::{order_key, outcome_of, Outcome};
use rollman_elo::stats::{Match, Stats};

fn elo(a: f32, b: f32, a_win: f32, opp: f32, match_count: usize) -> (f32, f32) {
    let pa = 1.0 / (1.0 + 10.0_f32.powf((b - a) / 400.0));
    let pb = 1.0 / (1.0 + 10.0_f32.powf((a - b) / 400.0));
    let rate = 5.0 * ((opp - 1500.0) / 400.0).exp() / (match_count as f32);
    (a + rate * (a_win - pa), b + rate * (1.0 - a_win - pb))
}

fn elo_bits(a: u32, b: u32, o: Outcome, opp: u32, n: usize) -> (u32, u32) {
    let w = match o {
        Outcome::Win => 1.0,
        Outcome::Draw => 0.5,
        Outcome::Loss => 0.0,
    };
    let (x, y) = elo(f32::from_bits(a), f32::from_bits(b), w, f32::from_bits(opp), n);
    (x.to_bits(), y.to_bits())
}

fn fresh_ledger() -> Stats {
    let mut st = Stats::default();
    st.ensure_agent(&"R".to_string(), "uR".to_string(), "botR".to_string(), 1);
    st.ensure_agent(&"G1".to_string(), "u1".to_string(), "bot1".to_string(), 1);
    st.ensure_agent(&"G2".to_string(), "u2".to_string(), "bot2".to_string(), 1);
    st
}

fn m(r: &str, g: &str, rs: i16, gs: i16) -> Match {
    Match {
        rollman_token: r.to_string(),
        ghost_token: g.to_string(),
        rollman_score: rs,
        ghost_score: gs,
    }
}

#[test]
fn base_rating_bits_are_the_base_rating() {
    assert_eq!(f32::from_bits(rollman_elo::constants::ELO_BASE_BITS), 1500.0);
    assert_eq!(
        f32::from_bits(rollman_elo::constants::ELO_FLOOR_BITS),
        1500.0f32 - 400.0f32 / 1.5
    );
}

#[test]
fn draw_between_equal_ratings_changes_nothing() {
    // Two ghosts with equal ratings tie in the transitive comparison:
    // both ratings stay exactly at the base.
    let mut st = fresh_ledger();
    let f = |a, b, o, opp, n| elo_bits(a, b, o, opp, n);
    st.add_match(1, m("R", "G1", 10, 5), &f);
    st.add_match(2, m("R", "G2", 10, 5), &f);
    assert_eq!(st.agents[1].1.ghost_elo, rollman_elo::constants::ELO_BASE_BITS);
    assert_eq!(st.agents[2].1.ghost_elo, rollman_elo::constants::ELO_BASE_BITS);
}

#[test]
fn win_between_equal_ratings_moves_both_by_the_same_amount() {
    let mut st = fresh_ledger();
    let f = |a, b, o, opp, n| elo_bits(a, b, o, opp, n);
    st.add_match(1, m("R", "G1", 10, 5), &f);
    st.add_match(2, m("R", "G2", 10, 7), &f);
    let g1 = f32::from_bits(st.agents[1].1.ghost_elo);
    let g2 = f32::from_bits(st.agents[2].1.ghost_elo);
    assert!(g2 > 1500.0);
    assert!(g1 < 1500.0);
    assert_eq!(g2 - 1500.0, 1500.0 - g1);
}

#[test]
fn outcome_follows_the_scores() {
    assert_eq!(outcome_of(3, 2), Outcome::Win);
    assert_eq!(outcome_of(2, 2), Outcome::Draw);
    assert_eq!(outcome_of(-1, 2), Outcome::Loss);
}

#[test]
fn order_key_orders_like_the_ratings() {
    let samples: [f32; 7] = [-100.0, -0.5, 0.0, 1.0, 1233.25, 1500.0, 2500.0];
    for i in 0..samples.len() {
        for j in 0..samples.len() {
            let ki = order_key(samples[i].to_bits());
            let kj = order_key(samples[j].to_bits());
            assert_eq!(samples[i] < samples[j], ki < kj);
        }
    }
}
