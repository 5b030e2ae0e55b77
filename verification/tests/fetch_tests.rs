use rollman_elo::fetch::{CodeInfo, MatchState, MatchSummary, SideInfo, SummaryStep};
use rollman_elo::rating::Outcome;
use rollman_elo::stats::Stats;

fn elo_bits(a: u32, b: u32, _o: Outcome, _opp: u32, _n: usize) -> (u32, u32) {
    // a placeholder rating rule for tests that only watch the bookkeeping
    (a, b)
}

fn side(code: Option<(&str, &str, u32)>, user: &str, score: i16, end: Option<&str>) -> SideInfo {
    SideInfo {
        code: code.map(|(id, entity, version)| CodeInfo {
            id: id.to_string(),
            entity: entity.to_string(),
            version,
        }),
        user: user.to_string(),
        score,
        end_state: end.map(|e| e.to_string()),
    }
}

fn summary(id: u32, lv: Option<u16>, state: MatchState, s0: SideInfo, s1: SideInfo) -> MatchSummary {
    MatchSummary { id, logic_version: lv, state, side0: s0, side1: s1 }
}

fn ok_sides() -> (SideInfo, SideInfo) {
    (
        side(Some(("c0", "bot0", 1)), "u0", 10, Some("OK")),
        side(Some(("c1", "bot1", 1)), "u1", 5, Some("OK")),
    )
}

#[test]
fn pending_summaries_move_the_watermark() {
    let mut st = Stats::default();
    let (s0, s1) = ok_sides();
    let s = summary(42, Some(0), MatchState::Judging, s0, s1);
    assert_eq!(st.apply_summary(&s, u32::MAX), SummaryStep::Next);
    assert_eq!(st.awaiting, 42);
}

#[test]
fn stale_version_stops_the_paging() {
    let mut st = Stats::default();
    st.logic_version = 3;
    let (s0, s1) = ok_sides();
    let s = summary(42, Some(2), MatchState::Finalized, s0, s1);
    assert_eq!(st.apply_summary(&s, u32::MAX), SummaryStep::Stop);
}

#[test]
fn known_match_skips_or_stops_depending_on_the_watermark() {
    let mut st = Stats::default();
    st.ensure_agent(&"c0".to_string(), "u0".to_string(), "bot0".to_string(), 1);
    st.ensure_agent(&"c1".to_string(), "u1".to_string(), "bot1".to_string(), 1);
    let f = |a, b, o, opp, n| elo_bits(a, b, o, opp, n);
    st.add_match(
        10,
        rollman_elo::stats::Match {
            rollman_token: "c0".to_string(),
            ghost_token: "c1".to_string(),
            rollman_score: 10,
            ghost_score: 5,
        },
        &f,
    );
    let (s0, s1) = ok_sides();
    let s = summary(10, Some(0), MatchState::Finalized, s0, s1);
    assert_eq!(st.apply_summary(&s, 5), SummaryStep::Next);
    let (s0, s1) = ok_sides();
    let s = summary(10, Some(0), MatchState::Finalized, s0, s1);
    assert_eq!(st.apply_summary(&s, 11), SummaryStep::Stop);
}

#[test]
fn unilateral_failure_is_recorded_against_the_failing_side() {
    let mut st = Stats::default();
    st.ensure_agent(&"c0".to_string(), "u0".to_string(), "bot0".to_string(), 1);
    st.ensure_agent(&"c1".to_string(), "u1".to_string(), "bot1".to_string(), 1);
    let s = summary(
        7,
        Some(0),
        MatchState::Finalized,
        side(Some(("c0", "bot0", 1)), "u0", 10, Some("RE")),
        side(Some(("c1", "bot1", 1)), "u1", 5, Some("OK")),
    );
    assert_eq!(st.apply_summary(&s, u32::MAX), SummaryStep::Next);
    assert_eq!(st.agents[0].1.failure, vec![7]);
    assert_eq!(st.agents[1].1.failure, Vec::<u32>::new());
}

#[test]
fn tied_scores_are_invalid_without_failures() {
    let mut st = Stats::default();
    st.ensure_agent(&"c0".to_string(), "u0".to_string(), "bot0".to_string(), 1);
    let s = summary(
        7,
        Some(0),
        MatchState::Finalized,
        side(Some(("c0", "bot0", 1)), "u0", 5, Some("OK")),
        side(Some(("c1", "bot1", 1)), "u1", 5, Some("OK")),
    );
    assert_eq!(st.apply_summary(&s, u32::MAX), SummaryStep::Next);
    assert_eq!(st.agents[0].1.failure, Vec::<u32>::new());
    assert_eq!(st.matches.len(), 0);
}

#[test]
fn version_bump_clears_the_ledger_and_installs_the_version() {
    let mut st = Stats::default();
    st.ensure_agent(&"c0".to_string(), "u0".to_string(), "bot0".to_string(), 1);
    st.ensure_agent(&"c1".to_string(), "u1".to_string(), "bot1".to_string(), 1);
    let f = |a, b, o, opp, n| elo_bits(a, b, o, opp, n);
    st.add_match(
        1,
        rollman_elo::stats::Match {
            rollman_token: "c0".to_string(),
            ghost_token: "c1".to_string(),
            rollman_score: 10,
            ghost_score: 5,
        },
        &f,
    );
    let (s0, s1) = ok_sides();
    let s = summary(9, Some(6), MatchState::Finalized, s0, s1);
    assert_eq!(st.apply_summary(&s, u32::MAX), SummaryStep::NeedReplay);
    assert_eq!(st.logic_version, 6);
    assert_eq!(st.matches.len(), 0);
    assert_eq!(st.agents.len(), 2);
    assert_eq!(st.agents[0].1.rollman_count, 0);
}

#[test]
fn replay_decides_the_roles() {
    let mut st = Stats::default();
    let (s0, s1) = ok_sides();
    let s = summary(9, Some(0), MatchState::Finalized, s0, s1);
    let f = |a, b, o, opp, n| elo_bits(a, b, o, opp, n);
    // side0 scored 10, side1 scored 5; the replay says (5, 10): side1
    // played rollman
    assert!(st.ingest_replay(&s, (5, 10), &f));
    assert_eq!(st.matches.len(), 1);
    assert_eq!(st.matches[0].0, 9);
    assert_eq!(st.matches[0].1.rollman_token, "c1");
    assert_eq!(st.matches[0].1.ghost_token, "c0");
    assert_eq!(st.matches[0].1.rollman_score, 5);
    assert_eq!(st.matches[0].1.ghost_score, 10);
    assert_eq!(st.agents.len(), 2);
    assert_eq!(st.agents[0].0, "c0");
    assert_eq!(st.agents[0].1.user, "u0");
}

#[test]
fn mismatched_replay_scores_ingest_nothing() {
    let mut st = Stats::default();
    let (s0, s1) = ok_sides();
    let s = summary(9, Some(0), MatchState::Finalized, s0, s1);
    let f = |a, b, o, opp, n| elo_bits(a, b, o, opp, n);
    assert!(!st.ingest_replay(&s, (10, 7), &f));
    assert_eq!(st.matches.len(), 0);
    assert_eq!(st.agents.len(), 0);
}
