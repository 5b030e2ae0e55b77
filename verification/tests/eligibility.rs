use rollman_elo::agent::{eligible, Agent};

#[test]
fn clean_record_is_eligible() {
    let mut a = Agent::new("u".to_string(), "bot".to_string(), 1);
    a.rollman_count = 100;
    assert!(a.can_rollman());
}

#[test]
fn up_to_fifty_failures_are_free() {
    // 55 failures: 100 > (55 - 50) * 10 = 50 still holds
    let mut a = Agent::new("u".to_string(), "bot".to_string(), 1);
    a.rollman_count = 100;
    for id in 0..55u32 {
        rollman_elo::agent::insert_failure(&mut a.failure, id);
    }
    assert!(a.can_rollman());
}

#[test]
fn failure_volume_outpacing_matches_is_ineligible() {
    // 40 > (60 - 50) * 10 = 100 is false
    let mut a = Agent::new("u".to_string(), "bot".to_string(), 1);
    a.ghost_count = 40;
    for id in 0..60u32 {
        rollman_elo::agent::insert_failure(&mut a.failure, id);
    }
    assert!(!a.can_ghost());
}

#[test]
fn eligibility_boundaries() {
    assert!(!eligible(0, 0));
    assert!(eligible(1, 0));
    assert!(eligible(1, 50));
    assert!(!eligible(10, 51));
    assert!(eligible(11, 51));
    assert!(!eligible(100, 60));
    assert!(eligible(101, 60));
}

#[test]
fn fresh_agent_starts_at_base() {
    let a = Agent::new("u".to_string(), "bot".to_string(), 7);
    assert_eq!(a.version, 7);
    assert_eq!(a.rollman_elo, rollman_elo::constants::ELO_BASE_BITS);
    assert_eq!(a.ghost_elo, rollman_elo::constants::ELO_BASE_BITS);
    assert_eq!(a.rollman_time, u32::MAX);
    assert!(!a.can_rollman());
}
