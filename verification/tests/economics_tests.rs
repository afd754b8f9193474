use vnode::economics::{
    slash_within_range,
    BPS_SCALE, DEFAULT_SLASHING_THRESHOLD, REPUTATION_MAX,
};
use vnode::{StakingError, StakingManager};

fn manager_with(nodes: &[(&str, u64)]) -> StakingManager {
    let mut m = StakingManager::new(100);
    for (id, stake) in nodes {
        m.register_node(id, *stake).unwrap();
    }
    m
}

fn total_stake(m: &StakingManager, ids: &[&str]) -> i128 {
    ids.iter().map(|id| m.node(id).unwrap().stake).sum()
}

#[test]
fn new_registry_is_empty() {
    let m = StakingManager::new(500);
    assert_eq!(m.len(), 0);
    assert_eq!(m.min_stake(), 500);
    assert_eq!(m.slashing_threshold(), DEFAULT_SLASHING_THRESHOLD);
    assert_eq!(m.slashing_threshold(), 1_000);
    assert!(m.node("alpha").is_none());
}

#[test]
fn register_below_minimum_is_refused() {
    let mut m = StakingManager::new(100);
    let r = m.register_node("alpha", 99);
    assert_eq!(r, Err(StakingError::StakeBelowMinimum { stake: 99, minimum: 100 }));
    assert_eq!(m.len(), 0);
}

#[test]
fn register_at_minimum_is_accepted() {
    let mut m = StakingManager::new(100);
    assert_eq!(m.register_node("alpha", 100), Ok(()));
    assert_eq!(m.len(), 1);
}

#[test]
fn register_then_lookup_gives_fresh_stats() {
    let mut m = StakingManager::new(100);
    let now = vnode::UtcTime { secs: 1_700_000_000, nanos: 5 };
    m.register_node_at("alpha", 1_000, now).unwrap();
    let s = m.node("alpha").unwrap();
    assert_eq!(s.node_id, "alpha");
    assert_eq!(s.stake, 1_000);
    assert_eq!(s.reputation, REPUTATION_MAX);
    assert_eq!(s.uptime_secs, 0);
    assert_eq!(s.successful_contributions, 0);
    assert_eq!(s.slashes, 0);
    assert_eq!(s.last_seen, now);
}

#[test]
fn register_twice_starts_afresh() {
    let mut m = manager_with(&[("alpha", 1_000), ("beta", 2_000)]);
    m.update_performance("alpha", false, 10);
    m.register_node("alpha", 3_000).unwrap();
    assert_eq!(m.len(), 2);
    let s = m.node("alpha").unwrap();
    assert_eq!(s.stake, 3_000);
    assert_eq!(s.reputation, REPUTATION_MAX);
    assert_eq!(m.node("beta").unwrap().stake, 2_000);
}

#[test]
fn consistent_report_recovers_reputation_up_to_max() {
    let mut m = manager_with(&[("alpha", 1_000)]);
    m.update_performance("alpha", true, 5);
    let s = m.node("alpha").unwrap();
    assert_eq!(s.reputation, REPUTATION_MAX);
    assert_eq!(s.successful_contributions, 1);

    m.update_performance("alpha", false, 5);
    assert_eq!(m.node("alpha").unwrap().reputation, 9_000);
    m.update_performance("alpha", true, 5);
    let s = m.node("alpha").unwrap();
    assert_eq!(s.reputation, 9_100);
    assert_eq!(s.successful_contributions, 2);
}

#[test]
fn inconsistent_reports_floor_reputation_at_zero() {
    let mut m = manager_with(&[("alpha", 1_000)]);
    for _ in 0..12 {
        m.update_performance("alpha", false, 5);
    }
    let s = m.node("alpha").unwrap();
    assert_eq!(s.reputation, 0);
    assert_eq!(s.successful_contributions, 0);
}

#[test]
fn report_for_unknown_node_is_ignored() {
    let mut m = manager_with(&[("alpha", 1_000)]);
    let before = m.node("alpha").unwrap();
    m.update_performance("ghost", true, 5);
    assert_eq!(m.len(), 1);
    let after = m.node("alpha").unwrap();
    assert_eq!(before.reputation, after.reputation);
    assert_eq!(before.successful_contributions, after.successful_contributions);
    assert_eq!(before.last_seen, after.last_seen);
}

#[test]
fn report_updates_last_seen() {
    let mut m = StakingManager::new(1);
    let t0 = vnode::UtcTime { secs: 10, nanos: 0 };
    let t1 = vnode::UtcTime { secs: 20, nanos: 7 };
    m.register_node_at("alpha", 5, t0).unwrap();
    m.update_performance_at("alpha", true, 3, t1);
    assert_eq!(m.node("alpha").unwrap().last_seen, t1);
}

#[test]
fn slash_takes_penalty_and_reputation() {
    let mut m = manager_with(&[("alpha", 1_000)]);
    let ev = m.slash_node("alpha", 7, "deviation", 2_500).unwrap();
    assert_eq!(ev.node_id, "alpha");
    assert_eq!(ev.epoch, 7);
    assert_eq!(ev.reason, "deviation");
    assert_eq!(ev.amount_slashed, 250);
    let s = m.node("alpha").unwrap();
    assert_eq!(s.stake, 750);
    assert_eq!(s.slashes, 1);
    assert_eq!(s.reputation, 7_000);
}

#[test]
fn slash_rounds_penalty_down() {
    let mut m = manager_with(&[("alpha", 333)]);
    let ev = m.slash_node("alpha", 1, "r", 1_000).unwrap();
    assert_eq!(ev.amount_slashed, 33);
    assert_eq!(m.node("alpha").unwrap().stake, 300);
}

#[test]
fn slash_conserves_stake() {
    for (stake, bps) in [(1_000u64, 0u64), (1_000, BPS_SCALE), (12_345, 3_333), (u64::MAX, 9_999)] {
        let mut m = StakingManager::new(0);
        m.register_node("n", stake).unwrap();
        let ev = m.slash_node("n", 0, "r", bps).unwrap();
        let left = m.node("n").unwrap().stake;
        assert!(ev.amount_slashed <= stake as i128);
        assert_eq!(left + ev.amount_slashed, stake as i128);
    }
}

#[test]
fn slash_of_unknown_node_gives_none() {
    let mut m = manager_with(&[("alpha", 1_000)]);
    assert!(m.slash_node("ghost", 1, "r", 100).is_none());
    assert!(m.slash_node("ghost", 1, "r", 20_000).is_none());
    assert_eq!(m.node("alpha").unwrap().stake, 1_000);
}

#[test]
fn repeated_slashing_floors_reputation_at_zero() {
    let mut m = manager_with(&[("alpha", 1_000)]);
    for _ in 0..4 {
        m.slash_node("alpha", 1, "r", 0).unwrap();
    }
    let s = m.node("alpha").unwrap();
    assert_eq!(s.reputation, 0);
    assert_eq!(s.slashes, 4);
}

#[test]
fn reputation_moves_with_evidence() {
    let mut m = manager_with(&[("alpha", 1_000)]);
    let mut rep = m.node("alpha").unwrap().reputation;
    for (i, consistent) in [false, true, false, false, true, true, true].iter().enumerate() {
        m.update_performance("alpha", *consistent, i as u64);
        let now = m.node("alpha").unwrap().reputation;
        if *consistent {
            assert!(now >= rep);
        } else {
            assert!(now <= rep);
        }
        assert!(now <= REPUTATION_MAX);
        rep = now;
    }
}

#[test]
fn rewards_split_by_stake_and_reputation() {
    let m = manager_with(&[("alpha", 100), ("beta", 300)]);
    assert!(m.rewards_fit(1_000));
    let r = m.calculate_rewards(1_000);
    assert_eq!(r, vec![("alpha".to_string(), 250), ("beta".to_string(), 750)]);
}

#[test]
fn rewards_weigh_reputation() {
    let mut m = manager_with(&[("alpha", 100), ("beta", 100)]);
    m.update_performance("beta", false, 1);
    let r = m.calculate_rewards(1_900);
    // weights 100 * 10000 and 100 * 9000
    assert_eq!(r[0], ("alpha".to_string(), 1_000));
    assert_eq!(r[1], ("beta".to_string(), 900));
}

#[test]
fn rewards_hand_out_the_whole_pool() {
    let m = manager_with(&[("a", 100), ("b", 100), ("c", 100)]);
    let r = m.calculate_rewards(100);
    // shares of 33 1/3 each: the one unit left goes to the first of the equal remainders
    assert_eq!(r.iter().map(|(_, x)| *x).collect::<Vec<_>>(), vec![34, 33, 33]);
    let total: i128 = r.iter().map(|(_, x)| *x).sum();
    assert_eq!(total, 100);
}

#[test]
fn rewards_leftover_goes_to_largest_remainders() {
    // weights in the ratio 1 : 2 : 3; pool 10: exact shares 1 2/3, 3 1/3, 5
    let m = manager_with(&[("a", 100), ("b", 200), ("c", 300)]);
    let r = m.calculate_rewards(10);
    assert_eq!(r.iter().map(|(_, x)| *x).collect::<Vec<_>>(), vec![2, 3, 5]);
}

#[test]
fn rewards_stay_within_one_unit_of_exact_share() {
    let mut m = manager_with(&[("a", 101), ("b", 250), ("c", 977), ("d", 103)]);
    m.update_performance("c", false, 1);
    let pool = 12_345u64;
    let r = m.calculate_rewards(pool);
    let weights: Vec<i128> = ["a", "b", "c", "d"]
        .iter()
        .map(|id| {
            let s = m.node(id).unwrap();
            s.stake * s.reputation as i128
        })
        .collect();
    let total: i128 = weights.iter().sum();
    for (i, (_, part)) in r.iter().enumerate() {
        let exact = weights[i] * pool as i128;
        let p = *part;
        assert!(p * total <= exact + total);
        assert!(exact < (p + 1) * total);
    }
    assert_eq!(r.iter().map(|(_, x)| *x).sum::<i128>(), pool as i128);
}

#[test]
fn rewards_without_weight_are_empty() {
    let mut m = manager_with(&[("alpha", 100)]);
    for _ in 0..4 {
        m.slash_node("alpha", 1, "r", 0).unwrap();
    }
    assert!(m.calculate_rewards(1_000).is_empty());
    assert!(StakingManager::new(0).calculate_rewards(1_000).is_empty());
}

#[test]
fn rewards_zero_weight_node_gets_nothing() {
    let mut m = manager_with(&[("alpha", 100), ("beta", 100)]);
    for _ in 0..4 {
        m.slash_node("beta", 1, "r", 0).unwrap();
    }
    let r = m.calculate_rewards(500);
    assert_eq!(r, vec![("alpha".to_string(), 500), ("beta".to_string(), 0)]);
}

#[test]
fn rewards_fit_for_large_stakes() {
    let mut m = StakingManager::new(0);
    m.register_node("whale", u64::MAX).unwrap();
    m.register_node("orca", u64::MAX).unwrap();
    assert!(m.rewards_fit(u64::MAX));
    let r = m.calculate_rewards(u64::MAX);
    assert_eq!(r[0].1, (u64::MAX / 2 + 1) as i128);
    assert_eq!(r[1].1, (u64::MAX / 2) as i128);
}

#[test]
fn slash_above_whole_stake_leaves_negative_stake() {
    let mut m = manager_with(&[("alpha", 1_000), ("beta", 1_000)]);
    let ev = m.slash_node("alpha", 3, "r", 15_000).unwrap();
    assert_eq!(ev.amount_slashed, 1_500);
    let s = m.node("alpha").unwrap();
    assert_eq!(s.stake, -500);
    assert_eq!(s.slashes, 1);
    assert_eq!(s.reputation, 7_000);
    // a negative stake loses a negative penalty
    let ev = m.slash_node("alpha", 4, "r", 2_000).unwrap();
    assert_eq!(ev.amount_slashed, -100);
    assert_eq!(m.node("alpha").unwrap().stake, -400);
    // a negative stake weighs against its node in the reward split
    // weights -400 * 4000 and 1000 * 10000: total 8 400 000
    let r = m.calculate_rewards(840);
    assert_eq!(r, vec![("alpha".to_string(), -160), ("beta".to_string(), 1_000)]);
}

#[test]
fn rewards_not_computed_without_positive_weight() {
    let mut m = manager_with(&[("alpha", 1_000), ("beta", 100)]);
    m.slash_node("alpha", 1, "r", 30_000).unwrap();
    // alpha: -2000 * 7000, beta: 100 * 10000; total below zero
    assert!(m.rewards_fit(1_000));
    assert!(m.calculate_rewards(1_000).is_empty());
}

#[test]
fn heavier_node_never_gets_less() {
    let m = manager_with(&[("a", 100), ("b", 250), ("c", 251), ("d", 1_000)]);
    let r = m.calculate_rewards(9_999);
    for w in r.windows(2) {
        assert!(w[0].1 <= w[1].1);
    }
}

#[test]
fn distribute_credits_known_nodes_only() {
    let mut m = manager_with(&[("alpha", 100), ("beta", 300)]);
    m.distribute_rewards(vec![
        ("beta".to_string(), 50),
        ("ghost".to_string(), 1_000),
        ("alpha".to_string(), 7),
    ]);
    assert_eq!(m.len(), 2);
    assert_eq!(m.node("alpha").unwrap().stake, 107);
    assert_eq!(m.node("beta").unwrap().stake, 350);
    assert!(m.node("ghost").is_none());
}

#[test]
fn distribute_saturates_at_maximum() {
    let mut m = StakingManager::new(0);
    m.register_node("whale", u64::MAX - 5).unwrap();
    m.register_node("minnow", 100).unwrap();
    m.distribute_rewards(vec![("minnow".to_string(), i128::MAX)]);
    assert_eq!(m.node("minnow").unwrap().stake, i128::MAX);
    m.distribute_rewards(vec![("minnow".to_string(), i128::MIN)]);
    assert_eq!(m.node("minnow").unwrap().stake, -1);
    m.distribute_rewards(vec![("whale".to_string(), 10)]);
    assert_eq!(m.node("whale").unwrap().stake, u64::MAX as i128 + 5);
}

#[test]
fn distribute_keeps_everything_but_stakes() {
    let mut m = manager_with(&[("alpha", 100), ("beta", 300)]);
    m.update_performance("alpha", false, 1);
    let before = m.node("alpha").unwrap();
    m.distribute_rewards(vec![("alpha".to_string(), 1)]);
    let after = m.node("alpha").unwrap();
    assert_eq!(after.reputation, before.reputation);
    assert_eq!(after.successful_contributions, before.successful_contributions);
    assert_eq!(after.slashes, before.slashes);
    assert_eq!(after.last_seen, before.last_seen);
    assert_eq!(after.stake, before.stake + 1);
}

#[test]
fn distributing_calculated_rewards_adds_the_pool() {
    let ids = ["a", "b", "c", "d"];
    let mut m = manager_with(&[("a", 101), ("b", 250), ("c", 977), ("d", 103)]);
    m.update_performance("c", false, 1);
    let before: Vec<i128> = ids.iter().map(|id| m.node(id).unwrap().stake).collect();
    let total_before = total_stake(&m, &ids);
    let pool = 12_345u64;
    let r = m.calculate_rewards(pool);
    m.distribute_rewards(r.clone());
    for (i, id) in ids.iter().enumerate() {
        assert_eq!(m.node(id).unwrap().stake, before[i] + r[i].1);
    }
    assert_eq!(total_stake(&m, &ids), total_before + pool as i128);
}

#[test]
fn equal_weights_differ_by_at_most_one_unit() {
    let m = manager_with(&[("a", 500), ("b", 500), ("c", 500), ("d", 500)]);
    let r = m.calculate_rewards(7);
    assert_eq!(r.iter().map(|(_, x)| *x).collect::<Vec<_>>(), vec![2, 2, 2, 1]);
}

#[test]
fn latency_has_no_effect_on_reports() {
    let t0 = vnode::UtcTime { secs: 100, nanos: 0 };
    let t1 = vnode::UtcTime { secs: 200, nanos: 0 };
    let mut a = StakingManager::new(1);
    let mut b = StakingManager::new(1);
    a.register_node_at("n", 50, t0).unwrap();
    b.register_node_at("n", 50, t0).unwrap();
    for (consistent, la, lb) in [(false, 1u64, 9_999u64), (true, 0, u64::MAX), (false, 7, 8)] {
        a.update_performance_at("n", consistent, la, t1);
        b.update_performance_at("n", consistent, lb, t1);
    }
    let (sa, sb) = (a.node("n").unwrap(), b.node("n").unwrap());
    assert_eq!(sa.reputation, sb.reputation);
    assert_eq!(sa.successful_contributions, sb.successful_contributions);
    assert_eq!(sa.stake, sb.stake);
    assert_eq!(sa.last_seen, sb.last_seen);
}

#[test]
fn slash_range_check() {
    assert!(slash_within_range(1_000, 15_000));
    assert!(slash_within_range(u64::MAX as i128, u64::MAX));
    assert!(slash_within_range(i128::MIN, 0));
    assert!(!slash_within_range(i128::MIN, 10_000));
    assert!(!slash_within_range(i128::MAX, 20_000));
}

#[test]
fn rewards_fit_detects_oversized_weight() {
    let mut m = StakingManager::new(0);
    m.register_node("big", 1).unwrap();
    m.distribute_rewards(vec![("big".to_string(), i128::MAX - 1)]);
    assert!(!m.rewards_fit(10));
    assert!(StakingManager::new(0).rewards_fit(10));
}
