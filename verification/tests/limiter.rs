use transmuter::asset_group::AssetGroups;
use transmuter::error::ContractError;
use transmuter::limiter::{Division, Limiter, Limiters};
use transmuter::math::{Decimal, DECIMAL_ONE};
use transmuter::scope::{group_balance_of, limiter_batch_of, Scope};
use transmuter::transmuter::Transmuter;
use transmuter::transmuter_pool::{Coin, TransmuterPool};

fn percent(p: u128) -> Decimal {
    Decimal::raw(p * DECIMAL_ONE / 100)
}

fn coin(amount: u128, denom: &str) -> Coin {
    Coin::new(amount, denom.to_string())
}

fn pool_of(balances: &[(&str, u128)], alloyed: &str) -> TransmuterPool {
    let denoms = balances.iter().map(|b| b.0.to_string()).collect();
    let mut pool = TransmuterPool::new(denoms, alloyed.to_string()).unwrap();
    for (denom, amount) in balances {
        pool.supply(&vec![coin(*amount, denom)]).unwrap();
    }
    pool
}

fn division(started_at: u64, p: u128) -> Division {
    Division {
        started_at,
        max_value: percent(p).atomics,
    }
}

#[test]
fn limiter_needs_divisions_that_last() {
    assert!(Limiter::new(100, 0, percent(10)).is_none());
    assert!(Limiter::new(3, 4, percent(10)).is_none());
    let limiter = Limiter::new(100, 4, percent(10)).unwrap();
    assert_eq!(limiter.window_size(), 100);
    assert_eq!(limiter.divisions(), 4);
    assert_eq!(limiter.boundary_offset(), percent(10));
    assert!(limiter.observed().is_empty());
    assert!(Limiter::new(1, 1, Decimal::zero()).is_some());
}

#[test]
fn first_weight_is_admitted_and_seeds_the_window() {
    let mut limiter = Limiter::new(100, 4, percent(10)).unwrap();
    assert_eq!(limiter.previous(1000), None);
    assert_eq!(limiter.violation(1000, percent(90)), None);
    limiter.observe(1000, percent(90));
    assert_eq!(limiter.observed(), &[division(1000, 90)]);
    assert_eq!(limiter.previous(1000), Some(percent(90)));
}

#[test]
fn weight_is_bounded_by_the_largest_in_the_window() {
    let mut limiter = Limiter::new(100, 4, percent(10)).unwrap();
    limiter.observe(1000, percent(50));
    assert_eq!(limiter.violation(1001, percent(60)), None);
    assert_eq!(limiter.violation(1001, percent(40)), None);
    assert_eq!(
        limiter.violation(1001, Decimal::raw(percent(60).atomics + 1)),
        Some(percent(50))
    );
    assert_eq!(
        limiter.violation(1001, Decimal::raw(percent(40).atomics - 1)),
        Some(percent(50))
    );
    limiter.observe(1001, percent(45));
    assert_eq!(limiter.previous(1002), Some(percent(50)));
    assert_eq!(limiter.violation(1002, percent(39)), Some(percent(50)));
}

#[test]
fn zero_weight_is_always_admitted() {
    let mut limiter = Limiter::new(100, 4, percent(10)).unwrap();
    limiter.observe(1000, percent(50));
    assert_eq!(limiter.violation(1001, Decimal::zero()), None);
    let mut empty = Limiter::new(100, 4, percent(10)).unwrap();
    empty.observe(1000, Decimal::zero());
    assert_eq!(empty.previous(1001), Some(Decimal::zero()));
    assert_eq!(empty.violation(1001, percent(100)), None);
}

#[test]
fn divisions_merge_start_and_expire() {
    let mut limiter = Limiter::new(100, 4, percent(10)).unwrap();
    limiter.observe(1000, percent(50));
    limiter.observe(1024, percent(55));
    assert_eq!(limiter.observed(), &[division(1000, 55)]);
    limiter.observe(1010, percent(51));
    assert_eq!(limiter.observed(), &[division(1000, 55)]);
    limiter.observe(1025, percent(52));
    assert_eq!(
        limiter.observed(),
        &[division(1000, 55), division(1025, 52)]
    );
    assert_eq!(limiter.previous(1124), Some(percent(55)));
    assert_eq!(limiter.previous(1125), Some(percent(52)));
    assert_eq!(limiter.previous(1149), Some(percent(52)));
    assert_eq!(limiter.previous(1150), None);
    limiter.observe(1125, percent(53));
    assert_eq!(
        limiter.observed(),
        &[division(1025, 52), division(1125, 53)]
    );
    limiter.observe(u64::MAX, percent(1));
    assert_eq!(limiter.observed(), &[division(u64::MAX, 1)]);
    assert_eq!(limiter.previous(u64::MAX), Some(percent(1)));
}

#[test]
fn window_keeps_a_bounded_number_of_divisions() {
    let mut limiter = Limiter::new(100, 4, percent(100)).unwrap();
    let mut now = 0u64;
    let mut most = 0;
    for step in 0..400u64 {
        now += 1 + step % 7;
        limiter.observe(now, percent((step % 50) as u128));
        most = most.max(limiter.observed().len());
    }
    assert_eq!(most, 5);
    limiter.observe(10, percent(3));
    assert!(limiter.observed().len() <= 5);
    let mut fine = Limiter::new(7, 4, percent(100)).unwrap();
    for now in 0..50u64 {
        fine.observe(now, percent(1));
        assert!(fine.observed().len() <= 8);
    }
    assert_eq!(fine.observed().len(), 8);
}

#[test]
fn limiter_is_restored_from_its_parts() {
    let parts = vec![division(1000, 50), division(1025, 40), division(1124, 45)];
    let limiter = Limiter::from_parts(100, 4, percent(10), parts.clone()).unwrap();
    assert_eq!(limiter.observed(), &parts[..]);
    assert_eq!(limiter.previous(1124), Some(percent(50)));
    assert_eq!(limiter.previous(1125), Some(percent(45)));
    assert!(Limiter::from_parts(100, 4, percent(10), Vec::new()).is_some());
    assert!(Limiter::from_parts(100, 0, percent(10), Vec::new()).is_none());
    assert!(Limiter::from_parts(3, 4, percent(10), Vec::new()).is_none());
    let overlapping = vec![division(1000, 50), division(1024, 40)];
    assert!(Limiter::from_parts(100, 4, percent(10), overlapping).is_none());
    let unordered = vec![division(1025, 50), division(1000, 40)];
    assert!(Limiter::from_parts(100, 4, percent(10), unordered).is_none());
    let too_far = vec![division(1000, 50), division(1125, 40)];
    assert!(Limiter::from_parts(100, 4, percent(10), too_far).is_none());
    let at_the_end = vec![division(u64::MAX - 25, 50), division(u64::MAX, 40)];
    assert!(Limiter::from_parts(100, 4, percent(10), at_the_end).is_some());
}

fn limiters_of(keys: &[(&str, u128)]) -> Limiters {
    let mut limiters = Limiters::new();
    for (key, bound) in keys {
        limiters.set_limiter(
            key.to_string(),
            Limiter::new(100, 4, percent(*bound)).unwrap(),
        );
    }
    limiters
}

#[test]
fn batch_is_recorded_as_a_whole() {
    let mut limiters = limiters_of(&[("a", 10), ("b", 10)]);
    let first = vec![("a".to_string(), percent(50)), ("b".to_string(), percent(50))];
    assert_eq!(limiters.check_limits_and_update(&first, 1000), Ok(()));
    assert_eq!(limiters.previous("a", 1001), Some(percent(50)));
    assert_eq!(limiters.previous("b", 1001), Some(percent(50)));
}

#[test]
fn rejected_batch_leaves_every_window_as_it_was() {
    let mut limiters = limiters_of(&[("a", 10), ("b", 10)]);
    let first = vec![("a".to_string(), percent(50)), ("b".to_string(), percent(50))];
    limiters.check_limits_and_update(&first, 1000).unwrap();
    let before = limiters.clone();
    let batch = vec![("a".to_string(), percent(55)), ("b".to_string(), percent(70))];
    assert_eq!(
        limiters.check_limits_and_update(&batch, 1030),
        Err(ContractError::RateLimitExceeded {
            key: "b".to_string(),
            previous: percent(50).atomics,
            attempted: percent(70).atomics,
            bound: percent(10).atomics,
        })
    );
    assert_eq!(limiters, before);
    assert_eq!(limiters.previous("a", 1030), Some(percent(50)));
    let follow_up = vec![("a".to_string(), percent(40))];
    assert_eq!(limiters.check_limits_and_update(&follow_up, 1030), Ok(()));
}

#[test]
fn first_rejected_pair_is_reported() {
    let mut limiters = limiters_of(&[("a", 10), ("b", 5)]);
    let first = vec![("a".to_string(), percent(50)), ("b".to_string(), percent(50))];
    limiters.check_limits_and_update(&first, 1000).unwrap();
    let batch = vec![
        ("x".to_string(), percent(99)),
        ("b".to_string(), percent(60)),
        ("a".to_string(), percent(90)),
    ];
    assert_eq!(
        limiters.check_limits_and_update(&batch, 1001),
        Err(ContractError::RateLimitExceeded {
            key: "b".to_string(),
            previous: percent(50).atomics,
            attempted: percent(60).atomics,
            bound: percent(5).atomics,
        })
    );
}

#[test]
fn untracked_key_is_passed_over() {
    let mut limiters = limiters_of(&[("a", 10)]);
    let before = limiters.clone();
    let batch = vec![("b".to_string(), percent(100))];
    assert_eq!(limiters.check_limits_and_update(&batch, 1000), Ok(()));
    assert_eq!(limiters.check_limits_and_update(&batch, 1001), Ok(()));
    assert_eq!(limiters, before);
    assert!(limiters.is_tracked("a"));
    assert!(!limiters.is_tracked("b"));
    assert_eq!(limiters.previous("b", 1001), None);
    assert!(limiters.remove_limiter("a"));
    assert!(!limiters.remove_limiter("a"));
    assert!(!limiters.is_tracked("a"));
}

#[test]
fn set_limiter_replaces_the_window() {
    let mut limiters = limiters_of(&[("a", 10)]);
    let first = vec![("a".to_string(), percent(50))];
    limiters.check_limits_and_update(&first, 1000).unwrap();
    limiters.set_limiter("a".to_string(), Limiter::new(10, 2, percent(1)).unwrap());
    assert_eq!(limiters.previous("a", 1000), None);
    let far = vec![("a".to_string(), percent(99))];
    assert_eq!(limiters.check_limits_and_update(&far, 1000), Ok(()));
}

#[test]
fn scope_keys_tell_denoms_from_groups() {
    assert_eq!(Scope::Denom("uusdc".to_string()).key(), "denom::uusdc");
    assert_eq!(
        Scope::AssetGroup("uusdc".to_string()).key(),
        "asset_group::uusdc"
    );
    assert_eq!(Scope::Denom(String::new()).key(), "denom::");
}

#[test]
fn batch_lists_assets_then_groups() {
    let before = pool_of(&[("a", 100), ("b", 100), ("c", 200)], "s");
    let mut after = before.clone();
    after.credit("a", 100).unwrap();
    after.debit("b", 100).unwrap();
    let mut groups = AssetGroups::new();
    groups
        .create_asset_group(
            "g2".to_string(),
            vec!["c".to_string(), "b".to_string(), "c".to_string()],
        )
        .unwrap();
    groups
        .create_asset_group("g1".to_string(), vec!["a".to_string(), "zz".to_string()])
        .unwrap();
    assert_eq!(group_balance_of(&after, groups.group_at(1)), Some(200));
    assert_eq!(group_balance_of(&before, groups.group_at(1)), Some(300));
    assert_eq!(
        limiter_batch_of(&before, &after, &groups),
        Ok(Some(vec![
            ("denom::a".to_string(), percent(50)),
            ("denom::b".to_string(), Decimal::zero()),
            ("denom::c".to_string(), percent(50)),
            ("asset_group::g1".to_string(), percent(50)),
            ("asset_group::g2".to_string(), percent(50)),
        ]))
    );
    let empty = pool_of(&[("a", 0), ("b", 0), ("c", 0)], "s");
    assert_eq!(limiter_batch_of(&before, &empty, &groups), Ok(None));
}

#[test]
fn corrupted_asset_leaves_without_the_limiter() {
    let before = pool_of(&[("a", 100), ("b", 100)], "s");
    let mut after = before.clone();
    after.mark_corrupted_asset("b").unwrap();
    let mut marked_before = before.clone();
    marked_before.mark_corrupted_asset("b").unwrap();
    after.debit("b", 100).unwrap();
    let mut groups = AssetGroups::new();
    groups
        .create_asset_group("g".to_string(), vec!["b".to_string()])
        .unwrap();
    groups.mark_corrupted_asset_group("g").unwrap();
    assert_eq!(
        limiter_batch_of(&marked_before, &after, &groups),
        Ok(Some(vec![("denom::a".to_string(), percent(100))]))
    );
    assert_eq!(
        limiter_batch_of(&after, &marked_before, &groups),
        Ok(Some(vec![
            ("denom::a".to_string(), percent(50)),
            ("denom::b".to_string(), percent(50)),
            ("asset_group::g".to_string(), percent(50)),
        ]))
    );
}

fn limited_transmuter() -> Transmuter {
    let mut transmuter = Transmuter::new(pool_of(&[("a", 1000), ("b", 1000)], "s"));
    for key in ["denom::a", "denom::b"] {
        transmuter.limiters.set_limiter(
            key.to_string(),
            Limiter::new(3600, 6, percent(10)).unwrap(),
        );
    }
    transmuter
        .swap_exact_amount_in("user", coin(0, "a"), "b", 0, Decimal::zero(), 100)
        .unwrap();
    transmuter
}

#[test]
fn swap_beyond_the_bound_is_rejected_whole() {
    let mut transmuter = limited_transmuter();
    let before = transmuter.clone();
    assert_eq!(
        transmuter.swap_exact_amount_in("user", coin(201, "a"), "b", 0, Decimal::zero(), 200),
        Err(ContractError::RateLimitExceeded {
            key: "denom::a".to_string(),
            previous: percent(50).atomics,
            attempted: 600_500_000_000_000_000,
            bound: percent(10).atomics,
        })
    );
    assert_eq!(transmuter, before);
    assert!(transmuter
        .swap_exact_amount_in("user", coin(200, "a"), "b", 0, Decimal::zero(), 200)
        .is_ok());
    assert_eq!(
        transmuter.limiters.previous("denom::a", 200),
        Some(percent(60))
    );
    assert_ne!(transmuter, before);
}

#[test]
fn corrupted_asset_can_be_swapped_out_in_full() {
    let mut transmuter = limited_transmuter();
    transmuter.pool.mark_corrupted_asset("b").unwrap();
    transmuter.limiters.remove_limiter("denom::a");
    assert!(transmuter
        .swap_exact_amount_out("user", "s", 1000, coin(1000, "b"), Decimal::zero(), 200)
        .is_ok());
    assert_eq!(transmuter.limiters.previous("denom::b", 200), Some(percent(50)));
    assert_eq!(
        transmuter.swap_exact_amount_in("user", coin(500, "b"), "s", 0, Decimal::zero(), 300),
        Err(ContractError::RateLimitExceeded {
            key: "denom::b".to_string(),
            previous: percent(50).atomics,
            attempted: 333_333_333_333_333_333,
            bound: percent(10).atomics,
        })
    );
}
