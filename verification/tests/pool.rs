use transmuter::corruptable::Corruptable;
use transmuter::error::ContractError;
use transmuter::math::{fee_on, weight, Decimal, DECIMAL_ONE};
use transmuter::swap::{calc_in_given_out, calc_out_given_in};
use transmuter::transmuter::{Msg, Route, Transmuter};
use transmuter::transmuter_pool::{Coin, PooledAsset, TransmuterPool};

fn coin(amount: u128, denom: &str) -> Coin {
    Coin::new(amount, denom.to_string())
}

fn pool_of(balances: &[(&str, u128)], alloyed: &str) -> TransmuterPool {
    let denoms = balances.iter().map(|b| b.0.to_string()).collect();
    let mut pool = TransmuterPool::new(denoms, alloyed.to_string()).unwrap();
    for (denom, amount) in balances {
        pool.supply(&vec![coin(*amount, denom)]).unwrap();
    }
    pool
}

fn balances(pool: &TransmuterPool) -> Vec<(String, u128)> {
    pool.pool_assets()
        .into_iter()
        .map(|c| (c.denom, c.amount))
        .collect()
}

fn percent(p: u128) -> Decimal {
    Decimal::raw(p * DECIMAL_ONE / 100)
}

#[test]
fn weight_is_the_share_rounded_down() {
    assert_eq!(weight(1, 3), Some(Decimal::raw(333_333_333_333_333_333)));
    assert_eq!(weight(2, 3), Some(Decimal::raw(666_666_666_666_666_666)));
    assert_eq!(weight(3, 3), Some(Decimal::one()));
    assert_eq!(weight(0, 3), Some(Decimal::zero()));
    assert_eq!(weight(u128::MAX, u128::MAX), Some(Decimal::one()));
    assert_eq!(weight(1, 0), None);
    assert_eq!(weight(u128::MAX, 1), None);
    assert_eq!(Decimal::one().atomics(), 1_000_000_000_000_000_000);
}

#[test]
fn fee_rounds_up() {
    assert_eq!(fee_on(1000, Decimal::raw(3_000_000_000_000_000)), Some(3));
    assert_eq!(fee_on(1001, Decimal::raw(3_000_000_000_000_000)), Some(4));
    assert_eq!(fee_on(1, Decimal::raw(1)), Some(1));
    assert_eq!(fee_on(0, Decimal::one()), Some(0));
    assert_eq!(fee_on(777, Decimal::zero()), Some(0));
    assert_eq!(fee_on(777, Decimal::one()), Some(777));
    assert_eq!(fee_on(u128::MAX, Decimal::one()), Some(u128::MAX));
    assert_eq!(fee_on(u128::MAX, Decimal::raw(DECIMAL_ONE + 1)), None);
}

#[test]
fn new_pool_is_empty_and_ordered() {
    let pool = TransmuterPool::new(
        vec!["whusdc".to_string(), "axlusdc".to_string()],
        "uusdc".to_string(),
    )
    .unwrap();
    assert_eq!(
        balances(&pool),
        vec![("axlusdc".to_string(), 0), ("whusdc".to_string(), 0)]
    );
    assert_eq!(pool.alloyed_denom(), "uusdc");
    assert_eq!(pool.total(), Some(0));
    assert_eq!(pool.len(), 2);
    assert_eq!(pool.denom_at(1), "whusdc");
    assert!(pool.has_denom("axlusdc"));
    assert!(!pool.has_denom("uusdc"));
    assert_eq!(pool.asset("nope"), None);
}

#[test]
fn new_pool_refuses_duplicates_and_the_alloyed_denom() {
    let twice = TransmuterPool::new(
        vec!["a".to_string(), "b".to_string(), "a".to_string()],
        "s".to_string(),
    );
    assert_eq!(
        twice,
        Err(ContractError::DuplicatedPoolAssetDenom {
            denom: "a".to_string()
        })
    );
    let alloyed = TransmuterPool::new(vec!["a".to_string(), "s".to_string()], "s".to_string());
    assert_eq!(
        alloyed,
        Err(ContractError::DuplicatedPoolAssetDenom {
            denom: "s".to_string()
        })
    );
}

#[test]
fn weights_absent_for_an_empty_pool() {
    let pool = pool_of(&[("a", 0), ("b", 0)], "s");
    assert_eq!(pool.weights(), Ok(None));
}

#[test]
fn weights_are_shares_of_the_total() {
    let pool = pool_of(&[("a", 1), ("b", 2), ("c", 0)], "s");
    assert_eq!(
        pool.weights(),
        Ok(Some(vec![
            ("a".to_string(), Decimal::raw(333_333_333_333_333_333)),
            ("b".to_string(), Decimal::raw(666_666_666_666_666_666)),
            ("c".to_string(), Decimal::zero()),
        ]))
    );
    let even = pool_of(&[("a", 1_000_000), ("b", 1_000_000)], "s");
    assert_eq!(
        even.weights(),
        Ok(Some(vec![
            ("a".to_string(), percent(50)),
            ("b".to_string(), percent(50)),
        ]))
    );
}

#[test]
fn supply_takes_exactly_one_known_coin() {
    let mut pool = pool_of(&[("a", 10), ("b", 20)], "s");
    let before = pool.clone();
    let one_denom = ContractError::Std {
        msg: "supply requires funds to have exactly one denom".to_string(),
    };
    assert_eq!(pool.supply(&vec![]), Err(one_denom.clone()));
    assert_eq!(
        pool.supply(&vec![coin(1, "a"), coin(1, "b")]),
        Err(one_denom)
    );
    assert_eq!(
        pool.supply(&vec![coin(1, "x")]),
        Err(ContractError::InvalidPoolAssetDenom {
            denom: "x".to_string()
        })
    );
    assert_eq!(
        pool.supply(&vec![coin(u128::MAX - 9, "a")]),
        Err(ContractError::AmountOverflow)
    );
    assert_eq!(pool, before);
    assert_eq!(pool.supply(&vec![coin(u128::MAX - 30, "a")]), Ok(()));
    assert_eq!(pool.total(), Some(u128::MAX));
    assert_eq!(
        pool.asset("a"),
        Some(PooledAsset {
            balance: u128::MAX - 20,
            is_corrupted: false
        })
    );
    assert_eq!(pool.asset("b").unwrap().balance, 20);
    assert_eq!(pool.supply(&vec![coin(20, "a")]), Ok(()));
    assert_eq!(pool.asset("a").unwrap().balance, u128::MAX);
    assert_eq!(pool.total(), None);
    assert_eq!(pool.weights(), Err(ContractError::AmountOverflow));
}

#[test]
fn debit_needs_the_balance() {
    let mut pool = pool_of(&[("a", 10), ("b", 20)], "s");
    assert_eq!(
        pool.debit("a", 11),
        Err(ContractError::InsufficientPoolAsset {
            denom: "a".to_string(),
            required: 11,
            available: 10
        })
    );
    assert_eq!(
        pool.debit("s", 1),
        Err(ContractError::InvalidPoolAssetDenom {
            denom: "s".to_string()
        })
    );
    assert_eq!(pool.debit("a", 10), Ok(()));
    assert_eq!(pool.credit("b", 5), Ok(()));
    assert_eq!(
        balances(&pool),
        vec![("a".to_string(), 0), ("b".to_string(), 25)]
    );
}

#[test]
fn transmute_exchanges_for_the_counterpart() {
    let mut pool = pool_of(&[("in", 0), ("out", 100)], "s");
    assert_eq!(pool.transmute(&vec![coin(40, "in")]), Ok(coin(40, "out")));
    assert_eq!(
        balances(&pool),
        vec![("in".to_string(), 40), ("out".to_string(), 60)]
    );
    assert_eq!(pool.total(), Some(100));
    assert_eq!(
        pool.transmute(&vec![coin(61, "in")]),
        Err(ContractError::InsufficientPoolAsset {
            denom: "out".to_string(),
            required: 61,
            available: 60
        })
    );
    assert_eq!(
        pool.transmute(&vec![coin(1, "other")]),
        Err(ContractError::InvalidPoolAssetDenom {
            denom: "other".to_string()
        })
    );
    assert_eq!(
        pool.transmute(&vec![coin(1, "in"), coin(1, "out")]),
        Err(ContractError::SingleCoinExpected)
    );
    assert_eq!(pool.transmute(&vec![coin(40, "out")]), Ok(coin(40, "in")));
    let mut full = pool_of(&[("in", u128::MAX - 5), ("out", 100)], "s");
    let before = full.clone();
    assert_eq!(
        full.transmute(&vec![coin(6, "in")]),
        Err(ContractError::AmountOverflow)
    );
    assert_eq!(full, before);
    assert_eq!(full.transmute(&vec![coin(5, "in")]), Ok(coin(5, "out")));
    let mut three = pool_of(&[("a", 1), ("b", 1), ("c", 1)], "s");
    assert_eq!(
        three.transmute(&vec![coin(1, "a")]),
        Err(ContractError::NotTwoAssetPool { assets: 3 })
    );
}

#[test]
fn transmuter_transmute_sends_the_counterpart() {
    let mut transmuter = Transmuter::new(pool_of(&[("in", 0), ("out", 100)], "s"));
    let res = transmuter.transmute("user", &vec![coin(30, "in")]).unwrap();
    assert_eq!(res.method, "transmute");
    assert_eq!(
        res.messages,
        vec![Msg::Send {
            to_address: "user".to_string(),
            amount: coin(30, "out")
        }]
    );
    let res = transmuter.supply(&vec![coin(5, "out")]).unwrap();
    assert_eq!(res.method, "supply");
    assert!(res.messages.is_empty());
    assert_eq!(transmuter.pool.total(), Some(105));
    let before = transmuter.clone();
    assert_eq!(
        transmuter.supply(&vec![]),
        Err(ContractError::Std {
            msg: "supply requires funds to have exactly one denom".to_string()
        })
    );
    assert_eq!(
        transmuter.transmute("user", &vec![]),
        Err(ContractError::SingleCoinExpected)
    );
    assert_eq!(transmuter, before);
}

#[test]
fn calc_out_given_in_at_zero_fee_is_parity() {
    let pool = pool_of(&[("a", 1_000_000), ("b", 1_000_000)], "c");
    let (after, out) = calc_out_given_in(&pool, &coin(500, "a"), "b", Decimal::zero()).unwrap();
    assert_eq!(out, coin(500, "b"));
    assert_eq!(
        balances(&after),
        vec![("a".to_string(), 1_000_500), ("b".to_string(), 999_500)]
    );
    assert_eq!(
        balances(&pool),
        vec![("a".to_string(), 1_000_000), ("b".to_string(), 1_000_000)]
    );
}

#[test]
fn calc_out_given_in_deducts_the_fee_rounded_up() {
    let pool = pool_of(&[("a", 1_000_000), ("b", 1_000_000)], "c");
    let fee = Decimal::raw(3_000_000_000_000_000);
    let (after, out) = calc_out_given_in(&pool, &coin(1001, "a"), "b", fee).unwrap();
    assert_eq!(out, coin(997, "b"));
    assert_eq!(
        balances(&after),
        vec![("a".to_string(), 1_001_001), ("b".to_string(), 999_003)]
    );
    assert_eq!(after.total(), Some(2_000_004));
    let (_, all_fee) = calc_out_given_in(&pool, &coin(1, "a"), "b", Decimal::raw(1)).unwrap();
    assert_eq!(all_fee, coin(0, "b"));
}

#[test]
fn calc_in_given_out_adds_the_fee_rounded_up() {
    let pool = pool_of(&[("a", 1_000_000), ("b", 1_000_000)], "c");
    let fee = Decimal::raw(3_000_000_000_000_000);
    let (after, token_in) = calc_in_given_out(&pool, &coin(1001, "b"), "a", fee).unwrap();
    assert_eq!(token_in, coin(1005, "a"));
    assert_eq!(
        balances(&after),
        vec![("a".to_string(), 1_001_005), ("b".to_string(), 998_999)]
    );
    let (_, parity) = calc_in_given_out(&pool, &coin(1001, "b"), "a", Decimal::zero()).unwrap();
    assert_eq!(parity, coin(1001, "a"));
}

#[test]
fn calc_reports_what_is_wrong() {
    let pool = pool_of(&[("a", 100), ("b", 50)], "c");
    let too_high = Decimal::raw(DECIMAL_ONE + 1);
    assert_eq!(
        calc_out_given_in(&pool, &coin(1, "a"), "b", too_high),
        Err(ContractError::InvalidSwapFee {
            fee: DECIMAL_ONE + 1
        })
    );
    assert_eq!(
        calc_in_given_out(&pool, &coin(1, "b"), "a", too_high),
        Err(ContractError::InvalidSwapFee {
            fee: DECIMAL_ONE + 1
        })
    );
    assert_eq!(
        calc_out_given_in(&pool, &coin(51, "a"), "b", Decimal::zero()),
        Err(ContractError::InsufficientPoolAsset {
            denom: "b".to_string(),
            required: 51,
            available: 50
        })
    );
    assert_eq!(
        calc_out_given_in(&pool, &coin(1, "x"), "b", Decimal::zero()),
        Err(ContractError::InvalidPoolAssetDenom {
            denom: "x".to_string()
        })
    );
    assert_eq!(
        calc_out_given_in(&pool, &coin(1, "a"), "y", Decimal::zero()),
        Err(ContractError::InvalidPoolAssetDenom {
            denom: "y".to_string()
        })
    );
    assert_eq!(
        calc_in_given_out(&pool, &coin(u128::MAX, "b"), "a", Decimal::one()),
        Err(ContractError::AmountOverflow)
    );
    assert_eq!(
        calc_out_given_in(&pool, &coin(u128::MAX, "a"), "b", Decimal::one()),
        Err(ContractError::AmountOverflow)
    );
}

#[test]
fn swap_scenario_of_two_assets() {
    let mut transmuter = Transmuter::new(pool_of(&[("A", 1_000_000), ("B", 1_000_000)], "C"));
    let res = transmuter
        .swap_exact_amount_in("user", coin(500, "A"), "B", 0, Decimal::zero(), 10)
        .unwrap();
    assert_eq!(
        res.messages,
        vec![Msg::Send {
            to_address: "user".to_string(),
            amount: coin(500, "B")
        }]
    );
    assert_eq!(
        balances(&transmuter.pool),
        vec![("A".to_string(), 1_000_500), ("B".to_string(), 999_500)]
    );
    assert_eq!(
        transmuter.swap_exact_amount_in("user", coin(500, "A"), "B", 1000, Decimal::zero(), 10),
        Err(ContractError::InsufficientTokenOut {
            required: 1000,
            available: 500
        })
    );
    assert_eq!(
        transmuter.swap_exact_amount_out("user", "B", 500, coin(1000, "A"), Decimal::zero(), 10),
        Err(ContractError::ExcessiveRequiredTokenIn {
            limit: 500,
            required: 1000
        })
    );
    assert_eq!(
        balances(&transmuter.pool),
        vec![("A".to_string(), 1_000_500), ("B".to_string(), 999_500)]
    );
}

#[test]
fn swap_with_fee_checks_the_amount_after_the_fee() {
    let mut transmuter = Transmuter::new(pool_of(&[("A", 1_000_000), ("B", 1_000_000)], "C"));
    let fee = percent(1);
    assert_eq!(
        transmuter.swap_exact_amount_in("user", coin(1000, "A"), "B", 991, fee, 10),
        Err(ContractError::InsufficientTokenOut {
            required: 991,
            available: 990
        })
    );
    let res = transmuter
        .swap_exact_amount_in("user", coin(1000, "A"), "B", 990, fee, 10)
        .unwrap();
    assert_eq!(
        res.messages,
        vec![Msg::Send {
            to_address: "user".to_string(),
            amount: coin(990, "B")
        }]
    );
    assert_eq!(transmuter.pool.total(), Some(2_000_010));
    assert_eq!(
        transmuter.swap_exact_amount_out("user", "A", 1009, coin(1000, "B"), fee, 10),
        Err(ContractError::ExcessiveRequiredTokenIn {
            limit: 1009,
            required: 1010
        })
    );
    assert!(transmuter
        .swap_exact_amount_out("user", "A", 1010, coin(1000, "B"), fee, 10)
        .is_ok());
    assert_eq!(transmuter.pool.total(), Some(2_000_020));
}

#[test]
fn routes_are_decided_by_the_alloyed_denom() {
    let transmuter = Transmuter::new(pool_of(&[("A", 1), ("B", 1)], "C"));
    assert_eq!(transmuter.route("C", "A"), Route::AlloyedIn);
    assert_eq!(transmuter.route("C", "C"), Route::AlloyedIn);
    assert_eq!(transmuter.route("A", "C"), Route::AlloyedOut);
    assert_eq!(transmuter.route("A", "B"), Route::Assets);
}

#[test]
fn swap_into_an_empty_pool_is_not_limited() {
    let (mut transmuter, res) =
        Transmuter::instantiate(vec!["A".to_string(), "B".to_string()], "C".to_string()).unwrap();
    assert_eq!(res.method, "instantiate");
    assert_eq!(transmuter.pool.weights(), Ok(None));
    let res = transmuter.swap_exact_amount_in("user", coin(0, "A"), "B", 0, Decimal::zero(), 10);
    assert!(res.is_ok());
    assert_eq!(transmuter.pool.weights(), Ok(None));
    let res = transmuter.swap_exact_amount_in("user", coin(0, "C"), "B", 0, Decimal::zero(), 10);
    assert!(res.is_ok());
}

#[test]
fn pooled_asset_can_be_marked() {
    let mut pool = pool_of(&[("a", 10), ("b", 20)], "s");
    assert_eq!(pool.mark_corrupted_asset("a"), Ok(()));
    assert_eq!(pool.mark_corrupted_asset("a"), Ok(()));
    assert!(pool.asset("a").unwrap().is_corrupted());
    assert!(!pool.asset_at(1).is_corrupted());
    assert_eq!(pool.asset("a").unwrap().balance, 10);
    assert_eq!(pool.unmark_corrupted_asset("a"), Ok(()));
    assert!(!pool.asset("a").unwrap().is_corrupted());
    assert_eq!(
        pool.mark_corrupted_asset("x"),
        Err(ContractError::InvalidPoolAssetDenom {
            denom: "x".to_string()
        })
    );
    let mut asset = PooledAsset {
        balance: 3,
        is_corrupted: false,
    };
    asset.mark_as_corrupted().mark_as_corrupted();
    assert!(asset.is_corrupted());
    asset.unmark_as_corrupted();
    assert_eq!(
        asset,
        PooledAsset {
            balance: 3,
            is_corrupted: false
        }
    );
    assert_eq!(pool.snapshot(), pool);
}

#[test]
fn swap_fails_where_the_total_cannot_be_held() {
    let mut transmuter = Transmuter::new(pool_of(&[("A", u128::MAX), ("B", 20)], "C"));
    let before = transmuter.clone();
    assert_eq!(transmuter.pool.total(), None);
    assert_eq!(
        transmuter.swap_exact_amount_in("user", coin(1, "B"), "C", 0, Decimal::zero(), 10),
        Err(ContractError::AmountOverflow)
    );
    assert_eq!(
        transmuter.swap_exact_amount_in("user", coin(5, "B"), "A", 0, Decimal::zero(), 10),
        Err(ContractError::AmountOverflow)
    );
    assert_eq!(transmuter, before);
    assert!(transmuter
        .swap_exact_amount_out("user", "C", 20, coin(20, "B"), Decimal::zero(), 10)
        .is_ok());
    assert_eq!(transmuter.pool.total(), Some(u128::MAX));
}

#[test]
fn swap_of_one_denom_for_itself_leaves_the_balances() {
    let mut transmuter = Transmuter::new(pool_of(&[("A", 1_000), ("B", 1_000)], "C"));
    let res = transmuter
        .swap_exact_amount_in("user", coin(500, "A"), "A", 500, Decimal::zero(), 10)
        .unwrap();
    assert_eq!(
        res.messages,
        vec![Msg::Send {
            to_address: "user".to_string(),
            amount: coin(500, "A")
        }]
    );
    assert_eq!(
        balances(&transmuter.pool),
        vec![("A".to_string(), 1_000), ("B".to_string(), 1_000)]
    );
}
