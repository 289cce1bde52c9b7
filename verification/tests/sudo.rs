use transmuter::error::ContractError;
use transmuter::math::Decimal;
use transmuter::sudo::SudoMsg;
use transmuter::transmuter::{
    Msg, Response, ResponseData, SwapExactAmountInResponseData, SwapExactAmountOutResponseData,
    Transmuter,
};
use transmuter::transmuter_pool::Coin;

fn swap_in_data(amount: u128) -> Option<ResponseData> {
    Some(ResponseData::SwapExactAmountIn(
        SwapExactAmountInResponseData {
            token_out_amount: amount,
        },
    ))
}

fn swap_out_data(amount: u128) -> Option<ResponseData> {
    Some(ResponseData::SwapExactAmountOut(
        SwapExactAmountOutResponseData {
            token_in_amount: amount,
        },
    ))
}

fn joined_pool(user: &str, alloyed_denom: &str) -> Transmuter {
    let (mut transmuter, _) = Transmuter::instantiate(
        vec!["axlusdc".to_string(), "whusdc".to_string()],
        alloyed_denom.to_string(),
    )
    .unwrap();
    for denom in ["axlusdc", "whusdc"] {
        let join = SudoMsg::SwapExactAmountIn {
            sender: user.to_string(),
            token_in: Coin::new(1_000_000_000_000, denom.to_string()),
            token_out_denom: alloyed_denom.to_string(),
            token_out_min_amount: 0,
            swap_fee: Decimal::zero(),
        };
        join.dispatch(&mut transmuter, 0).unwrap();
    }
    transmuter
}

#[test]
fn test_swap_exact_amount_in() {
    let user = "user";
    let alloyed_denom = "uusdc";
    let mut transmuter = joined_pool(user, alloyed_denom);
    let now = 1_571_797_419_879_305_533u64;

    // Test swap exact amount in with only pool assets
    let swap_msg = SudoMsg::SwapExactAmountIn {
        sender: user.to_string(),
        token_in: Coin::new(500, "axlusdc".to_string()),
        token_out_denom: "whusdc".to_string(),
        token_out_min_amount: 500u128,
        swap_fee: Decimal::zero(),
    };

    let res = swap_msg.dispatch(&mut transmuter, now).unwrap();

    let expected = Response {
        method: "swap_exact_amount_in".to_string(),
        messages: vec![Msg::Send {
            to_address: user.to_string(),
            amount: Coin::new(500, "whusdc".to_string()),
        }],
        data: swap_in_data(500u128),
    };

    assert_eq!(res, expected);

    // Test swap with token in as alloyed asset
    let swap_msg = SudoMsg::SwapExactAmountIn {
        sender: user.to_string(),
        token_in: Coin::new(500, alloyed_denom.to_string()),
        token_out_denom: "whusdc".to_string(),
        token_out_min_amount: 500u128,
        swap_fee: Decimal::zero(),
    };

    let res = swap_msg.dispatch(&mut transmuter, now).unwrap();

    let expected = Response {
        method: "swap_exact_amount_in".to_string(),
        messages: vec![
            Msg::Burn {
                amount: Coin::new(500, alloyed_denom.to_string()),
            },
            Msg::Send {
                to_address: user.to_string(),
                amount: Coin::new(500, "whusdc".to_string()),
            },
        ],
        data: swap_in_data(500u128),
    };

    assert_eq!(res, expected);

    // Test swap with token out as alloyed asset
    let swap_msg = SudoMsg::SwapExactAmountIn {
        sender: user.to_string(),
        token_in: Coin::new(500, "whusdc".to_string()),
        token_out_denom: alloyed_denom.to_string(),
        token_out_min_amount: 500u128,
        swap_fee: Decimal::zero(),
    };

    let res = swap_msg.dispatch(&mut transmuter, now).unwrap();

    let expected = Response {
        method: "swap_exact_amount_in".to_string(),
        messages: vec![Msg::Mint {
            mint_to_address: user.to_string(),
            amount: Coin::new(500, alloyed_denom.to_string()),
        }],
        data: swap_in_data(500u128),
    };

    assert_eq!(res, expected);

    // Test case for ensure token_out amount is greater than or equal to token_out_min_amount
    let swap_msg = SudoMsg::SwapExactAmountIn {
        sender: user.to_string(),
        token_in: Coin::new(500, "whusdc".to_string()),
        token_out_denom: "axlusdc".to_string(),
        token_out_min_amount: 1000u128, // set min amount greater than token_in
        swap_fee: Decimal::zero(),
    };

    let res = swap_msg.dispatch(&mut transmuter, now);

    assert_eq!(
        res,
        Err(ContractError::InsufficientTokenOut {
            required: 1000u128,
            available: 500u128
        })
    );

    // Test case for ensure token_out amount is greater than or equal to token_out_min_amount but token_in is alloyed asset
    let swap_msg = SudoMsg::SwapExactAmountIn {
        sender: user.to_string(),
        token_in: Coin::new(500, alloyed_denom.to_string()),
        token_out_denom: "axlusdc".to_string(),
        token_out_min_amount: 1000u128, // set min amount greater than token_in
        swap_fee: Decimal::zero(),
    };

    let res = swap_msg.dispatch(&mut transmuter, now);

    assert_eq!(
        res,
        Err(ContractError::InsufficientTokenOut {
            required: 1000u128,
            available: 500u128
        })
    );

    // Test case for ensure token_out amount is greater than or equal to token_out_min_amount but token_out is alloyed asset
    let swap_msg = SudoMsg::SwapExactAmountIn {
        sender: user.to_string(),
        token_in: Coin::new(500, "whusdc".to_string()),
        token_out_denom: alloyed_denom.to_string(),
        token_out_min_amount: 1000u128, // set min amount greater than token_in
        swap_fee: Decimal::zero(),
    };

    let res = swap_msg.dispatch(&mut transmuter, now);

    assert_eq!(
        res,
        Err(ContractError::InsufficientTokenOut {
            required: 1000u128,
            available: 500u128
        })
    );
}

#[test]
fn test_swap_exact_token_out() {
    let user = "user";
    let alloyed_denom = "uusdc";
    let mut transmuter = joined_pool(user, alloyed_denom);
    let now = 1_571_797_419_879_305_533u64;

    // Test swap exact amount out with only pool assets
    let swap_msg = SudoMsg::SwapExactAmountOut {
        sender: user.to_string(),
        token_in_denom: "axlusdc".to_string(),
        token_in_max_amount: 500u128,
        token_out: Coin::new(500, "whusdc".to_string()),
        swap_fee: Decimal::zero(),
    };

    let res = swap_msg.dispatch(&mut transmuter, now).unwrap();

    let expected = Response {
        method: "swap_exact_amount_out".to_string(),
        messages: vec![Msg::Send {
            to_address: user.to_string(),
            amount: Coin::new(500, "whusdc".to_string()),
        }],
        data: swap_out_data(500u128),
    };

    assert_eq!(res, expected);

    // Test swap with token in as alloyed asset
    let swap_msg = SudoMsg::SwapExactAmountOut {
        sender: user.to_string(),
        token_in_denom: alloyed_denom.to_string(),
        token_in_max_amount: 500u128,
        token_out: Coin::new(500, "whusdc".to_string()),
        swap_fee: Decimal::zero(),
    };

    let res = swap_msg.dispatch(&mut transmuter, now).unwrap();

    let expected = Response {
        method: "swap_exact_amount_out".to_string(),
        messages: vec![
            Msg::Burn {
                amount: Coin::new(500, alloyed_denom.to_string()),
            },
            Msg::Send {
                to_address: user.to_string(),
                amount: Coin::new(500, "whusdc".to_string()),
            },
        ],
        data: swap_out_data(500u128),
    };

    assert_eq!(res, expected);

    // Test swap with token out as alloyed asset
    let swap_msg = SudoMsg::SwapExactAmountOut {
        sender: user.to_string(),
        token_in_denom: "whusdc".to_string(),
        token_in_max_amount: 500u128,
        token_out: Coin::new(500, alloyed_denom.to_string()),
        swap_fee: Decimal::zero(),
    };

    let res = swap_msg.dispatch(&mut transmuter, now).unwrap();

    let expected = Response {
        method: "swap_exact_amount_out".to_string(),
        messages: vec![Msg::Mint {
            mint_to_address: user.to_string(),
            amount: Coin::new(500, alloyed_denom.to_string()),
        }],
        data: swap_out_data(500u128),
    };

    assert_eq!(res, expected);

    // Test case for ensure token_in amount is less than or equal to token_in_max_amount
    let swap_msg = SudoMsg::SwapExactAmountOut {
        sender: user.to_string(),
        token_in_denom: "whusdc".to_string(),
        token_in_max_amount: 500u128, // set max amount less than token_out
        token_out: Coin::new(1000, "axlusdc".to_string()),
        swap_fee: Decimal::zero(),
    };

    let res = swap_msg.dispatch(&mut transmuter, now);

    assert_eq!(
        res,
        Err(ContractError::ExcessiveRequiredTokenIn {
            limit: 500u128,
            required: 1000u128,
        })
    );

    // Test case for ensure token_in amount is less than or equal to token_in_max_amount but token_in is alloyed asset
    let swap_msg = SudoMsg::SwapExactAmountOut {
        sender: user.to_string(),
        token_in_denom: alloyed_denom.to_string(),
        token_in_max_amount: 500u128, // set max amount less than token_out
        token_out: Coin::new(1000, "axlusdc".to_string()),
        swap_fee: Decimal::zero(),
    };

    let res = swap_msg.dispatch(&mut transmuter, now);

    assert_eq!(
        res,
        Err(ContractError::ExcessiveRequiredTokenIn {
            limit: 500u128,
            required: 1000u128,
        })
    );

    // Test case for ensure token_in amount is less than or equal to token_in_max_amount but token_out is alloyed asset
    let swap_msg = SudoMsg::SwapExactAmountOut {
        sender: user.to_string(),
        token_in_denom: "whusdc".to_string(),
        token_in_max_amount: 500u128, // set max amount less than token_out
        token_out: Coin::new(1000, alloyed_denom.to_string()),
        swap_fee: Decimal::zero(),
    };

    let res = swap_msg.dispatch(&mut transmuter, now);

    assert_eq!(
        res,
        Err(ContractError::ExcessiveRequiredTokenIn {
            limit: 500u128,
            required: 1000u128,
        })
    );
}

#[test]
fn set_active_changes_the_flag_only() {
    let mut transmuter = joined_pool("user", "uusdc");
    let before = transmuter.clone();
    let res = SudoMsg::SetActive { is_active: false }
        .dispatch(&mut transmuter, 7)
        .unwrap();
    assert_eq!(res.method, "set_active");
    assert!(res.messages.is_empty());
    assert_eq!(res.data, None);
    assert!(!transmuter.active_status);
    assert_eq!(transmuter.pool, before.pool);
    assert_eq!(transmuter.limiters, before.limiters);
}

#[test]
fn failed_swap_changes_nothing() {
    let mut transmuter = joined_pool("user", "uusdc");
    let before = transmuter.clone();
    let swap_msg = SudoMsg::SwapExactAmountIn {
        sender: "user".to_string(),
        token_in: Coin::new(500, "whusdc".to_string()),
        token_out_denom: "axlusdc".to_string(),
        token_out_min_amount: 1000,
        swap_fee: Decimal::zero(),
    };
    assert!(swap_msg.dispatch(&mut transmuter, 1).is_err());
    assert_eq!(transmuter, before);
}
