use duality_ledger::contract::instantiate;
use duality_ledger::error::ContractError;
use duality_ledger::msg::ExecuteMsg;
use duality_ledger::msg::InstantiateMsg;
use duality_ledger::msg::MsgCtx;
use duality_ledger::state::State;

const TREASURY: &str = "contract0";
const ADMIN: &str = "admin";

/// A ledger with unit size 100 (decimals = 1) and a whitelisted treasury
/// holding 1,000,000 base units.
fn fresh() -> State {
    instantiate(
        ADMIN.to_string(),
        TREASURY.to_string(),
        InstantiateMsg {
            name: "Name".to_string(),
            symbol: "Symbol".to_string(),
            decimals: 1,
            total_native_supply: 100_000,
            token_uri: "token_uri".to_string(),
        },
    )
}

#[test]
fn unit_size_is_ten_to_decimals_plus_one() {
    let state = fresh();
    assert_eq!(state.get_unit(), 100);
    assert_eq!(state.query_token_info().total_supply, 1_000_000);
}

#[test]
fn treasury_transfer_mints_for_receiver_only() {
    // Treasury (whitelisted) sends 250 to a plain address: the receiver's
    // two whole units are minted as ids 0 and 1; the treasury burns nothing.
    let mut state = fresh();
    state
        .execute_transfer(&TREASURY.to_string(), "alice".to_string(), 250)
        .unwrap();
    assert_eq!(state.query_balance(&"alice".to_string()), Ok(250));
    assert_eq!(state.query_balance(&TREASURY.to_string()), Ok(999_750));
    assert_eq!(state.query_owned(&"alice".to_string()).unwrap(), vec![0, 1]);
    // the treasury never owned a unit, so it has no owned list at all
    assert_eq!(
        state.query_owned(&TREASURY.to_string()),
        Err(ContractError::NotFound)
    );
    assert_eq!(state.query_num_tokens(), 2);
    assert_eq!(state.query_owner_of(&"0".to_string()).unwrap(), "alice");
    assert_eq!(state.query_owner_of(&"1".to_string()).unwrap(), "alice");
}

#[test]
fn transfer_burns_lifo_and_mints_fresh_ids() {
    // Alice (250, ids {0,1}) sends 150 to Bob: she keeps one unit's worth,
    // so the last-minted id 1 burns; Bob's single unit arrives as fresh id 2.
    let mut state = fresh();
    state
        .execute_transfer(&TREASURY.to_string(), "alice".to_string(), 250)
        .unwrap();
    state
        .execute_transfer(&"alice".to_string(), "bob".to_string(), 150)
        .unwrap();
    assert_eq!(state.query_balance(&"alice".to_string()), Ok(100));
    assert_eq!(state.query_balance(&"bob".to_string()), Ok(150));
    assert_eq!(state.query_owned(&"alice".to_string()).unwrap(), vec![0]);
    assert_eq!(state.query_owned(&"bob".to_string()).unwrap(), vec![2]);
    assert_eq!(state.query_owner_of(&"0".to_string()).unwrap(), "alice");
    assert_eq!(
        state.query_owner_of(&"1".to_string()),
        Err(ContractError::NotFound)
    );
    assert_eq!(state.query_owner_of(&"2".to_string()).unwrap(), "bob");
    assert_eq!(state.query_num_tokens(), 3);
}

#[test]
fn transfer_with_insufficient_balance_is_rejected_whole() {
    let mut state = fresh();
    state
        .execute_transfer(&TREASURY.to_string(), "alice".to_string(), 250)
        .unwrap();
    let r = state.execute_transfer(&"alice".to_string(), "bob".to_string(), 251);
    assert_eq!(r, Err(ContractError::InsufficientBalance));
    // no partial effect
    assert_eq!(state.query_balance(&"alice".to_string()), Ok(250));
    assert_eq!(state.query_owned(&"alice".to_string()).unwrap(), vec![0, 1]);
}

#[test]
fn direct_unit_transfer_moves_one_unit_and_clears_approval() {
    // Alice owns ids 0 and 1 with a fractional remainder; a direct transfer
    // of id 1 moves exactly 100 base units whatever the remainders are, and
    // wipes the approval that was set on the id.
    let mut state = fresh();
    state
        .execute_transfer(&TREASURY.to_string(), "alice".to_string(), 250)
        .unwrap();
    state
        .execute_approve(&"alice".to_string(), "dave".to_string(), 1)
        .unwrap();
    assert!(state.get_approved.get(&1u128).is_some());
    state
        .execute_transfer_nft(&"alice".to_string(), "carol".to_string(), &"1".to_string())
        .unwrap();
    assert_eq!(state.query_balance(&"alice".to_string()), Ok(150));
    assert_eq!(state.query_balance(&"carol".to_string()), Ok(100));
    assert_eq!(state.query_owned(&"alice".to_string()).unwrap(), vec![0]);
    assert_eq!(state.query_owned(&"carol".to_string()).unwrap(), vec![1]);
    assert_eq!(state.query_owner_of(&"1".to_string()).unwrap(), "carol");
    assert!(state.get_approved.get(&1u128).is_none());
    // no id was minted or burned by the direct move
    assert_eq!(state.query_num_tokens(), 2);
}

#[test]
fn unit_transfer_by_non_owner_is_invalid_sender() {
    let mut state = fresh();
    state
        .execute_transfer(&TREASURY.to_string(), "alice".to_string(), 250)
        .unwrap();
    let r = state.execute_transfer_nft(&"bob".to_string(), "carol".to_string(), &"0".to_string());
    assert_eq!(r, Err(ContractError::InvalidSender));
    let r = state.execute_transfer_nft(&"bob".to_string(), "carol".to_string(), &"7".to_string());
    assert_eq!(r, Err(ContractError::NotFound));
    let r = state.execute_transfer_nft(&"bob".to_string(), "carol".to_string(), &"x1".to_string());
    assert_eq!(r, Err(ContractError::InvalidInput));
}

#[test]
fn mint_gate_window() {
    // One claim per rolling 86,400-second window: the second claim inside
    // the window fails, a claim exactly at the boundary succeeds.
    let mut state = fresh();
    let user = "user1".to_string();
    let ctx = |now: u64| MsgCtx {
        sender: user.clone(),
        contract_address: TREASURY.to_string(),
        now_seconds: now,
    };
    state.execute(&ctx(100_000), ExecuteMsg::Mint {}).unwrap();
    assert_eq!(state.query_balance(&user), Ok(100));
    assert_eq!(state.query_owned(&user).unwrap(), vec![0]);
    let r = state.execute(&ctx(100_000 + 86_399), ExecuteMsg::Mint {});
    assert_eq!(r, Err(ContractError::AlreadyMintedToday));
    state
        .execute(&ctx(100_000 + 86_400), ExecuteMsg::Mint {})
        .unwrap();
    assert_eq!(state.query_balance(&user), Ok(200));
    assert_eq!(state.query_owned(&user).unwrap(), vec![0, 1]);
}

#[test]
fn mint_fails_out_of_supply_when_treasury_empty() {
    let mut state = fresh();
    // drain the whole treasury
    state
        .execute_transfer(&TREASURY.to_string(), "whale".to_string(), 1_000_000)
        .unwrap();
    let r = state.execute_mint(&"user1".to_string(), &TREASURY.to_string(), 100_000);
    assert_eq!(r, Err(ContractError::OutOfSupply));
}

#[test]
fn airdrop_sends_whole_units_and_needs_admin() {
    let mut state = fresh();
    let r = state.execute_airdrop_nft(
        &"mallory".to_string(),
        &TREASURY.to_string(),
        "alice".to_string(),
        3,
    );
    assert_eq!(r, Err(ContractError::Unauthorized));
    state
        .execute_airdrop_nft(&ADMIN.to_string(), &TREASURY.to_string(), "alice".to_string(), 3)
        .unwrap();
    assert_eq!(state.query_balance(&"alice".to_string()), Ok(300));
    assert_eq!(state.query_owned(&"alice".to_string()).unwrap(), vec![0, 1, 2]);
}

#[test]
fn total_balance_is_conserved_across_transfers() {
    let mut state = fresh();
    state
        .execute_transfer(&TREASURY.to_string(), "alice".to_string(), 123_456)
        .unwrap();
    state
        .execute_transfer(&"alice".to_string(), "bob".to_string(), 23_456)
        .unwrap();
    state
        .execute_transfer_nft(&"carol".to_string(), "bob".to_string(), &"5".to_string())
        .unwrap_err();
    let t = state.query_balance(&TREASURY.to_string()).unwrap();
    let a = state.query_balance(&"alice".to_string()).unwrap();
    let b = state.query_balance(&"bob".to_string()).unwrap();
    assert_eq!(t + a + b, 1_000_000);
}

#[test]
fn units_in_circulation_and_index_stay_consistent() {
    // After a burn and a mint: ids 0 (alice) and 2 (bob) live, id 1 retired.
    // Each live id sits in exactly one list, at the position the reverse
    // index records, and the live ids number minted minus burned.
    let mut state = fresh();
    state
        .execute_transfer(&TREASURY.to_string(), "alice".to_string(), 250)
        .unwrap();
    state
        .execute_transfer(&"alice".to_string(), "bob".to_string(), 150)
        .unwrap();
    let alice = state.query_owned(&"alice".to_string()).unwrap();
    let bob = state.query_owned(&"bob".to_string()).unwrap();
    assert_eq!((alice.len() + bob.len()) as u64, state.query_num_tokens() - 1);
    for (list, who) in [(&alice, "alice"), (&bob, "bob")] {
        for (p, id) in list.iter().enumerate() {
            assert_eq!(state.owned_index.get(id), Some(&(p as u128)));
            assert_eq!(state.owner_of.get(id).unwrap(), who);
        }
    }
    // no id appears in both lists
    for id in &alice {
        assert!(!bob.contains(id));
    }
}

#[test]
fn self_transfer_changes_nothing() {
    let mut state = fresh();
    state
        .execute_transfer(&TREASURY.to_string(), "alice".to_string(), 250)
        .unwrap();
    state
        .execute_transfer(&"alice".to_string(), "alice".to_string(), 200)
        .unwrap();
    assert_eq!(state.query_balance(&"alice".to_string()), Ok(250));
    assert_eq!(state.query_owned(&"alice".to_string()).unwrap(), vec![0, 1]);
}
