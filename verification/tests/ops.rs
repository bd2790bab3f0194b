use duality_ledger::contract::instantiate;
use duality_ledger::error::ContractError;
use duality_ledger::maps::AddrPair;
use duality_ledger::msg::InstantiateMsg;
use duality_ledger::state::State;

const TREASURY: &str = "contract0";
const ADMIN: &str = "admin";

fn fresh() -> State {
    instantiate(
        ADMIN.to_string(),
        TREASURY.to_string(),
        InstantiateMsg {
            name: "Name".to_string(),
            symbol: "Symbol".to_string(),
            decimals: 1,
            total_native_supply: 100_000,
            token_uri: "base".to_string(),
        },
    )
}

fn funded() -> State {
    let mut state = fresh();
    state
        .execute_transfer(&TREASURY.to_string(), "alice".to_string(), 250)
        .unwrap();
    state
}

fn allowance_of(state: &State, owner: &str, spender: &str) -> u128 {
    let pair = AddrPair {
        owner: owner.to_string(),
        grantee: spender.to_string(),
    };
    state.allowance.get_or(&pair, 0)
}

#[test]
fn approve_zero_sets_allowance_not_error() {
    // amount_or_id = 0 falls through to the fungible-allowance branch even
    // while ids exist, overwriting the allowance with 0.
    let mut state = funded();
    state
        .execute_increase_allowance(&"alice".to_string(), "bob".to_string(), 50)
        .unwrap();
    assert_eq!(allowance_of(&state, "alice", "bob"), 50);
    state
        .execute_approve(&"alice".to_string(), "bob".to_string(), 0)
        .unwrap();
    assert_eq!(allowance_of(&state, "alice", "bob"), 0);
    let r = state.execute_transfer_from(
        &"bob".to_string(),
        "alice".to_string(),
        "carol".to_string(),
        10,
    );
    assert_eq!(r, Err(ContractError::InsufficientAllowance));
}

#[test]
fn approve_disambiguates_on_the_minted_boundary() {
    // ids 0 and 1 exist, so minted = 2: 1 and 2 read as ids, 3 reads as an
    // allowance amount; id 2 was never assigned, so approving it fails.
    let mut state = funded();
    state
        .execute_approve(&"alice".to_string(), "bob".to_string(), 1)
        .unwrap();
    assert_eq!(state.get_approved.get(&1u128).unwrap(), "bob");
    let r = state.execute_approve(&"alice".to_string(), "bob".to_string(), 2);
    assert_eq!(r, Err(ContractError::NotFound));
    state
        .execute_approve(&"alice".to_string(), "bob".to_string(), 3)
        .unwrap();
    assert_eq!(allowance_of(&state, "alice", "bob"), 3);
}

#[test]
fn approve_needs_owner_or_operator() {
    let mut state = funded();
    let r = state.execute_approve(&"mallory".to_string(), "bob".to_string(), 1);
    assert_eq!(r, Err(ContractError::Unauthorized));
    state
        .execute_set_approval_for_all(&"alice".to_string(), "mallory".to_string(), true)
        .unwrap();
    state
        .execute_approve(&"mallory".to_string(), "bob".to_string(), 1)
        .unwrap();
    assert_eq!(state.get_approved.get(&1u128).unwrap(), "bob");
    state
        .execute_set_approval_for_all(&"alice".to_string(), "mallory".to_string(), false)
        .unwrap();
    let r = state.execute_approve(&"mallory".to_string(), "bob".to_string(), 1);
    assert_eq!(r, Err(ContractError::Unauthorized));
}

#[test]
fn increase_allowance_accumulates_and_checks_overflow() {
    let mut state = fresh();
    state
        .execute_increase_allowance(&"alice".to_string(), "bob".to_string(), 40)
        .unwrap();
    state
        .execute_increase_allowance(&"alice".to_string(), "bob".to_string(), 2)
        .unwrap();
    assert_eq!(allowance_of(&state, "alice", "bob"), 42);
    let r = state.execute_increase_allowance(&"alice".to_string(), "bob".to_string(), u128::MAX);
    assert_eq!(r, Err(ContractError::Overflow));
    assert_eq!(allowance_of(&state, "alice", "bob"), 42);
}

#[test]
fn transfer_from_spends_allowance() {
    let mut state = funded();
    state
        .execute_increase_allowance(&"alice".to_string(), "bob".to_string(), 200)
        .unwrap();
    let r = state.execute_transfer_from(
        &"bob".to_string(),
        "alice".to_string(),
        "carol".to_string(),
        0,
    );
    assert_eq!(r, Err(ContractError::Unauthorized));
    state
        .execute_transfer_from(&"bob".to_string(), "alice".to_string(), "carol".to_string(), 150)
        .unwrap();
    assert_eq!(allowance_of(&state, "alice", "bob"), 50);
    assert_eq!(state.query_balance(&"carol".to_string()), Ok(150));
    // Alice dropped to one whole unit: the later id burned
    assert_eq!(state.query_owned(&"alice".to_string()).unwrap(), vec![0]);
    let r = state.execute_transfer_from(
        &"bob".to_string(),
        "alice".to_string(),
        "carol".to_string(),
        51,
    );
    assert_eq!(r, Err(ContractError::InsufficientAllowance));
    state
        .execute_increase_allowance(&"alice".to_string(), "bob".to_string(), 100)
        .unwrap();
    let r = state.execute_transfer_from(
        &"bob".to_string(),
        "alice".to_string(),
        "carol".to_string(),
        101,
    );
    assert_eq!(r, Err(ContractError::InsufficientBalance));
}

#[test]
fn whitelisted_receiver_mints_nothing() {
    let mut state = fresh();
    state
        .execute_set_whitelist(&ADMIN.to_string(), "vault".to_string(), true)
        .unwrap();
    state
        .execute_transfer(&TREASURY.to_string(), "vault".to_string(), 1_000)
        .unwrap();
    assert_eq!(state.query_balance(&"vault".to_string()), Ok(1_000));
    assert_eq!(state.query_owned(&"vault".to_string()), Err(ContractError::NotFound));
    assert_eq!(state.query_num_tokens(), 0);
}

#[test]
fn set_whitelist_needs_admin() {
    let mut state = fresh();
    let r = state.execute_set_whitelist(&"mallory".to_string(), "vault".to_string(), true);
    assert_eq!(r, Err(ContractError::Unauthorized));
}

#[test]
fn queries_report_config_and_metadata() {
    let state = fresh();
    assert_eq!(state.query_config().admin, ADMIN);
    let info = state.query_token_info();
    assert_eq!(info.name, "Name");
    assert_eq!(info.symbol, "Symbol");
    assert_eq!(info.decimals, 1);
    assert_eq!(info.total_supply, 1_000_000);
    let (minter, cap) = state.query_minter();
    assert_eq!(minter, ADMIN);
    assert_eq!(cap, 1_000_000);
    assert_eq!(
        state.query_balance(&"stranger".to_string()),
        Err(ContractError::NotFound)
    );
}

#[test]
fn nft_info_derives_picture_index() {
    let state = fresh();
    let (uri, idx) = state.query_nft_info(&"27".to_string()).unwrap();
    assert_eq!(uri, "base");
    assert_eq!(idx, 8);
    let (_, idx) = state.query_nft_info(&"0".to_string()).unwrap();
    assert_eq!(idx, 1);
    assert_eq!(
        state.query_nft_info(&"1.5".to_string()),
        Err(ContractError::InvalidInput)
    );
    assert_eq!(
        state.query_nft_info(&"".to_string()),
        Err(ContractError::InvalidInput)
    );
}

#[test]
fn token_id_parse_rejects_oversized_numbers() {
    let state = fresh();
    // one above the largest id the type can hold
    let r = state.query_owner_of(&"340282366920938463463374607431768211456".to_string());
    assert_eq!(r, Err(ContractError::InvalidInput));
    let r = state.query_owner_of(&"340282366920938463463374607431768211455".to_string());
    assert_eq!(r, Err(ContractError::NotFound));
}

#[test]
fn migrate_resets_supply_and_keeps_distributed_funds() {
    let mut state = funded();
    state.migrate(&TREASURY.to_string()).unwrap();
    let info = state.query_token_info();
    assert_eq!(info.total_supply, 100_000_000_000_000);
    assert_eq!(
        state.query_balance(&TREASURY.to_string()),
        Ok(100_000_000_000_000 - 250)
    );
    assert_eq!(state.query_balance(&"alice".to_string()), Ok(250));
}
