//! The messages the ledger is driven by.
//!
//! Addresses arrive as plain strings that the host has already validated;
//! opaque payloads that are only passed through to receiving contracts are
//! carried as raw bytes.

use vstd::prelude::*;

verus! {

/// An address and an amount, as used by airdrop-style tooling.
#[derive(Debug, Clone, PartialEq, Eq)]
pub struct InitialBalance {
    pub target: String,
    pub amount: u128,
}

/// The configuration a ledger is created with.
#[derive(Debug, Clone, PartialEq, Eq)]
pub struct InstantiateMsg {
    pub name: String,
    pub symbol: String,
    pub decimals: u8,
    pub total_native_supply: u128,
    pub token_uri: String,
}

/// The state-changing operations.
#[derive(Debug, Clone, PartialEq, Eq)]
pub enum ExecuteMsg {
    SetWhitelist { target: String, state: bool },
    Approve { spender: String, amount_or_id: u128 },
    SetApprovalForAll { operator: String, approved: bool },
    IncreaseAllowance { spender: String, amount: u128 },
    TransferFrom { owner: String, recipient: String, amount: u128 },
    Transfer { recipient: String, amount: u128 },
    TransferNft { recipient: String, token_id: String },
    Send { contract: String, amount: u128, msg: Vec<u8> },
    SendNft { contract: String, token_id: String, msg: Vec<u8> },
    Mint {},
    AirdropNft { recipient: String, nft_amount: u128 },
}

/// What the host hands the ledger with every call: the authenticated
/// caller, the ledger's own address, and the chain-time snapshot in
/// seconds.
#[derive(Debug, Clone, PartialEq, Eq)]
pub struct MsgCtx {
    pub sender: String,
    pub contract_address: String,
    pub now_seconds: u64,
}

/// The admin of the ledger.
#[derive(Debug, Clone, PartialEq, Eq)]
pub struct ConfigResponse {
    pub admin: String,
}

/// The read-only queries.
#[derive(Debug, Clone, PartialEq, Eq)]
pub enum QueryMsg {
    Config {},
    Balance { address: String },
    TokenInfo {},
    Minter {},
    OwnerOf { token_id: String },
    Tokens { owner: String },
    NumTokens {},
    NftInfo { token_id: String },
}

/// A migration carries no arguments.
#[derive(Debug, Clone, PartialEq, Eq)]
pub struct MigrateMsg {}

} // verus!
