//! The ledger state and its invariant.
//!
//! The state is one explicit aggregate: configuration, token metadata, the
//! minted counter, and the per-account tables. The invariant ties the two
//! natures of the ledger together: outside the whitelist, an account's
//! count of owned discrete units always equals its balance divided by the
//! unit size.

use vstd::prelude::*;

use crate::maps::AddrPair;
use crate::maps::KvMap;
use crate::spec_pow10;

verus! {

/// The administrator, fixed at instantiation.
pub struct Config {
    pub admin: String,
}

/// Token metadata. `total_supply` is in base units.
pub struct Metadata {
    pub name: String,
    pub symbol: String,
    pub decimals: u8,
    pub total_supply: u128,
    pub token_uri: String,
}

/// The whole ledger.
pub struct State {
    pub config: Config,
    pub metadata: Metadata,
    /// How many discrete-unit ids have ever been assigned; the next id.
    pub minted: u128,
    /// Fractional balance per address, in base units.
    pub balance_of: KvMap<String, u128>,
    /// Fungible allowance per (owner, spender).
    pub allowance: KvMap<AddrPair, u128>,
    /// Approved spender of one discrete unit, per id.
    pub get_approved: KvMap<u128, String>,
    /// Operator approval per (owner, operator).
    pub is_approved_for_all: KvMap<AddrPair, bool>,
    /// Current owner per live discrete-unit id.
    pub owner_of: KvMap<u128, String>,
    /// Owned discrete-unit ids per address, in insertion order.
    pub owned: KvMap<String, Vec<u128>>,
    /// Position of each live id inside its owner's list.
    pub owned_index: KvMap<u128, u128>,
    /// Addresses exempt from discrete-unit reconciliation.
    pub whitelist: KvMap<String, bool>,
    /// Seconds timestamp of each address's last successful mint claim.
    pub last_mint_seconds: KvMap<String, u64>,
}

impl State {
    /// Base units per discrete unit: one power of ten above the configured
    /// decimals.
    pub open spec fn spec_unit(self) -> int {
        spec_pow10((self.metadata.decimals + 1) as nat) as int
    }

    /// The balance of an address, counting an absent entry as zero.
    pub open spec fn spec_balance(self, a: Seq<char>) -> u128 {
        self.balance_of.spec_amount(a)
    }

    /// The total balance across all addresses.
    pub open spec fn total(self) -> int {
        self.balance_of.sum()
    }

    /// Whether an address is exempt from reconciliation.
    pub open spec fn spec_whitelisted(self, a: Seq<char>) -> bool {
        self.whitelist@.contains_key(a) && self.whitelist@[a]
    }

    /// The ids an address owns, in insertion order.
    pub open spec fn owned_of(self, a: Seq<char>) -> Seq<u128> {
        if self.owned@.contains_key(a) {
            self.owned@[a]@
        } else {
            Seq::empty()
        }
    }

    /// Owner per live id.
    pub open spec fn owners(self) -> Map<u128, Seq<char>> {
        Map::new(
            |id: u128| self.owner_of@.contains_key(id),
            |id: u128| self.owner_of@[id]@,
        )
    }

    /// Approved spender per id.
    pub open spec fn approvals(self) -> Map<u128, Seq<char>> {
        Map::new(
            |id: u128| self.get_approved@.contains_key(id),
            |id: u128| self.get_approved@[id]@,
        )
    }

    /// The fungible allowance an owner has granted a spender.
    pub open spec fn spec_allowance(self, owner: Seq<char>, spender: Seq<char>) -> u128 {
        self.allowance.spec_amount((owner, spender))
    }

    /// Whether an owner has approved an operator for all its units.
    pub open spec fn spec_operator(self, owner: Seq<char>, operator: Seq<char>) -> bool {
        self.is_approved_for_all@.contains_key((owner, operator))
            && self.is_approved_for_all@[(owner, operator)]
    }

    /// When the address last claimed a mint, or zero if never.
    pub open spec fn spec_last_mint(self, a: Seq<char>) -> u64 {
        if self.last_mint_seconds@.contains_key(a) {
            self.last_mint_seconds@[a]
        } else {
            0
        }
    }

    /// How many whole discrete units an address's balance covers.
    pub open spec fn units_of(self, a: Seq<char>) -> int {
        self.spec_balance(a) as int / self.spec_unit()
    }

    /// The reconciliation target: the address owns exactly as many discrete
    /// units as its balance covers.
    pub open spec fn aligned(self, a: Seq<char>) -> bool {
        self.owned_of(a).len() == self.units_of(a)
    }

    /// All tables are well-formed and the unit size is representable.
    pub open spec fn maps_wf(self) -> bool {
        &&& self.balance_of.wf()
        &&& self.allowance.wf()
        &&& self.get_approved.wf()
        &&& self.is_approved_for_all.wf()
        &&& self.owner_of.wf()
        &&& self.owned.wf()
        &&& self.owned_index.wf()
        &&& self.whitelist.wf()
        &&& self.last_mint_seconds.wf()
        &&& self.metadata.decimals <= 37
    }

    /// Every listed id is owned by the listing address, at the position the
    /// reverse index records.
    pub open spec fn inv_index(self) -> bool {
        forall|a: Seq<char>, p: int|
            0 <= p < self.owned_of(a).len() ==> {
                let id = #[trigger] self.owned_of(a)[p];
                &&& self.owners().contains_key(id)
                &&& self.owners()[id] == a
                &&& self.owned_index@.contains_key(id)
                &&& self.owned_index@[id] == p as u128
            }
    }

    /// Every live id sits in its owner's list at its recorded position, and
    /// ids never reach the minted counter.
    pub open spec fn inv_owner(self) -> bool {
        forall|id: u128|
            #[trigger] self.owners().contains_key(id) ==> {
                &&& self.owned_index@.contains_key(id)
                &&& self.owned_index@[id] < self.owned_of(self.owners()[id]).len()
                &&& self.owned_of(self.owners()[id])[self.owned_index@[id] as int] == id
                &&& id < self.minted
            }
    }

    /// The reverse index covers exactly the live ids.
    pub open spec fn inv_index_dom(self) -> bool {
        forall|id: u128|
            #[trigger] self.owned_index@.contains_key(id) ==> self.owners().contains_key(id)
    }

    /// Single-unit approvals exist only for live ids.
    pub open spec fn inv_approved(self) -> bool {
        forall|id: u128|
            #[trigger] self.approvals().contains_key(id) ==> self.owners().contains_key(id)
    }

    /// The structural part of the invariant: the index and ownership tables
    /// agree.
    pub open spec fn inv_structure(self) -> bool {
        &&& self.maps_wf()
        &&& self.inv_index()
        &&& self.inv_owner()
        &&& self.inv_index_dom()
        &&& self.inv_approved()
    }

    /// Every address outside the whitelist is reconciled.
    pub open spec fn inv_aligned(self) -> bool {
        forall|a: Seq<char>|
            #![trigger self.spec_whitelisted(a)]
            #![trigger self.aligned(a)]
            !self.spec_whitelisted(a) ==> self.aligned(a)
    }

    /// The full ledger invariant.
    pub open spec fn inv(self) -> bool {
        &&& self.inv_structure()
        &&& self.inv_aligned()
        &&& self.total() == self.metadata.total_supply
    }

    /// Computes the unit size.
    pub fn get_unit(&self) -> (r: u128)
        requires
            self.metadata.decimals <= 37,
        ensures
            r == self.spec_unit(),
    {
        proof {
            crate::lemma_pow10_increases(self.metadata.decimals as nat + 1, 38);
            crate::lemma_pow10_38_fits();
        }
        crate::pow10(self.metadata.decimals as u32 + 1)
    }

    /// Reads an address's balance, zero where no entry exists.
    pub fn balance_amount(&self, a: &String) -> (r: u128)
        requires
            self.balance_of.wf(),
        ensures
            r == self.spec_balance(a@),
    {
        self.balance_of.get_or(a, 0)
    }

    /// Reads an address's whitelist flag, false where no entry exists.
    pub fn whitelisted(&self, a: &String) -> (r: bool)
        requires
            self.whitelist.wf(),
        ensures
            r == self.spec_whitelisted(a@),
    {
        self.whitelist.get_or(a, false)
    }

    /// Clones an address's owned-id list, empty where no entry exists.
    pub fn owned_list(&self, a: &String) -> (r: Vec<u128>)
        requires
            self.owned.wf(),
        ensures
            r@ == self.owned_of(a@),
    {
        match self.owned.get(a) {
            Some(v) => {
                let r = v.clone();
                proof {
                    assert(r@ =~= v@);
                }
                r
            },
            None => Vec::new(),
        }
    }
}

} // verus!
