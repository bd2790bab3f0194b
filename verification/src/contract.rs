//! The ledger operations.
//!
//! Every operation is all-or-nothing: it either returns `Ok` and leaves the
//! ledger in the described new state, or returns an error and leaves the
//! ledger untouched.

use vstd::prelude::*;

use crate::error::ContractError;
use crate::lemma_pow10_positive;
use crate::maps::AddrPair;
use crate::maps::KvMap;
use crate::msg::ConfigResponse;
use crate::msg::ExecuteMsg;
use crate::msg::InstantiateMsg;
use crate::msg::MsgCtx;
use crate::parse::digits_val;
use crate::parse::is_dec_digits;
use crate::parse::parse_u128;
use crate::spec_pow10;
use crate::state::Config;
use crate::state::Metadata;
use crate::state::State;

verus! {

/// Creates a ledger: the instantiating caller becomes the admin, the whole
/// supply is credited to the contract's own address, and that address is
/// whitelisted so the initial pool does not mint discrete units.
pub fn instantiate(sender: String, contract_address: String, msg: InstantiateMsg) -> (r: State)
    requires
        msg.decimals <= 37,
        msg.total_native_supply * spec_pow10(msg.decimals as nat) <= u128::MAX,
    ensures
        r.inv(),
        r.config.admin == sender,
        r.metadata.name == msg.name,
        r.metadata.symbol == msg.symbol,
        r.metadata.decimals == msg.decimals,
        r.metadata.total_supply == msg.total_native_supply * spec_pow10(msg.decimals as nat),
        r.metadata.token_uri == msg.token_uri,
        r.minted == 0,
        r.spec_balance(contract_address@) == r.metadata.total_supply,
        r.balance_of@ == Map::<Seq<char>, u128>::empty().insert(
            contract_address@,
            r.metadata.total_supply,
        ),
        r.spec_whitelisted(contract_address@),
        r.whitelist@ == Map::<Seq<char>, bool>::empty().insert(contract_address@, true),
        r.allowance@ == Map::<(Seq<char>, Seq<char>), u128>::empty(),
        r.owners() == Map::<u128, Seq<char>>::empty(),
        r.owned@ == Map::<Seq<char>, Vec<u128>>::empty(),
        r.owned_index@ == Map::<u128, u128>::empty(),
        r.approvals() == Map::<u128, Seq<char>>::empty(),
        r.is_approved_for_all@ == Map::<(Seq<char>, Seq<char>), bool>::empty(),
        r.last_mint_seconds@ == Map::<Seq<char>, u64>::empty(),
{
    proof {
        crate::lemma_pow10_38_fits();
        crate::lemma_pow10_increases(msg.decimals as nat, 38);
    }
    let scale = crate::pow10(msg.decimals as u32);
    let total_supply = msg.total_native_supply * scale;
    let metadata = Metadata {
        name: msg.name,
        symbol: msg.symbol,
        decimals: msg.decimals,
        total_supply,
        token_uri: msg.token_uri,
    };
    let mut state = State {
        config: Config { admin: sender },
        metadata,
        minted: 0,
        balance_of: KvMap::new(),
        allowance: KvMap::new(),
        get_approved: KvMap::new(),
        is_approved_for_all: KvMap::new(),
        owner_of: KvMap::new(),
        owned: KvMap::new(),
        owned_index: KvMap::new(),
        whitelist: KvMap::new(),
        last_mint_seconds: KvMap::new(),
    };
    proof {
        state.balance_of.lemma_sum_empty();
    }
    state.balance_of.set_amount(contract_address.clone(), total_supply);
    state.whitelist.insert(contract_address, true);
    proof {
        lemma_pow10_positive((state.metadata.decimals + 1) as nat);
        assert(state.owners() =~= Map::<u128, Seq<char>>::empty());
        assert(state.approvals() =~= Map::<u128, Seq<char>>::empty());
        assert forall|a: Seq<char>| !state.spec_whitelisted(a) implies state.aligned(a) by {
            assert(state.spec_balance(a) == 0);
            assert(state.owned_of(a) == Seq::<u128>::empty());
        }
    }
    state
}

impl State {
    /// Mints the next discrete unit to `to`: assigns the next sequential id,
    /// appends it to `to`'s owned list, and records its position.
    ///
    /// Reconciliation calls this exactly as many times as `to`'s balance
    /// growth demands; it adjusts the ownership tables only, never balances.
    pub fn _mint(&mut self, to: &String) -> (r: Result<(), ContractError>)
        requires
            old(self).inv_structure(),
            old(self).minted < u128::MAX,
        ensures
            final(self).inv_structure(),
            r is Ok,
            final(self).minted == old(self).minted + 1,
            final(self).owned_of(to@) == old(self).owned_of(to@).push(old(self).minted),
            forall|a: Seq<char>| a != to@ ==> final(self).owned_of(a) == old(self).owned_of(a),
            final(self).owners() == old(self).owners().insert(old(self).minted, to@),
            final(self).owned_index@ == old(self).owned_index@.insert(
                old(self).minted,
                old(self).owned_of(to@).len() as u128,
            ),
            final(self).balance_of == old(self).balance_of,
            final(self).allowance == old(self).allowance,
            final(self).get_approved == old(self).get_approved,
            final(self).is_approved_for_all == old(self).is_approved_for_all,
            final(self).whitelist == old(self).whitelist,
            final(self).last_mint_seconds == old(self).last_mint_seconds,
            final(self).config == old(self).config,
            final(self).metadata == old(self).metadata,
    {
        let ghost pre = *old(self);
        let minted = self.minted;
        if self.owner_of.contains(&minted) {
            proof {
                assert(self.owners().contains_key(minted));
                assert(false);
            }
            return Err(ContractError::AlreadyExists);
        }
        self.minted = minted + 1;
        self.owner_of.insert(minted, to.clone());
        let mut lst = self.owned_list(to);
        lst.push(minted);
        let n = lst.len();
        self.owned.insert(to.clone(), lst);
        self.owned_index.insert(minted, (n - 1) as u128);
        proof {
            let post = *self;
            assert(post.owners() =~= pre.owners().insert(minted, to@));
            assert(post.owned_of(to@) =~= pre.owned_of(to@).push(minted));
            assert forall|a: Seq<char>| a != to@ implies post.owned_of(a) == pre.owned_of(a) by {}
            // ids already listed anywhere are live, hence below the fresh id
            assert forall|a: Seq<char>, p: int|
                0 <= p < pre.owned_of(a).len() implies #[trigger] pre.owned_of(a)[p] != minted by {
                let id = pre.owned_of(a)[p];
                assert(pre.owners().contains_key(id));
            }
            assert forall|a: Seq<char>, p: int| 0 <= p < post.owned_of(a).len() implies {
                let id = #[trigger] post.owned_of(a)[p];
                &&& post.owners().contains_key(id)
                &&& post.owners()[id] == a
                &&& post.owned_index@.contains_key(id)
                &&& post.owned_index@[id] == p as u128
            } by {
                let id = post.owned_of(a)[p];
                if a == to@ && p == pre.owned_of(to@).len() {
                    assert(id == minted);
                } else {
                    assert(pre.owned_of(a)[p] == id);
                    assert(id != minted);
                }
            }
            assert forall|id: u128| #[trigger] post.owners().contains_key(id) implies {
                &&& post.owned_index@.contains_key(id)
                &&& post.owned_index@[id] < post.owned_of(post.owners()[id]).len()
                &&& post.owned_of(post.owners()[id])[post.owned_index@[id] as int] == id
                &&& id < post.minted
            } by {
                if id == minted {
                    assert(post.owned_of(to@)[pre.owned_of(to@).len() as int] == id);
                } else {
                    assert(pre.owners().contains_key(id));
                    let a = pre.owners()[id];
                    if a == to@ {
                        assert(post.owned_of(a)[pre.owned_index@[id] as int] == pre.owned_of(
                            a,
                        )[pre.owned_index@[id] as int]);
                    }
                }
            }
            assert forall|id: u128| #[trigger] post.owned_index@.contains_key(id) implies post.owners().contains_key(id) by {
                if id != minted {
                    assert(pre.owned_index@.contains_key(id));
                }
            }
            assert(post.approvals() == pre.approvals());
            assert forall|id: u128| #[trigger] post.approvals().contains_key(id) implies post.owners().contains_key(id) by {
                assert(pre.approvals().contains_key(id));
            }
        }
        Ok(())
    }

    /// Burns the most recently inserted unit still owned by `from`: removes
    /// the last id of its list and clears the id's owner, index and
    /// single-unit approval. Burn order is last-in-first-out per account.
    pub fn _burn(&mut self, from: &String) -> (r: Result<(), ContractError>)
        requires
            old(self).inv_structure(),
            old(self).owned_of(from@).len() > 0,
        ensures
            final(self).inv_structure(),
            r is Ok,
            final(self).owned_of(from@) == old(self).owned_of(from@).drop_last(),
            forall|a: Seq<char>| a != from@ ==> final(self).owned_of(a) == old(self).owned_of(a),
            final(self).owners() == old(self).owners().remove(old(self).owned_of(from@).last()),
            final(self).owned_index@ == old(self).owned_index@.remove(
                old(self).owned_of(from@).last(),
            ),
            final(self).approvals() == old(self).approvals().remove(
                old(self).owned_of(from@).last(),
            ),
            final(self).minted == old(self).minted,
            final(self).balance_of == old(self).balance_of,
            final(self).allowance == old(self).allowance,
            final(self).is_approved_for_all == old(self).is_approved_for_all,
            final(self).whitelist == old(self).whitelist,
            final(self).last_mint_seconds == old(self).last_mint_seconds,
            final(self).config == old(self).config,
            final(self).metadata == old(self).metadata,
    {
        let ghost pre = *old(self);
        let mut lst = self.owned_list(from);
        let id = lst[lst.len() - 1];
        proof {
            assert(id == pre.owned_of(from@).last());
            assert(pre.owned_of(from@)[pre.owned_of(from@).len() - 1] == id);
            assert(pre.owners().contains_key(id) && pre.owners()[id] == from@
                && pre.owned_index@[id] == (pre.owned_of(from@).len() - 1) as u128);
        }
        lst.pop();
        self.owned.insert(from.clone(), lst);
        self.owned_index.remove(&id);
        self.owner_of.remove(&id);
        self.get_approved.remove(&id);
        proof {
            let post = *self;
            let n0 = pre.owned_of(from@).len();
            assert(post.owned_of(from@) =~= pre.owned_of(from@).drop_last());
            assert(post.owners() =~= pre.owners().remove(id));
            assert(post.approvals() =~= pre.approvals().remove(id));
            // no position other than the last holds the burned id
            assert forall|a: Seq<char>, p: int|
                0 <= p < pre.owned_of(a).len() && (a != from@ || p < n0 - 1) implies #[trigger] pre.owned_of(
                a,
            )[p] != id by {
                let id2 = pre.owned_of(a)[p];
                assert(pre.owners().contains_key(id2) && pre.owners()[id2] == a
                    && pre.owned_index@[id2] == p as u128);
            }
            assert forall|a: Seq<char>, p: int| 0 <= p < post.owned_of(a).len() implies {
                let id2 = #[trigger] post.owned_of(a)[p];
                &&& post.owners().contains_key(id2)
                &&& post.owners()[id2] == a
                &&& post.owned_index@.contains_key(id2)
                &&& post.owned_index@[id2] == p as u128
            } by {
                assert(post.owned_of(a)[p] == pre.owned_of(a)[p]);
                assert(pre.owned_of(a)[p] != id);
            }
            assert forall|id2: u128| #[trigger] post.owners().contains_key(id2) implies {
                &&& post.owned_index@.contains_key(id2)
                &&& post.owned_index@[id2] < post.owned_of(post.owners()[id2]).len()
                &&& post.owned_of(post.owners()[id2])[post.owned_index@[id2] as int] == id2
                &&& id2 < post.minted
            } by {
                assert(id2 != id);
                let a = pre.owners()[id2];
                let p = pre.owned_index@[id2] as int;
                if a == from@ {
                    assert(pre.owned_of(a)[p] == id2);
                    assert(p != n0 - 1);
                    assert(post.owned_of(a)[p] == pre.owned_of(a)[p]);
                }
            }
        }
        Ok(())
    }
}

/// The structural invariant depends only on the ownership tables and the
/// minted counter: a state that keeps them keeps the invariant.
pub proof fn lemma_structure_same_tables(pre: State, post: State)
    requires
        pre.inv_structure(),
        post.owned == pre.owned,
        post.owner_of == pre.owner_of,
        post.owned_index == pre.owned_index,
        post.get_approved == pre.get_approved,
        post.minted == pre.minted,
        post.maps_wf(),
    ensures
        post.inv_structure(),
        post.owners() == pre.owners(),
        post.approvals() == pre.approvals(),
        forall|a: Seq<char>| #[trigger] post.owned_of(a) == pre.owned_of(a),
{
    assert(post.owners() =~= pre.owners());
    assert(post.approvals() =~= pre.approvals());
    assert forall|a: Seq<char>| #[trigger] post.owned_of(a) == pre.owned_of(a) by {}
    assert forall|a: Seq<char>, p: int| 0 <= p < post.owned_of(a).len() implies {
        let id = #[trigger] post.owned_of(a)[p];
        &&& post.owners().contains_key(id)
        &&& post.owners()[id] == a
        &&& post.owned_index@.contains_key(id)
        &&& post.owned_index@[id] == p as u128
    } by {
        assert(pre.owned_of(a)[p] == post.owned_of(a)[p]);
    }
    assert forall|id: u128| #[trigger] post.owners().contains_key(id) implies {
        &&& post.owned_index@.contains_key(id)
        &&& post.owned_index@[id] < post.owned_of(post.owners()[id]).len()
        &&& post.owned_of(post.owners()[id])[post.owned_index@[id] as int] == id
        &&& id < post.minted
    } by {
        assert(pre.owners().contains_key(id));
        assert(post.owned_of(pre.owners()[id]) == pre.owned_of(pre.owners()[id]));
    }
}

/// The whole invariant depends only on the ownership tables, the balances,
/// the whitelist and the metadata: changing the other tables keeps it.
pub proof fn lemma_inv_same_core(pre: State, post: State)
    requires
        pre.inv(),
        post.balance_of == pre.balance_of,
        post.owned == pre.owned,
        post.owner_of == pre.owner_of,
        post.owned_index == pre.owned_index,
        post.get_approved == pre.get_approved,
        post.minted == pre.minted,
        post.whitelist == pre.whitelist,
        post.metadata == pre.metadata,
        post.allowance.wf(),
        post.is_approved_for_all.wf(),
        post.last_mint_seconds.wf(),
    ensures
        post.inv(),
{
    lemma_structure_same_tables(pre, post);
    assert forall|a: Seq<char>| !post.spec_whitelisted(a) implies post.aligned(a) by {
        assert(!pre.spec_whitelisted(a));
        assert(pre.aligned(a));
        assert(post.owned_of(a) == pre.owned_of(a));
    }
}

/// How many discrete units a value transfer burns from the sender: the
/// drop in whole units its balance covers, zero for a whitelisted sender.
pub open spec fn burned_count(pre: State, s: Seq<char>, r: Seq<char>, amount: u128) -> int {
    if pre.spec_whitelisted(s) {
        0
    } else {
        let bs0 = pre.spec_balance(s) as int;
        let after = if s == r {
            bs0
        } else {
            bs0 - amount
        };
        bs0 / pre.spec_unit() - after / pre.spec_unit()
    }
}

/// How many discrete units a value transfer mints to the receiver: the rise
/// in whole units its balance covers, zero for a whitelisted receiver.
pub open spec fn minted_count(pre: State, s: Seq<char>, r: Seq<char>, amount: u128) -> int {
    if pre.spec_whitelisted(r) {
        0
    } else {
        let br0 = pre.spec_balance(r) as int;
        let after = if s == r {
            br0
        } else {
            br0 + amount
        };
        after / pre.spec_unit() - br0 / pre.spec_unit()
    }
}

/// The ids a transfer assigns, in order: the next `n` values of the minted
/// counter.
pub open spec fn minted_ids(pre: State, n: int) -> Seq<u128> {
    Seq::new(n as nat, |j: int| (pre.minted + j) as u128)
}

/// Whether `id` sits in `l` at or after position `lo`.
pub open spec fn in_suffix(l: Seq<u128>, lo: int, id: u128) -> bool {
    exists|p: int| lo <= p < l.len() && l[p] == id
}

/// Whether `id` is one of the units a transfer burns: burning is
/// last-in-first-out, so exactly the tail of the sender's list goes.
pub open spec fn is_burned(pre: State, s: Seq<char>, r: Seq<char>, amount: u128, id: u128) -> bool {
    in_suffix(pre.owned_of(s), pre.owned_of(s).len() - burned_count(pre, s, r, amount), id)
}

/// Everything a successful value transfer changes, and that it changes
/// nothing else: balances move, the sender's list loses exactly its tail,
/// the receiver's list gains exactly the next sequential ids, ownership and
/// single-unit approvals follow, and the total balance is conserved.
pub open spec fn transfer_post(pre: State, post: State, s: Seq<char>, r: Seq<char>, amount: u128) -> bool {
    let bs0 = pre.spec_balance(s);
    let br0 = pre.spec_balance(r);
    let bc = burned_count(pre, s, r, amount);
    let mc = minted_count(pre, s, r, amount);
    let n0 = pre.owned_of(s).len() as int;
    &&& post.balance_of@ == pre.balance_of@.insert(s, (bs0 - amount) as u128).insert(
        r,
        if s == r {
            bs0
        } else {
            (br0 + amount) as u128
        },
    )
    &&& post.total() == pre.total()
    &&& post.minted == pre.minted + mc
    &&& if s == r {
        post.owned_of(s) == pre.owned_of(s)
    } else {
        &&& post.owned_of(s) == pre.owned_of(s).take(n0 - bc)
        &&& post.owned_of(r) == pre.owned_of(r) + minted_ids(pre, mc)
    }
    &&& forall|a: Seq<char>| a != s && a != r ==> post.owned_of(a) == pre.owned_of(a)
    &&& forall|id: u128|
        is_burned(pre, s, r, amount, id) ==> !(#[trigger] post.owners().contains_key(id))
            && !post.approvals().contains_key(id)
    &&& forall|j: int|
        0 <= j < mc ==> #[trigger] post.owners().contains_key((pre.minted + j) as u128)
    &&& forall|j: int|
        0 <= j < mc ==> (#[trigger] post.owners()[(pre.minted + j) as u128]) == r
    &&& forall|id: u128|
        !is_burned(pre, s, r, amount, id) && !(pre.minted <= id < pre.minted + mc) ==> {
            &&& (#[trigger] post.owners().contains_key(id)) == pre.owners().contains_key(id)
            &&& (pre.owners().contains_key(id) ==> post.owners()[id] == pre.owners()[id])
            &&& post.approvals().contains_key(id) == pre.approvals().contains_key(id)
            &&& (pre.approvals().contains_key(id) ==> post.approvals()[id] == pre.approvals()[id])
        }
    &&& post.is_approved_for_all == pre.is_approved_for_all
    &&& post.whitelist == pre.whitelist
    &&& post.config == pre.config
    &&& post.metadata == pre.metadata
}

/// A swap-and-pop removal: the last element moves into the freed slot.
pub open spec fn seq_swap_remove(s: Seq<u128>, p: int) -> Seq<u128> {
    s.update(p, s.last()).drop_last()
}

/// Everything a successful direct discrete-unit transfer changes: exactly
/// one unit size of balance moves with the id, the id's approval is
/// cleared, and the id leaves the sender's list by swap-and-pop and joins
/// the end of the receiver's list.
pub open spec fn nft_transfer_post(pre: State, post: State, s: Seq<char>, r: Seq<char>, id: u128) -> bool {
    let u = pre.spec_unit();
    let bs = pre.spec_balance(s);
    let p = pre.owned_index@[id] as int;
    let sl = pre.owned_of(s);
    &&& post.balance_of@ == pre.balance_of@.insert(s, (bs - u) as u128).insert(
        r,
        if s == r {
            bs
        } else {
            (pre.spec_balance(r) + u) as u128
        },
    )
    &&& post.total() == pre.total()
    &&& post.minted == pre.minted
    &&& post.owners() == pre.owners().insert(id, r)
    &&& post.approvals() == pre.approvals().remove(id)
    &&& if s == r {
        post.owned_of(s) == seq_swap_remove(sl, p).push(id)
    } else {
        &&& post.owned_of(s) == seq_swap_remove(sl, p)
        &&& post.owned_of(r) == pre.owned_of(r).push(id)
    }
    &&& forall|a: Seq<char>| a != s && a != r ==> post.owned_of(a) == pre.owned_of(a)
    &&& post.allowance == pre.allowance
    &&& post.is_approved_for_all == pre.is_approved_for_all
    &&& post.whitelist == pre.whitelist
    &&& post.last_mint_seconds == pre.last_mint_seconds
    &&& post.config == pre.config
    &&& post.metadata == pre.metadata
}

/// `transfer_post` never reads the allowance or last-mint tables of the
/// earlier state: a state that differs from it only there satisfies the
/// same transfer description.
pub proof fn lemma_transfer_post_other_tables(pre1: State, pre2: State, post: State, s: Seq<char>, r: Seq<char>, amount: u128)
    requires
        transfer_post(pre1, post, s, r, amount),
        pre2.balance_of == pre1.balance_of,
        pre2.owned == pre1.owned,
        pre2.owner_of == pre1.owner_of,
        pre2.owned_index == pre1.owned_index,
        pre2.get_approved == pre1.get_approved,
        pre2.minted == pre1.minted,
        pre2.whitelist == pre1.whitelist,
        pre2.is_approved_for_all == pre1.is_approved_for_all,
        pre2.config == pre1.config,
        pre2.metadata == pre1.metadata,
    ensures
        transfer_post(pre2, post, s, r, amount),
{
    assert(pre2.owners() =~= pre1.owners());
    assert(pre2.approvals() =~= pre1.approvals());
    assert forall|a: Seq<char>| #[trigger] pre2.owned_of(a) == pre1.owned_of(a) by {}
    let bc = burned_count(pre1, s, r, amount);
    let mc = minted_count(pre1, s, r, amount);
    assert(burned_count(pre2, s, r, amount) == bc);
    assert(minted_count(pre2, s, r, amount) == mc);
    assert(minted_ids(pre2, mc) =~= minted_ids(pre1, mc));
    assert forall|a: Seq<char>|
        a != s && a != r implies post.owned_of(a) == pre2.owned_of(a) by {
        assert(post.owned_of(a) == pre1.owned_of(a));
    }
    assert forall|id: u128|
        is_burned(pre2, s, r, amount, id) implies !(#[trigger] post.owners().contains_key(id))
            && !post.approvals().contains_key(id) by {
        assert(is_burned(pre1, s, r, amount, id));
    }
    assert forall|j: int|
        0 <= j < mc implies #[trigger] post.owners().contains_key((pre2.minted + j) as u128) by {
        assert(post.owners().contains_key((pre1.minted + j) as u128));
    }
    assert forall|j: int|
        0 <= j < mc implies (#[trigger] post.owners()[(pre2.minted + j) as u128]) == r by {
        assert(post.owners()[(pre1.minted + j) as u128] == r);
    }
    assert forall|id: u128|
        !is_burned(pre2, s, r, amount, id) && !(pre2.minted <= id < pre2.minted + mc) implies {
        &&& (#[trigger] post.owners().contains_key(id)) == pre2.owners().contains_key(id)
        &&& (pre2.owners().contains_key(id) ==> post.owners()[id] == pre2.owners()[id])
        &&& post.approvals().contains_key(id) == pre2.approvals().contains_key(id)
        &&& (pre2.approvals().contains_key(id) ==> post.approvals()[id] == pre2.approvals()[id])
    } by {
        assert(!is_burned(pre1, s, r, amount, id));
    }
}

impl State {
    /// The reconciliation engine: moves `amount` base units from `sender`
    /// to `receiver`, then burns from the sender and mints to the receiver
    /// exactly as many discrete units as the balance changes demand, unless
    /// the respective side is whitelisted. Fails, without any effect, only
    /// when the sender's balance cannot cover the amount.
    pub fn _transfer_token(&mut self, sender: &String, receiver: &String, amount: u128) -> (res:
        Result<(), ContractError>)
        requires
            old(self).inv(),
            old(self).minted + old(self).metadata.total_supply <= u128::MAX,
        ensures
            match res {
                Ok(()) => {
                    &&& amount <= old(self).spec_balance(sender@)
                    &&& final(self).inv()
                    &&& transfer_post(*old(self), *final(self), sender@, receiver@, amount)
                    &&& final(self).allowance == old(self).allowance
                    &&& final(self).last_mint_seconds == old(self).last_mint_seconds
                },
                Err(e) => {
                    &&& e == ContractError::InsufficientBalance
                    &&& amount > old(self).spec_balance(sender@)
                    &&& *final(self) == *old(self)
                },
            },
    {
        let ghost pre = *old(self);
        let unit = self.get_unit();
        proof {
            lemma_pow10_positive((pre.metadata.decimals + 1) as nat);
        }
        let bs0 = self.balance_amount(sender);
        if amount > bs0 {
            return Err(ContractError::InsufficientBalance);
        }
        let br0 = self.balance_amount(receiver);
        self.balance_of.set_amount(sender.clone(), bs0 - amount);
        let br_mid = self.balance_amount(receiver);
        proof {
            self.balance_of.lemma_sum_bounds(receiver@);
        }
        self.balance_of.set_amount(receiver.clone(), br_mid + amount);
        let ghost mid = *self;
        let ghost n0 = pre.owned_of(sender@).len() as int;
        let ghost bc = burned_count(pre, sender@, receiver@, amount);
        proof {
            assert(mid.total() == pre.total());
            assert(mid.balance_of@ == pre.balance_of@.insert(sender@, (bs0 - amount) as u128).insert(
                receiver@,
                if sender@ == receiver@ {
                    bs0
                } else {
                    (br0 + amount) as u128
                },
            ));
            lemma_structure_same_tables(pre, mid);
            assert(mid.owned_of(sender@) =~= pre.owned_of(sender@).take(n0));
        }

        if !self.whitelisted(sender) {
            let bs_now = self.balance_amount(sender);
            proof {
                vstd::arithmetic::div_mod::lemma_div_is_ordered(
                    bs_now as int,
                    bs0 as int,
                    unit as int,
                );
                assert(pre.aligned(sender@));
                vstd::arithmetic::div_mod::lemma_div_pos_is_pos(bs_now as int, unit as int);
            }
            let to_burn = bs0 / unit - bs_now / unit;
            proof {
                assert(to_burn == bc);
                assert(bc <= n0);
            }
            let mut k: u128 = 0;
            while k < to_burn
                invariant
                    0 <= k <= to_burn,
                    to_burn == bc,
                    0 <= bc <= n0,
                    n0 == pre.owned_of(sender@).len(),
                    self.inv_structure(),
                    self.owned_of(sender@) == pre.owned_of(sender@).take(n0 - k),
                    forall|a: Seq<char>|
                        a != sender@ ==> self.owned_of(a) == pre.owned_of(a),
                    forall|id: u128|
                        in_suffix(pre.owned_of(sender@), n0 - k, id) ==> !(
                        #[trigger] self.owners().contains_key(id)) && !self.approvals().contains_key(
                            id,
                        ),
                    forall|id: u128|
                        !in_suffix(pre.owned_of(sender@), n0 - k, id) ==> {
                            &&& (#[trigger] self.owners().contains_key(id))
                                == pre.owners().contains_key(id)
                            &&& (pre.owners().contains_key(id) ==> self.owners()[id]
                                == pre.owners()[id])
                            &&& self.approvals().contains_key(id) == pre.approvals().contains_key(id)
                            &&& (pre.approvals().contains_key(id) ==> self.approvals()[id]
                                == pre.approvals()[id])
                        },
                    self.minted == pre.minted,
                    self.balance_of == mid.balance_of,
                    self.allowance == mid.allowance,
                    self.is_approved_for_all == mid.is_approved_for_all,
                    self.whitelist == mid.whitelist,
                    self.last_mint_seconds == mid.last_mint_seconds,
                    self.config == mid.config,
                    self.metadata == mid.metadata,
                decreases to_burn - k,
            {
                let ghost cur = *self;
                proof {
                    assert(cur.owned_of(sender@).len() == n0 - k > 0);
                }
                let _ = self._burn(sender);
                k = k + 1;
                proof {
                    let l = pre.owned_of(sender@);
                    let burned = cur.owned_of(sender@).last();
                    assert(burned == l[n0 - k]);
                    assert(self.owned_of(sender@) =~= l.take(n0 - k));
                    assert forall|id: u128|
                        in_suffix(l, n0 - k, id) implies !(
                    #[trigger] self.owners().contains_key(id)) && !self.approvals().contains_key(
                        id,
                    ) by {
                        let p = choose|p: int| n0 - k <= p < l.len() && l[p] == id;
                        if p > n0 - k {
                            assert(n0 - (k - 1) <= p < l.len() && l[p] == id);
                            assert(in_suffix(l, n0 - (k - 1), id));
                            assert(!cur.owners().contains_key(id));
                        } else {
                            assert(id == burned);
                        }
                    }
                    assert forall|id: u128| !in_suffix(l, n0 - k, id) implies {
                        &&& (#[trigger] self.owners().contains_key(id)) == pre.owners().contains_key(
                            id,
                        )
                        &&& (pre.owners().contains_key(id) ==> self.owners()[id]
                            == pre.owners()[id])
                        &&& self.approvals().contains_key(id) == pre.approvals().contains_key(id)
                        &&& (pre.approvals().contains_key(id) ==> self.approvals()[id]
                            == pre.approvals()[id])
                    } by {
                        assert(n0 - k <= n0 - k < l.len() && l[n0 - k] == burned);
                        assert(id != burned) by {
                            if id == burned {
                                assert(in_suffix(l, n0 - k, id));
                            }
                        }
                        assert(!in_suffix(l, n0 - (k - 1), id)) by {
                            if in_suffix(l, n0 - (k - 1), id) {
                                let p = choose|p: int|
                                    n0 - (k - 1) <= p < l.len() && l[p] == id;
                                assert(n0 - k <= p < l.len() && l[p] == id);
                                assert(in_suffix(l, n0 - k, id));
                            }
                        }
                    }
                }
            }
        } else {
            proof {
                assert(bc == 0);
                assert(self.owned_of(sender@) =~= pre.owned_of(sender@).take(n0 - 0));
            }
        }

        let ghost postburn = *self;
        let ghost mc = minted_count(pre, sender@, receiver@, amount);
        let ghost base_r = postburn.owned_of(receiver@);
        proof {
            assert(self.owned_of(receiver@) =~= base_r + minted_ids(pre, 0));
        }

        if !self.whitelisted(receiver) {
            let br_now = self.balance_amount(receiver);
            proof {
                if sender@ != receiver@ {
                    vstd::arithmetic::div_mod::lemma_div_is_ordered(
                        br0 as int,
                        br_now as int,
                        unit as int,
                    );
                } else {
                    assert(br_now == br0);
                }
                vstd::arithmetic::div_mod::lemma_div_pos_is_pos(br0 as int, unit as int);
            }
            let to_mint = br_now / unit - br0 / unit;
            proof {
                assert(to_mint == mc);
                // enough headroom in the minted counter for every new id
                self.balance_of.lemma_sum_bounds(receiver@);
                vstd::arithmetic::div_mod::lemma_div_nonincreasing(br_now as int, unit as int);
                assert(mc <= pre.metadata.total_supply);
            }
            let mut k: u128 = 0;
            while k < to_mint
                invariant
                    0 <= k <= to_mint,
                    to_mint == mc,
                    mc <= pre.metadata.total_supply,
                    pre.minted + pre.metadata.total_supply <= u128::MAX,
                    self.inv_structure(),
                    self.minted == pre.minted + k,
                    self.owned_of(receiver@) == base_r + minted_ids(pre, k as int),
                    base_r == postburn.owned_of(receiver@),
                    forall|a: Seq<char>|
                        a != receiver@ ==> self.owned_of(a) == postburn.owned_of(a),
                    forall|id: u128|
                        !(pre.minted <= id < pre.minted + k) ==> {
                            &&& (#[trigger] self.owners().contains_key(id))
                                == postburn.owners().contains_key(id)
                            &&& (postburn.owners().contains_key(id) ==> self.owners()[id]
                                == postburn.owners()[id])
                        },
                    self.get_approved == postburn.get_approved,
                    self.balance_of == mid.balance_of,
                    self.allowance == mid.allowance,
                    self.is_approved_for_all == mid.is_approved_for_all,
                    self.whitelist == mid.whitelist,
                    self.last_mint_seconds == mid.last_mint_seconds,
                    self.config == mid.config,
                    self.metadata == mid.metadata,
                decreases to_mint - k,
            {
                let ghost cur = *self;
                let _ = self._mint(receiver);
                k = k + 1;
                proof {
                    assert(self.owned_of(receiver@) =~= base_r + minted_ids(pre, k as int));
                    assert forall|id: u128| !(pre.minted <= id < pre.minted + k) implies {
                        &&& (#[trigger] self.owners().contains_key(id))
                            == postburn.owners().contains_key(id)
                        &&& (postburn.owners().contains_key(id) ==> self.owners()[id]
                            == postburn.owners()[id])
                    } by {
                        assert(cur.owners().contains_key(id) == postburn.owners().contains_key(id));
                    }
                }
            }
        } else {
            proof {
                assert(mc == 0);
            }
        }

        proof {
            let post = *self;
            assert(post.owned_of(receiver@) =~= base_r + minted_ids(pre, mc));
            assert(post.approvals() =~= postburn.approvals());
            if sender@ == receiver@ {
                assert(post.owned_of(sender@) =~= pre.owned_of(sender@));
            } else {
                assert(post.owned_of(sender@) =~= pre.owned_of(sender@).take(n0 - bc));
                assert(post.owned_of(receiver@) =~= pre.owned_of(receiver@) + minted_ids(pre, mc));
            }
            assert forall|a: Seq<char>|
                a != sender@ && a != receiver@ implies post.owned_of(a) == pre.owned_of(a) by {
                assert(postburn.owned_of(a) == pre.owned_of(a));
                assert(post.owned_of(a) == postburn.owned_of(a));
            }
            // every freshly minted id is listed by the receiver, so the
            // structural invariant makes the receiver its owner
            assert forall|j: int|
                0 <= j < mc implies #[trigger] post.owners().contains_key(
                (pre.minted + j) as u128,
            ) by {
                let idx = base_r.len() + j;
                assert(post.owned_of(receiver@).len() == base_r.len() + mc);
                assert(post.owned_of(receiver@)[idx] == minted_ids(pre, mc)[j]);
                assert(minted_ids(pre, mc)[j] == (pre.minted + j) as u128);
                assert(post.owners().contains_key(post.owned_of(receiver@)[idx]));
            }
            assert forall|j: int|
                0 <= j < mc implies (#[trigger] post.owners()[(pre.minted + j) as u128])
                == receiver@ by {
                let idx = base_r.len() + j;
                assert(post.owned_of(receiver@).len() == base_r.len() + mc);
                assert(post.owned_of(receiver@)[idx] == minted_ids(pre, mc)[j]);
                assert(minted_ids(pre, mc)[j] == (pre.minted + j) as u128);
                assert(post.owners().contains_key(post.owned_of(receiver@)[idx]));
                assert(post.owners()[post.owned_of(receiver@)[idx]] == receiver@);
            }
            // burned ids stay dead: every fresh id is at or above the old counter
            assert forall|id: u128|
                is_burned(pre, sender@, receiver@, amount, id) implies !(
            #[trigger] post.owners().contains_key(id)) && !post.approvals().contains_key(id) by {
                let l = pre.owned_of(sender@);
                assert(in_suffix(l, n0 - bc, id));
                let p = choose|p: int| n0 - bc <= p < l.len() && l[p] == id;
                assert(l[p] == id);
                assert(pre.owners().contains_key(id));
                assert(id < pre.minted);
                assert(!postburn.owners().contains_key(id));
                assert(!postburn.approvals().contains_key(id));
                assert(!(pre.minted <= id < pre.minted + mc));
            }
            // everything neither burned nor newly minted keeps its owner and
            // its single-unit approval
            assert forall|id: u128|
                !is_burned(pre, sender@, receiver@, amount, id) && !(pre.minted <= id < pre.minted
                    + mc) implies {
                &&& (#[trigger] post.owners().contains_key(id)) == pre.owners().contains_key(id)
                &&& (pre.owners().contains_key(id) ==> post.owners()[id] == pre.owners()[id])
                &&& post.approvals().contains_key(id) == pre.approvals().contains_key(id)
                &&& (pre.approvals().contains_key(id) ==> post.approvals()[id]
                    == pre.approvals()[id])
            } by {
                assert(!in_suffix(pre.owned_of(sender@), n0 - bc, id));
                assert(postburn.owners().contains_key(id) == pre.owners().contains_key(id));
                assert(postburn.approvals().contains_key(id) == pre.approvals().contains_key(id));
                assert(post.owners().contains_key(id) == postburn.owners().contains_key(id));
            }
            // alignment holds again for every address
            assert forall|a: Seq<char>| !post.spec_whitelisted(a) implies post.aligned(a) by {
                if a == sender@ && a == receiver@ {
                    assert(post.spec_balance(a) == pre.spec_balance(a));
                    assert(post.owned_of(a) =~= pre.owned_of(a));
                    assert(pre.aligned(a));
                } else if a == sender@ {
                    assert(post.spec_balance(a) == (bs0 - amount) as u128);
                    assert(pre.aligned(a));
                    assert(post.owned_of(a).len() == n0 - bc);
                } else if a == receiver@ {
                    assert(post.spec_balance(a) == (br0 + amount) as u128);
                    assert(pre.aligned(a));
                    assert(post.owned_of(a).len() == pre.owned_of(a).len() + mc);
                } else {
                    assert(post.spec_balance(a) == pre.spec_balance(a));
                    assert(post.owned_of(a) == pre.owned_of(a));
                    assert(pre.aligned(a));
                }
            }
            assert(transfer_post(pre, post, sender@, receiver@, amount));
        }
        Ok(())
    }

    /// The direct discrete-unit transfer: bypasses reconciliation and moves
    /// exactly one unit size of balance together with the id, whatever the
    /// two sides' fractional remainders are. Only the unit's current owner
    /// may send it. Fails, without any effect, with `NotFound` when the id
    /// has no owner, `InvalidSender` when the caller is not that owner, and
    /// `InsufficientBalance` when the owner's balance does not cover one
    /// unit.
    pub fn _transfer_nft(&mut self, sender: &String, receiver: &String, id: u128) -> (res: Result<
        (),
        ContractError,
    >)
        requires
            old(self).inv(),
        ensures
            match res {
                Ok(()) => {
                    &&& old(self).owners().contains_key(id)
                    &&& old(self).owners()[id] == sender@
                    &&& old(self).spec_balance(sender@) >= old(self).spec_unit()
                    &&& final(self).inv()
                    &&& nft_transfer_post(*old(self), *final(self), sender@, receiver@, id)
                },
                Err(e) => {
                    &&& *final(self) == *old(self)
                    &&& (e == ContractError::NotFound || e == ContractError::InvalidSender || e
                        == ContractError::InsufficientBalance)
                    &&& (e == ContractError::NotFound <==> !old(self).owners().contains_key(id))
                    &&& (e == ContractError::InvalidSender <==> old(self).owners().contains_key(id)
                        && old(self).owners()[id] != sender@)
                    &&& (e == ContractError::InsufficientBalance <==> old(
                        self,
                    ).owners().contains_key(id) && old(self).owners()[id] == sender@ && old(
                        self,
                    ).spec_balance(sender@) < old(self).spec_unit())
                },
            },
    {
        let ghost pre = *old(self);
        let unit = self.get_unit();
        proof {
            lemma_pow10_positive((pre.metadata.decimals + 1) as nat);
        }
        let owner_ok = match self.owner_of.get(&id) {
            Some(owner) => *owner == *sender,
            None => {
                return Err(ContractError::NotFound);
            },
        };
        if !owner_ok {
            return Err(ContractError::InvalidSender);
        }
        let bs = self.balance_amount(sender);
        if bs < unit {
            return Err(ContractError::InsufficientBalance);
        }
        proof {
            assert(pre.owners()[id] == sender@);
        }
        self.balance_of.set_amount(sender.clone(), bs - unit);
        let br_mid = self.balance_amount(receiver);
        proof {
            self.balance_of.lemma_sum_bounds(receiver@);
        }
        self.balance_of.set_amount(receiver.clone(), br_mid + unit);

        self.owner_of.insert(id, receiver.clone());
        self.get_approved.remove(&id);

        let ghost sl = pre.owned_of(sender@);
        let mut s_list = self.owned_list(sender);
        let p128 = match self.owned_index.get(&id) {
            Some(v) => *v,
            None => {
                proof {
                    assert(pre.owners().contains_key(id));
                    assert(pre.owned_index@.contains_key(id));
                    assert(self.owned_index@ == pre.owned_index@);
                    assert(false);
                }
                0
            },
        };
        proof {
            assert(p128 < sl.len());
            assert(sl.len() == s_list.len());
        }
        let p = p128 as usize;
        let update_id = s_list[s_list.len() - 1];
        s_list[p] = update_id;
        s_list.pop();
        self.owned.insert(sender.clone(), s_list);
        self.owned_index.insert(update_id, p128);
        let mut r_list = self.owned_list(receiver);
        r_list.push(id);
        let rl = r_list.len();
        self.owned.insert(receiver.clone(), r_list);
        self.owned_index.insert(id, (rl - 1) as u128);

        proof {
            let post = *self;
            let n0 = sl.len() as int;
            let pp = p as int;
            let moved = sl.last();
            assert(post.owners() =~= pre.owners().insert(id, receiver@));
            assert(post.approvals() =~= pre.approvals().remove(id));
            if sender@ == receiver@ {
                assert(post.owned_of(sender@) =~= seq_swap_remove(sl, pp).push(id));
            } else {
                assert(post.owned_of(sender@) =~= seq_swap_remove(sl, pp));
                assert(post.owned_of(receiver@) =~= pre.owned_of(receiver@).push(id));
            }
            // the only listed occurrence of the id was position p of the
            // sender's list; the moved element sat at the end
            assert forall|a: Seq<char>, q: int|
                0 <= q < pre.owned_of(a).len() && (a != sender@ || q != pp) implies #[trigger] pre.owned_of(
                a,
            )[q] != id by {
                let id2 = pre.owned_of(a)[q];
                assert(pre.owners().contains_key(id2) && pre.owners()[id2] == a
                    && pre.owned_index@[id2] == q as u128);
            }
            let post_s = post.owned_of(sender@);
            let post_r = post.owned_of(receiver@);
            assert forall|a: Seq<char>, q: int| 0 <= q < post.owned_of(a).len() implies {
                let id2 = #[trigger] post.owned_of(a)[q];
                &&& post.owners().contains_key(id2)
                &&& post.owners()[id2] == a
                &&& post.owned_index@.contains_key(id2)
                &&& post.owned_index@[id2] == q as u128
            } by {
                let id2 = post.owned_of(a)[q];
                if a == receiver@ && q == post.owned_of(a).len() - 1 {
                    assert(id2 == id);
                } else if a == sender@ && q == pp && pp < n0 - 1 {
                    assert(id2 == moved);
                    assert(pre.owned_of(a)[n0 - 1] == moved);
                    assert(moved != id);
                } else {
                    assert(pre.owned_of(a)[q] == id2);
                    assert(id2 != id);
                    assert(id2 != moved || (a == sender@ && q == n0 - 1));
                    assert(q != n0 - 1 || a != sender@);
                }
            }
            assert forall|id2: u128| #[trigger] post.owners().contains_key(id2) implies {
                &&& post.owned_index@.contains_key(id2)
                &&& post.owned_index@[id2] < post.owned_of(post.owners()[id2]).len()
                &&& post.owned_of(post.owners()[id2])[post.owned_index@[id2] as int] == id2
                &&& id2 < post.minted
            } by {
                if id2 == id {
                    assert(post.owned_of(receiver@)[post.owned_of(receiver@).len() - 1] == id);
                } else {
                    assert(pre.owners().contains_key(id2));
                    let a = pre.owners()[id2];
                    let q = pre.owned_index@[id2] as int;
                    assert(pre.owned_of(a)[q] == id2);
                    assert(q != pp || a != sender@);
                    if id2 == moved && a == sender@ {
                        assert(q == n0 - 1) by {
                            if q != n0 - 1 {
                                assert(pre.owned_index@[sl[n0 - 1]] == (n0 - 1) as u128);
                            }
                        }
                        assert(post.owned_of(sender@)[pp] == id2);
                    } else {
                        assert(post.owned_of(a)[q] == id2) by {
                            if a == sender@ {
                                assert(q != n0 - 1) by {
                                    if q == n0 - 1 {
                                        assert(id2 == moved);
                                    }
                                }
                            }
                        }
                    }
                }
            }
            // alignment: one whole unit of balance moved with one listed id
            assert forall|a: Seq<char>| !post.spec_whitelisted(a) implies post.aligned(a) by {
                let u = pre.spec_unit();
                assert(pre.aligned(a) || pre.spec_whitelisted(a));
                if a == sender@ && a == receiver@ {
                    assert(post.spec_balance(a) == pre.spec_balance(a));
                    assert(post.owned_of(a).len() == pre.owned_of(a).len());
                } else if a == sender@ {
                    assert(post.spec_balance(a) == (bs - unit) as u128);
                    vstd::arithmetic::div_mod::lemma_div_minus_one(bs as int, u);
                    assert(post.owned_of(a).len() == pre.owned_of(a).len() - 1);
                } else if a == receiver@ {
                    assert(post.spec_balance(a) == (pre.spec_balance(a) + unit) as u128);
                    vstd::arithmetic::div_mod::lemma_div_plus_one(pre.spec_balance(a) as int, u);
                    assert(post.owned_of(a).len() == pre.owned_of(a).len() + 1);
                } else {
                    assert(post.spec_balance(a) == pre.spec_balance(a));
                    assert(post.owned_of(a) == pre.owned_of(a));
                }
            }
            assert(nft_transfer_post(pre, post, sender@, receiver@, id));
        }
        Ok(())
    }
}

/// What a value transfer request ends as: success exactly when the sender's
/// balance covers the amount, with no effect otherwise.
pub open spec fn transfer_token_res(pre: State, post: State, s: Seq<char>, r: Seq<char>, amount: u128, res: Result<(), ContractError>) -> bool {
    match res {
        Ok(()) => {
            &&& amount <= pre.spec_balance(s)
            &&& post.inv()
            &&& transfer_post(pre, post, s, r, amount)
            &&& post.allowance == pre.allowance
            &&& post.last_mint_seconds == pre.last_mint_seconds
        },
        Err(e) => {
            &&& e == ContractError::InsufficientBalance
            &&& amount > pre.spec_balance(s)
            &&& post == pre
        },
    }
}

/// What a discrete-unit transfer request with a textual id ends as: a
/// malformed id is rejected outright, and otherwise the unit moves exactly
/// when the caller owns it and its balance covers one unit.
pub open spec fn transfer_nft_res(pre: State, post: State, s: Seq<char>, r: Seq<char>, token_id: Seq<char>, res: Result<(), ContractError>) -> bool {
    if !is_dec_digits(token_id) || digits_val(token_id) > u128::MAX {
        res == Err::<(), ContractError>(ContractError::InvalidInput) && post == pre
    } else {
        let id = digits_val(token_id) as u128;
        match res {
            Ok(()) => {
                &&& pre.owners().contains_key(id)
                &&& pre.owners()[id] == s
                &&& pre.spec_balance(s) >= pre.spec_unit()
                &&& post.inv()
                &&& nft_transfer_post(pre, post, s, r, id)
            },
            Err(e) => {
                &&& post == pre
                &&& (e == ContractError::NotFound <==> !pre.owners().contains_key(id))
                &&& (e == ContractError::InvalidSender <==> pre.owners().contains_key(id)
                    && pre.owners()[id] != s)
                &&& (e == ContractError::InsufficientBalance <==> pre.owners().contains_key(id)
                    && pre.owners()[id] == s && pre.spec_balance(s) < pre.spec_unit())
                &&& (e == ContractError::NotFound || e == ContractError::InvalidSender || e
                    == ContractError::InsufficientBalance)
            },
        }
    }
}

/// What a whitelist update ends as: only the admin may set the flag, and
/// the invariant survives unless a misaligned address is taken off the
/// whitelist.
pub open spec fn set_whitelist_post(pre: State, post: State, sender: Seq<char>, target: Seq<char>, flag: bool, res: Result<(), ContractError>) -> bool {
    match res {
        Ok(()) => {
            &&& sender == pre.config.admin@
            &&& post.whitelist@ == pre.whitelist@.insert(target, flag)
            &&& post.balance_of == pre.balance_of
            &&& post.owned == pre.owned
            &&& post.owner_of == pre.owner_of
            &&& post.owned_index == pre.owned_index
            &&& post.get_approved == pre.get_approved
            &&& post.allowance == pre.allowance
            &&& post.is_approved_for_all == pre.is_approved_for_all
            &&& post.last_mint_seconds == pre.last_mint_seconds
            &&& post.minted == pre.minted
            &&& post.config == pre.config
            &&& post.metadata == pre.metadata
            &&& (post.inv() <==> (flag || pre.aligned(target)))
        },
        Err(e) => {
            &&& e == ContractError::Unauthorized
            &&& sender != pre.config.admin@
            &&& post == pre
        },
    }
}

/// What an approval request ends as. One numeric argument serves two
/// purposes: a value in `(0, minted]` is treated as a discrete-unit id and
/// requires the caller to own the unit or be an operator of its owner; any
/// other value, zero included, overwrites the caller's fungible allowance
/// for the spender.
pub open spec fn approve_post(pre: State, post: State, sender: Seq<char>, spender: Seq<char>, amount_or_id: u128, res: Result<(), ContractError>) -> bool {
    if 0 < amount_or_id <= pre.minted {
        match res {
            Ok(()) => {
                &&& pre.owners().contains_key(amount_or_id)
                &&& (pre.owners()[amount_or_id] == sender || pre.spec_operator(
                    pre.owners()[amount_or_id],
                    sender,
                ))
                &&& post.inv()
                &&& post.approvals() == pre.approvals().insert(amount_or_id, spender)
                &&& post.balance_of == pre.balance_of
                &&& post.owned == pre.owned
                &&& post.owner_of == pre.owner_of
                &&& post.owned_index == pre.owned_index
                &&& post.allowance == pre.allowance
                &&& post.is_approved_for_all == pre.is_approved_for_all
                &&& post.whitelist == pre.whitelist
                &&& post.last_mint_seconds == pre.last_mint_seconds
                &&& post.minted == pre.minted
                &&& post.config == pre.config
                &&& post.metadata == pre.metadata
            },
            Err(e) => {
                &&& post == pre
                &&& (e == ContractError::NotFound <==> !pre.owners().contains_key(amount_or_id))
                &&& (e == ContractError::Unauthorized <==> pre.owners().contains_key(amount_or_id)
                    && pre.owners()[amount_or_id] != sender && !pre.spec_operator(
                    pre.owners()[amount_or_id],
                    sender,
                ))
                &&& (e == ContractError::NotFound || e == ContractError::Unauthorized)
            },
        }
    } else {
        match res {
            Ok(()) => {
                &&& post.inv()
                &&& post.allowance@ == pre.allowance@.insert((sender, spender), amount_or_id)
                &&& post.balance_of == pre.balance_of
                &&& post.owned == pre.owned
                &&& post.owner_of == pre.owner_of
                &&& post.owned_index == pre.owned_index
                &&& post.get_approved == pre.get_approved
                &&& post.is_approved_for_all == pre.is_approved_for_all
                &&& post.whitelist == pre.whitelist
                &&& post.last_mint_seconds == pre.last_mint_seconds
                &&& post.minted == pre.minted
                &&& post.config == pre.config
                &&& post.metadata == pre.metadata
            },
            Err(_) => false,
        }
    }
}

/// What an operator-approval update ends as: it always succeeds and only
/// toggles the caller's flag for the operator.
pub open spec fn set_approval_for_all_post(pre: State, post: State, sender: Seq<char>, operator: Seq<char>, approved: bool, res: Result<(), ContractError>) -> bool {
    &&& res is Ok
    &&& post.inv()
    &&& post.is_approved_for_all@ == pre.is_approved_for_all@.insert((sender, operator), approved)
    &&& post.balance_of == pre.balance_of
    &&& post.owned == pre.owned
    &&& post.owner_of == pre.owner_of
    &&& post.owned_index == pre.owned_index
    &&& post.get_approved == pre.get_approved
    &&& post.allowance == pre.allowance
    &&& post.whitelist == pre.whitelist
    &&& post.last_mint_seconds == pre.last_mint_seconds
    &&& post.minted == pre.minted
    &&& post.config == pre.config
    &&& post.metadata == pre.metadata
}

/// What an allowance increase ends as: an overflow-checked addition to the
/// caller's grant for the spender.
pub open spec fn increase_allowance_post(pre: State, post: State, sender: Seq<char>, spender: Seq<char>, amount: u128, res: Result<(), ContractError>) -> bool {
    let cur = pre.spec_allowance(sender, spender);
    match res {
        Ok(()) => {
            &&& cur + amount <= u128::MAX
            &&& post.inv()
            &&& post.allowance@ == pre.allowance@.insert((sender, spender), (cur + amount) as u128)
            &&& post.balance_of == pre.balance_of
            &&& post.owned == pre.owned
            &&& post.owner_of == pre.owner_of
            &&& post.owned_index == pre.owned_index
            &&& post.get_approved == pre.get_approved
            &&& post.is_approved_for_all == pre.is_approved_for_all
            &&& post.whitelist == pre.whitelist
            &&& post.last_mint_seconds == pre.last_mint_seconds
            &&& post.minted == pre.minted
            &&& post.config == pre.config
            &&& post.metadata == pre.metadata
        },
        Err(e) => {
            &&& e == ContractError::Overflow
            &&& cur + amount > u128::MAX
            &&& post == pre
        },
    }
}

/// What a delegated transfer ends as: a zero amount is refused, the
/// caller's allowance from the owner must cover the amount and is spent,
/// and the value then moves as a plain transfer.
pub open spec fn transfer_from_post(pre: State, post: State, sender: Seq<char>, from: Seq<char>, to: Seq<char>, amount: u128, res: Result<(), ContractError>) -> bool {
    let allw = pre.spec_allowance(from, sender);
    match res {
        Ok(()) => {
            &&& amount > 0
            &&& allw >= amount
            &&& amount <= pre.spec_balance(from)
            &&& post.inv()
            &&& post.allowance@ == pre.allowance@.insert((from, sender), (allw - amount) as u128)
            &&& transfer_post(pre, post, from, to, amount)
            &&& post.last_mint_seconds == pre.last_mint_seconds
        },
        Err(e) => {
            &&& post == pre
            &&& (e == ContractError::Unauthorized <==> amount == 0)
            &&& (e == ContractError::InsufficientAllowance <==> amount > 0 && allw < amount)
            &&& (e == ContractError::InsufficientBalance <==> amount > 0 && allw >= amount
                && amount > pre.spec_balance(from))
            &&& (e == ContractError::Unauthorized || e == ContractError::InsufficientAllowance || e
                == ContractError::InsufficientBalance)
        },
    }
}

/// What a self-service mint claim ends as: it is refused while the treasury
/// is empty, rate-limited to one claim per address per 86,400-second
/// window, and otherwise moves exactly one unit size from the treasury to
/// the caller, which mints the caller one discrete unit.
pub open spec fn mint_post(pre: State, post: State, sender: Seq<char>, contract: Seq<char>, now: u64, res: Result<(), ContractError>) -> bool {
    let treasury = pre.spec_balance(contract);
    let last = pre.spec_last_mint(sender);
    let u = pre.spec_unit();
    match res {
        Ok(()) => {
            &&& treasury > 0
            &&& now >= last + 86400
            &&& treasury >= u
            &&& post.inv()
            &&& post.last_mint_seconds@ == pre.last_mint_seconds@.insert(sender, now)
            &&& transfer_post(pre, post, contract, sender, u as u128)
            &&& post.allowance == pre.allowance
        },
        Err(e) => {
            &&& post == pre
            &&& (e == ContractError::OutOfSupply <==> treasury == 0)
            &&& (e == ContractError::AlreadyMintedToday <==> treasury > 0 && now < last + 86400)
            &&& (e == ContractError::InsufficientBalance <==> treasury > 0 && now >= last + 86400
                && treasury < u)
            &&& (e == ContractError::OutOfSupply || e == ContractError::AlreadyMintedToday || e
                == ContractError::InsufficientBalance)
        },
    }
}

/// What an airdrop ends as: only the admin may trigger it; the requested
/// number of whole units moves from the treasury to the recipient as a
/// plain transfer.
pub open spec fn airdrop_post(pre: State, post: State, sender: Seq<char>, contract: Seq<char>, recipient: Seq<char>, nft_amount: u128, res: Result<(), ContractError>) -> bool {
    let u = pre.spec_unit();
    if sender != pre.config.admin@ {
        res == Err::<(), ContractError>(ContractError::Unauthorized) && post == pre
    } else if nft_amount * u > u128::MAX {
        res == Err::<(), ContractError>(ContractError::Overflow) && post == pre
    } else {
        transfer_token_res(pre, post, contract, recipient, (nft_amount * u) as u128, res)
    }
}

impl State {
    /// Sets an address's whitelist flag. Only the admin may do so. Taking a
    /// misaligned address off the whitelist re-subjects it to an invariant
    /// it no longer satisfies; the contract records exactly when the
    /// invariant survives.
    pub fn execute_set_whitelist(&mut self, sender: &String, target: String, state: bool) -> (res:
        Result<(), ContractError>)
        requires
            old(self).inv(),
        ensures
            set_whitelist_post(*old(self), *final(self), sender@, target@, state, res),
    {
        let ghost pre = *old(self);
        if !(*sender == self.config.admin) {
            return Err(ContractError::Unauthorized);
        }
        let ghost t = target@;
        self.whitelist.insert(target, state);
        proof {
            let post = *self;
            lemma_structure_same_tables(pre, post);
            if state || pre.aligned(t) {
                assert forall|a: Seq<char>| !post.spec_whitelisted(a) implies post.aligned(a) by {
                    assert(post.owned_of(a) == pre.owned_of(a));
                    if a == t {
                        assert(!state);
                        assert(pre.aligned(t));
                    } else {
                        assert(!pre.spec_whitelisted(a));
                        assert(pre.aligned(a));
                    }
                }
                assert(post.inv());
            } else {
                assert(!post.spec_whitelisted(t));
                assert(post.owned_of(t) == pre.owned_of(t));
                assert(!post.aligned(t));
                assert(!post.inv());
            }
        }
        Ok(())
    }

    /// The approval resolver: one entry point that either approves a
    /// spender for one discrete unit or overwrites a fungible allowance,
    /// depending on whether the argument reads as a live-range id.
    pub fn execute_approve(&mut self, sender: &String, spender: String, amount_or_id: u128) -> (res:
        Result<(), ContractError>)
        requires
            old(self).inv(),
        ensures
            approve_post(*old(self), *final(self), sender@, spender@, amount_or_id, res),
    {
        let ghost pre = *old(self);
        let minted = self.minted;
        if amount_or_id <= minted && amount_or_id > 0 {
            let owner = match self.owner_of.get(&amount_or_id) {
                Some(o) => o.clone(),
                None => {
                    return Err(ContractError::NotFound);
                },
            };
            if !(*sender == owner) {
                let pair = AddrPair { owner: owner, grantee: sender.clone() };
                if !self.is_approved_for_all.get_or(&pair, false) {
                    return Err(ContractError::Unauthorized);
                }
            }
            self.get_approved.insert(amount_or_id, spender);
            proof {
                let post = *self;
                assert(post.owners() =~= pre.owners());
                assert(post.approvals() =~= pre.approvals().insert(amount_or_id, spender@));
                assert forall|a: Seq<char>| #[trigger] post.owned_of(a) == pre.owned_of(a) by {}
                assert forall|a: Seq<char>, p: int| 0 <= p < post.owned_of(a).len() implies {
                    let id = #[trigger] post.owned_of(a)[p];
                    &&& post.owners().contains_key(id)
                    &&& post.owners()[id] == a
                    &&& post.owned_index@.contains_key(id)
                    &&& post.owned_index@[id] == p as u128
                } by {
                    assert(pre.owned_of(a)[p] == post.owned_of(a)[p]);
                }
                assert forall|id: u128| #[trigger] post.owners().contains_key(id) implies {
                    &&& post.owned_index@.contains_key(id)
                    &&& post.owned_index@[id] < post.owned_of(post.owners()[id]).len()
                    &&& post.owned_of(post.owners()[id])[post.owned_index@[id] as int] == id
                    &&& id < post.minted
                } by {
                    assert(pre.owners().contains_key(id));
                    assert(post.owned_of(pre.owners()[id]) == pre.owned_of(pre.owners()[id]));
                }
                assert forall|id: u128| #[trigger] post.approvals().contains_key(id) implies post.owners().contains_key(
                    id,
                ) by {
                    if id != amount_or_id {
                        assert(pre.approvals().contains_key(id));
                    }
                }
                assert forall|a: Seq<char>| !post.spec_whitelisted(a) implies post.aligned(a) by {
                    assert(!pre.spec_whitelisted(a));
                    assert(pre.aligned(a));
                    assert(post.owned_of(a) == pre.owned_of(a));
                }
            }
            Ok(())
        } else {
            self.allowance.insert(
                AddrPair { owner: sender.clone(), grantee: spender },
                amount_or_id,
            );
            proof {
                lemma_inv_same_core(pre, *self);
            }
            Ok(())
        }
    }

    /// Toggles the caller's operator approval for `operator`.
    pub fn execute_set_approval_for_all(&mut self, sender: &String, operator: String, approved: bool) -> (res: Result<(), ContractError>)
        requires
            old(self).inv(),
        ensures
            set_approval_for_all_post(*old(self), *final(self), sender@, operator@, approved, res),
    {
        let ghost pre = *old(self);
        self.is_approved_for_all.insert(
            AddrPair { owner: sender.clone(), grantee: operator },
            approved,
        );
        proof {
            lemma_inv_same_core(pre, *self);
        }
        Ok(())
    }

    /// Adds to the caller's fungible allowance for `spender`, refusing an
    /// addition that would wrap.
    pub fn execute_increase_allowance(&mut self, sender: &String, spender: String, amount: u128) -> (res: Result<(), ContractError>)
        requires
            old(self).inv(),
        ensures
            increase_allowance_post(*old(self), *final(self), sender@, spender@, amount, res),
    {
        let ghost pre = *old(self);
        let pair = AddrPair { owner: sender.clone(), grantee: spender };
        let cur = self.allowance.get_or(&pair, 0);
        if amount > u128::MAX - cur {
            return Err(ContractError::Overflow);
        }
        self.allowance.insert(pair, cur + amount);
        proof {
            lemma_inv_same_core(pre, *self);
        }
        Ok(())
    }

    /// Moves value on behalf of its owner: the caller's allowance must
    /// cover the amount and is reduced by it; the value then moves as a
    /// plain transfer. A zero amount is refused.
    pub fn execute_transfer_from(&mut self, sender: &String, from: String, to: String, amount: u128) -> (res: Result<(), ContractError>)
        requires
            old(self).inv(),
            old(self).minted + old(self).metadata.total_supply <= u128::MAX,
        ensures
            transfer_from_post(*old(self), *final(self), sender@, from@, to@, amount, res),
    {
        let ghost pre = *old(self);
        if amount == 0 {
            return Err(ContractError::Unauthorized);
        }
        let pair = AddrPair { owner: from.clone(), grantee: sender.clone() };
        let allw = self.allowance.get_or(&pair, 0);
        if allw < amount {
            return Err(ContractError::InsufficientAllowance);
        }
        if amount > self.balance_amount(&from) {
            return Err(ContractError::InsufficientBalance);
        }
        self.allowance.insert(pair, allw - amount);
        let ghost mid = *self;
        proof {
            lemma_inv_same_core(pre, mid);
        }
        let r = self._transfer_token(&from, &to, amount);
        proof {
            if r is Err {
                assert(false);
            }
            lemma_transfer_post_other_tables(mid, pre, *self, from@, to@, amount);
        }
        r
    }

    /// The mint gate: one claim per address per rolling 86,400-second
    /// window, each claim drawing exactly one unit size from the treasury,
    /// which mints the caller one discrete unit.
    pub fn execute_mint(&mut self, sender: &String, contract_address: &String, now_seconds: u64) -> (res: Result<(), ContractError>)
        requires
            old(self).inv(),
            old(self).minted + old(self).metadata.total_supply <= u128::MAX,
        ensures
            mint_post(*old(self), *final(self), sender@, contract_address@, now_seconds, res),
    {
        let ghost pre = *old(self);
        let treasury = self.balance_amount(contract_address);
        if treasury == 0 {
            return Err(ContractError::OutOfSupply);
        }
        let last = self.last_mint_seconds.get_or(sender, 0);
        if (now_seconds as u128) < last as u128 + 86400 {
            return Err(ContractError::AlreadyMintedToday);
        }
        let unit = self.get_unit();
        if treasury < unit {
            return Err(ContractError::InsufficientBalance);
        }
        self.last_mint_seconds.insert(sender.clone(), now_seconds);
        let ghost mid = *self;
        proof {
            lemma_inv_same_core(pre, mid);
        }
        let r = self._transfer_token(contract_address, sender, unit);
        proof {
            if r is Err {
                assert(false);
            }
            lemma_transfer_post_other_tables(mid, pre, *self, contract_address@, sender@, unit);
        }
        r
    }

    /// Sends whole units from the treasury to a recipient. Only the admin
    /// may do so.
    pub fn execute_airdrop_nft(&mut self, sender: &String, contract_address: &String, recipient: String, nft_amount: u128) -> (res: Result<(), ContractError>)
        requires
            old(self).inv(),
            old(self).minted + old(self).metadata.total_supply <= u128::MAX,
        ensures
            airdrop_post(
                *old(self),
                *final(self),
                sender@,
                contract_address@,
                recipient@,
                nft_amount,
                res,
            ),
    {
        if !(*sender == self.config.admin) {
            return Err(ContractError::Unauthorized);
        }
        let unit = self.get_unit();
        proof {
            lemma_pow10_positive((self.metadata.decimals + 1) as nat);
        }
        let q = u128::MAX / unit;
        proof {
            vstd::arithmetic::div_mod::lemma_fundamental_div_mod(u128::MAX as int, unit as int);
            vstd::arithmetic::div_mod::lemma_mod_bound(u128::MAX as int, unit as int);
        }
        let ghost rem = (u128::MAX as int) % (unit as int);
        if nft_amount > q {
            proof {
                assert(nft_amount as int * (unit as int) > u128::MAX as int) by (nonlinear_arith)
                    requires
                        nft_amount as int >= q as int + 1,
                        u128::MAX as int == (unit as int) * (q as int) + rem,
                        0 <= rem < unit as int,
                        unit as int >= 1,
                {}
            }
            return Err(ContractError::Overflow);
        }
        proof {
            assert(nft_amount as int * (unit as int) <= u128::MAX as int) by (nonlinear_arith)
                requires
                    0 <= nft_amount as int <= q as int,
                    u128::MAX as int == (unit as int) * (q as int) + rem,
                    0 <= rem < unit as int,
                    unit as int >= 1,
            {}
        }
        self._transfer_token(contract_address, &recipient, nft_amount * unit)
    }

    /// Moves value from the caller to a recipient through the
    /// reconciliation engine.
    pub fn execute_transfer(&mut self, sender: &String, recipient: String, amount: u128) -> (res:
        Result<(), ContractError>)
        requires
            old(self).inv(),
            old(self).minted + old(self).metadata.total_supply <= u128::MAX,
        ensures
            transfer_token_res(*old(self), *final(self), sender@, recipient@, amount, res),
    {
        self._transfer_token(sender, &recipient, amount)
    }

    /// Moves value from the caller to a receiving contract; the ledger
    /// state changes exactly as for a plain transfer, and the host forwards
    /// the payload to the receiver.
    pub fn execute_send(&mut self, sender: &String, contract: String, amount: u128, _msg: &Vec<u8>) -> (res: Result<(), ContractError>)
        requires
            old(self).inv(),
            old(self).minted + old(self).metadata.total_supply <= u128::MAX,
        ensures
            transfer_token_res(*old(self), *final(self), sender@, contract@, amount, res),
    {
        self._transfer_token(sender, &contract, amount)
    }

    /// Moves one discrete unit, named by its decimal id, from the caller to
    /// a recipient.
    pub fn execute_transfer_nft(&mut self, sender: &String, recipient: String, token_id: &String) -> (res: Result<(), ContractError>)
        requires
            old(self).inv(),
        ensures
            transfer_nft_res(*old(self), *final(self), sender@, recipient@, token_id@, res),
    {
        let id = match parse_u128(token_id.as_str()) {
            Some(id) => id,
            None => {
                return Err(ContractError::InvalidInput);
            },
        };
        self._transfer_nft(sender, &recipient, id)
    }

    /// Moves one discrete unit from the caller to a receiving contract; the
    /// ledger state changes exactly as for a direct unit transfer, and the
    /// host forwards the payload.
    pub fn execute_send_nft(&mut self, sender: &String, contract: String, token_id: &String, _msg: &Vec<u8>) -> (res: Result<(), ContractError>)
        requires
            old(self).inv(),
        ensures
            transfer_nft_res(*old(self), *final(self), sender@, contract@, token_id@, res),
    {
        let id = match parse_u128(token_id.as_str()) {
            Some(id) => id,
            None => {
                return Err(ContractError::InvalidInput);
            },
        };
        self._transfer_nft(sender, &contract, id)
    }

    /// Resets the total supply to a new figure, keeping what has already
    /// been distributed: the treasury is re-credited with the new supply
    /// minus what other holders have. The treasury must be whitelisted, as
    /// instantiation leaves it, and the already-distributed part must not
    /// exceed the new figure.
    pub fn migrate(&mut self, contract_address: &String) -> (res: Result<(), ContractError>)
        requires
            old(self).inv(),
            old(self).spec_whitelisted(contract_address@),
            old(self).metadata.total_supply - old(self).spec_balance(contract_address@)
                <= 100000000000000,
        ensures
            res is Ok,
            final(self).metadata.total_supply == 100000000000000,
            final(self).metadata.name == old(self).metadata.name,
            final(self).metadata.symbol == old(self).metadata.symbol,
            final(self).metadata.decimals == old(self).metadata.decimals,
            final(self).metadata.token_uri == old(self).metadata.token_uri,
            final(self).balance_of@ == old(self).balance_of@.insert(
                contract_address@,
                (100000000000000 - (old(self).metadata.total_supply - old(self).spec_balance(
                    contract_address@,
                ))) as u128,
            ),
            final(self).inv(),
            final(self).owned == old(self).owned,
            final(self).owner_of == old(self).owner_of,
            final(self).owned_index == old(self).owned_index,
            final(self).get_approved == old(self).get_approved,
            final(self).allowance == old(self).allowance,
            final(self).is_approved_for_all == old(self).is_approved_for_all,
            final(self).whitelist == old(self).whitelist,
            final(self).last_mint_seconds == old(self).last_mint_seconds,
            final(self).minted == old(self).minted,
            final(self).config == old(self).config,
    {
        let ghost pre = *old(self);
        let new_total_supply: u128 = 100000000000000;
        let balance = self.balance_amount(contract_address);
        proof {
            self.balance_of.lemma_sum_bounds(contract_address@);
        }
        let used = self.metadata.total_supply - balance;
        self.balance_of.set_amount(contract_address.clone(), new_total_supply - used);
        self.metadata.total_supply = new_total_supply;
        proof {
            let post = *self;
            lemma_structure_same_tables(pre, post);
            assert forall|a: Seq<char>| !post.spec_whitelisted(a) implies post.aligned(a) by {
                assert(a != contract_address@);
                assert(post.owned_of(a) == pre.owned_of(a));
                assert(post.spec_balance(a) == pre.spec_balance(a));
                assert(!pre.spec_whitelisted(a));
                assert(pre.aligned(a));
            }
        }
        Ok(())
    }

    /// The admin.
    pub fn query_config(&self) -> (r: ConfigResponse)
        ensures
            r.admin@ == self.config.admin@,
    {
        ConfigResponse { admin: self.config.admin.clone() }
    }

    /// An address's balance; an address without an entry is unknown to the
    /// ledger and reported as such.
    pub fn query_balance(&self, address: &String) -> (r: Result<u128, ContractError>)
        requires
            self.balance_of.wf(),
        ensures
            match r {
                Ok(v) => self.balance_of@.contains_key(address@) && v == self.balance_of@[address@],
                Err(e) => e == ContractError::NotFound && !self.balance_of@.contains_key(address@),
            },
    {
        match self.balance_of.get(address) {
            Some(v) => Ok(*v),
            None => Err(ContractError::NotFound),
        }
    }

    /// The token metadata.
    pub fn query_token_info(&self) -> (r: Metadata)
        ensures
            r.name@ == self.metadata.name@,
            r.symbol@ == self.metadata.symbol@,
            r.decimals == self.metadata.decimals,
            r.total_supply == self.metadata.total_supply,
            r.token_uri@ == self.metadata.token_uri@,
    {
        Metadata {
            name: self.metadata.name.clone(),
            symbol: self.metadata.symbol.clone(),
            decimals: self.metadata.decimals,
            total_supply: self.metadata.total_supply,
            token_uri: self.metadata.token_uri.clone(),
        }
    }

    /// The minting authority and its cap: the admin, capped at the total
    /// supply.
    pub fn query_minter(&self) -> (r: (String, u128))
        ensures
            r.0@ == self.config.admin@,
            r.1 == self.metadata.total_supply,
    {
        (self.config.admin.clone(), self.metadata.total_supply)
    }

    /// The owner of the discrete unit named by a decimal id.
    pub fn query_owner_of(&self, token_id: &String) -> (r: Result<String, ContractError>)
        requires
            self.owner_of.wf(),
        ensures
            match r {
                Ok(owner) => {
                    &&& is_dec_digits(token_id@)
                    &&& digits_val(token_id@) <= u128::MAX
                    &&& self.owners().contains_key(digits_val(token_id@) as u128)
                    &&& owner@ == self.owners()[digits_val(token_id@) as u128]
                },
                Err(e) => {
                    &&& (e == ContractError::InvalidInput <==> !is_dec_digits(token_id@)
                        || digits_val(token_id@) > u128::MAX)
                    &&& (e == ContractError::NotFound <==> is_dec_digits(token_id@) && digits_val(
                        token_id@,
                    ) <= u128::MAX && !self.owners().contains_key(digits_val(token_id@) as u128))
                    &&& (e == ContractError::InvalidInput || e == ContractError::NotFound)
                },
            },
    {
        let id = match parse_u128(token_id.as_str()) {
            Some(id) => id,
            None => {
                return Err(ContractError::InvalidInput);
            },
        };
        match self.owner_of.get(&id) {
            Some(owner) => Ok(owner.clone()),
            None => Err(ContractError::NotFound),
        }
    }

    /// The ids an address owns, in list order; an address without an entry
    /// is reported as unknown.
    pub fn query_owned(&self, address: &String) -> (r: Result<Vec<u128>, ContractError>)
        requires
            self.owned.wf(),
        ensures
            match r {
                Ok(ids) => self.owned@.contains_key(address@) && ids@ == self.owned_of(address@),
                Err(e) => e == ContractError::NotFound && !self.owned@.contains_key(address@),
            },
    {
        match self.owned.get(address) {
            Some(v) => {
                let r = v.clone();
                proof {
                    assert(r@ =~= v@);
                }
                Ok(r)
            },
            None => Err(ContractError::NotFound),
        }
    }

    /// How many ids have ever been assigned, narrowed to the host's count
    /// type.
    pub fn query_num_tokens(&self) -> (r: u64)
        ensures
            r == self.minted as u64,
    {
        #[verifier::truncate]
        (self.minted as u64)
    }

    /// The display data for a unit's metadata query: the configured base
    /// URI and the derived picture index, `(id % 10) + 1`. The id only
    /// needs to parse; it is a cosmetic mapping, not an ownership lookup.
    pub fn query_nft_info(&self, token_id: &String) -> (r: Result<(String, u128), ContractError>)
        ensures
            match r {
                Ok(info) => {
                    &&& is_dec_digits(token_id@)
                    &&& digits_val(token_id@) <= u128::MAX
                    &&& info.0@ == self.metadata.token_uri@
                    &&& info.1 == digits_val(token_id@) as u128 % 10 + 1
                },
                Err(e) => e == ContractError::InvalidInput && (!is_dec_digits(token_id@)
                    || digits_val(token_id@) > u128::MAX),
            },
    {
        let id = match parse_u128(token_id.as_str()) {
            Some(id) => id,
            None => {
                return Err(ContractError::InvalidInput);
            },
        };
        let token_uri_id = (id % 10) + 1;
        Ok((self.metadata.token_uri.clone(), token_uri_id))
    }

    /// The single dispatch point for state-changing messages, as the host
    /// calls it: each arm behaves exactly as the named operation.
    pub fn execute(&mut self, ctx: &MsgCtx, msg: ExecuteMsg) -> (res: Result<(), ContractError>)
        requires
            old(self).inv(),
            old(self).minted + old(self).metadata.total_supply <= u128::MAX,
        ensures
            match msg {
                ExecuteMsg::SetWhitelist { target, state } => set_whitelist_post(
                    *old(self),
                    *final(self),
                    ctx.sender@,
                    target@,
                    state,
                    res,
                ),
                ExecuteMsg::Approve { spender, amount_or_id } => approve_post(
                    *old(self),
                    *final(self),
                    ctx.sender@,
                    spender@,
                    amount_or_id,
                    res,
                ),
                ExecuteMsg::SetApprovalForAll { operator, approved } => set_approval_for_all_post(
                    *old(self),
                    *final(self),
                    ctx.sender@,
                    operator@,
                    approved,
                    res,
                ),
                ExecuteMsg::IncreaseAllowance { spender, amount } => increase_allowance_post(
                    *old(self),
                    *final(self),
                    ctx.sender@,
                    spender@,
                    amount,
                    res,
                ),
                ExecuteMsg::TransferFrom { owner, recipient, amount } => transfer_from_post(
                    *old(self),
                    *final(self),
                    ctx.sender@,
                    owner@,
                    recipient@,
                    amount,
                    res,
                ),
                ExecuteMsg::Transfer { recipient, amount } => transfer_token_res(
                    *old(self),
                    *final(self),
                    ctx.sender@,
                    recipient@,
                    amount,
                    res,
                ),
                ExecuteMsg::TransferNft { recipient, token_id } => transfer_nft_res(
                    *old(self),
                    *final(self),
                    ctx.sender@,
                    recipient@,
                    token_id@,
                    res,
                ),
                ExecuteMsg::Send { contract, amount, msg: _ } => transfer_token_res(
                    *old(self),
                    *final(self),
                    ctx.sender@,
                    contract@,
                    amount,
                    res,
                ),
                ExecuteMsg::SendNft { contract, token_id, msg: _ } => transfer_nft_res(
                    *old(self),
                    *final(self),
                    ctx.sender@,
                    contract@,
                    token_id@,
                    res,
                ),
                ExecuteMsg::Mint {} => mint_post(
                    *old(self),
                    *final(self),
                    ctx.sender@,
                    ctx.contract_address@,
                    ctx.now_seconds,
                    res,
                ),
                ExecuteMsg::AirdropNft { recipient, nft_amount } => airdrop_post(
                    *old(self),
                    *final(self),
                    ctx.sender@,
                    ctx.contract_address@,
                    recipient@,
                    nft_amount,
                    res,
                ),
            },
    {
        match msg {
            ExecuteMsg::SetWhitelist { target, state } => self.execute_set_whitelist(
                &ctx.sender,
                target,
                state,
            ),
            ExecuteMsg::Approve { spender, amount_or_id } => self.execute_approve(
                &ctx.sender,
                spender,
                amount_or_id,
            ),
            ExecuteMsg::SetApprovalForAll { operator, approved } => self
                .execute_set_approval_for_all(&ctx.sender, operator, approved),
            ExecuteMsg::IncreaseAllowance { spender, amount } => self.execute_increase_allowance(
                &ctx.sender,
                spender,
                amount,
            ),
            ExecuteMsg::TransferFrom { owner, recipient, amount } => self.execute_transfer_from(
                &ctx.sender,
                owner,
                recipient,
                amount,
            ),
            ExecuteMsg::Transfer { recipient, amount } => self.execute_transfer(
                &ctx.sender,
                recipient,
                amount,
            ),
            ExecuteMsg::TransferNft { recipient, token_id } => self.execute_transfer_nft(
                &ctx.sender,
                recipient,
                &token_id,
            ),
            ExecuteMsg::Send { contract, amount, msg } => self.execute_send(
                &ctx.sender,
                contract,
                amount,
                &msg,
            ),
            ExecuteMsg::SendNft { contract, token_id, msg } => self.execute_send_nft(
                &ctx.sender,
                contract,
                &token_id,
                &msg,
            ),
            ExecuteMsg::Mint {} => self.execute_mint(
                &ctx.sender,
                &ctx.contract_address,
                ctx.now_seconds,
            ),
            ExecuteMsg::AirdropNft { recipient, nft_amount } => self.execute_airdrop_nft(
                &ctx.sender,
                &ctx.contract_address,
                recipient,
                nft_amount,
            ),
        }
    }
}

} // verus!
