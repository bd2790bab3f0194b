//! The ledger's governing laws, each proved from the operations' contracts.
//!
//! Every operation requires the ledger invariant `State::inv` of the state
//! it is given and ensures it of the state it leaves (the one exception,
//! recorded in `set_whitelist_post`, is taking a misaligned address off the
//! whitelist), so each law about `inv` holds after any sequence of
//! operations starting from `instantiate`.

use vstd::prelude::*;

use crate::contract::mint_post;
use crate::contract::transfer_post;
use crate::error::ContractError;
use crate::state::State;

verus! {

/// Reconciliation: for every address outside the whitelist, the number of
/// discrete units it owns equals its balance divided by the unit size.
pub proof fn lemma_reconciliation_invariant(st: State, a: Seq<char>)
    requires
        st.inv(),
        !st.spec_whitelisted(a),
    ensures
        st.owned_of(a).len() == st.spec_balance(a) as int / st.spec_unit(),
{
    assert(st.aligned(a));
}

/// Conservation: a value transfer never changes the total balance across
/// all addresses, and moves equal and opposite amounts between two distinct
/// endpoints.
pub proof fn lemma_transfer_conserves_total(pre: State, post: State, s: Seq<char>, r: Seq<char>, amount: u128)
    requires
        pre.inv(),
        transfer_post(pre, post, s, r, amount),
        amount <= pre.spec_balance(s),
    ensures
        post.total() == pre.total(),
        s != r ==> post.spec_balance(s) == pre.spec_balance(s) - amount,
        s != r ==> post.spec_balance(r) == pre.spec_balance(r) + amount,
        s == r ==> post.spec_balance(s) == pre.spec_balance(s),
{
    if s != r {
        pre.balance_of.lemma_sum_two(s, r);
    }
}

/// Index consistency: an id listed at position `p` of an address's owned
/// list is owned by that address and carries `p` in the reverse index.
pub proof fn lemma_index_consistency(st: State, a: Seq<char>, p: int)
    requires
        st.inv(),
        0 <= p < st.owned_of(a).len(),
    ensures
        st.owners().contains_key(st.owned_of(a)[p]),
        st.owners()[st.owned_of(a)[p]] == a,
        st.owned_index@.contains_key(st.owned_of(a)[p]),
        st.owned_index@[st.owned_of(a)[p]] == p as u128,
{
}

/// No double ownership, one direction: an id can sit in only one owned
/// list, and only once in it.
pub proof fn lemma_no_double_ownership(st: State, a1: Seq<char>, p1: int, a2: Seq<char>, p2: int)
    requires
        st.inv(),
        0 <= p1 < st.owned_of(a1).len(),
        0 <= p2 < st.owned_of(a2).len(),
        st.owned_of(a1)[p1] == st.owned_of(a2)[p2],
    ensures
        a1 == a2,
        p1 == p2,
{
    let id = st.owned_of(a1)[p1];
    assert(st.owners()[id] == a1 && st.owners()[id] == a2);
    assert(st.owned_index@[id] == p1 as u128 && st.owned_index@[id] == p2 as u128);
    // positions live in vectors, so the casts lose nothing
    vstd::std_specs::vec::axiom_spec_len(&st.owned@[a1]);
    vstd::std_specs::vec::axiom_spec_len(&st.owned@[a2]);
}

/// No double ownership, the other direction: every minted, non-burned id —
/// every id with an owner — appears in that owner's list, below the minted
/// counter.
pub proof fn lemma_owned_id_is_listed(st: State, id: u128)
    requires
        st.inv(),
        st.owners().contains_key(id),
    ensures
        id < st.minted,
        st.owned_index@.contains_key(id),
        st.owned_index@[id] < st.owned_of(st.owners()[id]).len(),
        st.owned_of(st.owners()[id])[st.owned_index@[id] as int] == id,
{
}

/// The total number of discrete units held across all owned lists.
pub open spec fn owned_units_total(m: Map<Seq<char>, Vec<u128>>) -> int
    decreases m.dom().len(),
    when m.dom().finite()
{
    if m.dom().len() > 0 {
        let a = m.dom().choose();
        m[a]@.len() + owned_units_total(m.remove(a))
    } else {
        0
    }
}

/// Counting both sides of an ownership bijection: when every listed id maps
/// back to its lister, no list repeats an id, and every owned id is listed,
/// the lists hold exactly as many entries as there are owned ids.
proof fn lemma_units_count(m: Map<Seq<char>, Vec<u128>>, f: Map<u128, Seq<char>>)
    requires
        m.dom().finite(),
        f.dom().finite(),
        forall|a: Seq<char>, p: int|
            m.contains_key(a) && 0 <= p < m[a]@.len() ==> f.contains_key(#[trigger] m[a]@[p])
                && f[m[a]@[p]] == a,
        forall|a: Seq<char>| #[trigger] m.contains_key(a) ==> m[a]@.no_duplicates(),
        forall|id: u128|
            #[trigger] f.contains_key(id) ==> m.contains_key(f[id]) && m[f[id]]@.contains(id),
    ensures
        owned_units_total(m) == f.dom().len(),
    decreases m.dom().len(),
{
    broadcast use vstd::set_lib::group_set_properties;

    if m.dom().len() == 0 {
        assert(f.dom() =~= Set::<u128>::empty()) by {
            assert forall|id: u128| !(#[trigger] f.dom().contains(id)) by {
                if f.dom().contains(id) {
                    assert(m.dom().contains(f[id]));
                }
            }
        }
    } else {
        let a = m.dom().choose();
        assert(m.dom().contains(a));
        let l = m[a]@;
        let ids = l.to_set();
        l.unique_seq_to_set();
        assert(ids.finite()) by {
            l.lemma_cardinality_of_set();
        }
        assert forall|id: u128| #[trigger] ids.contains(id) implies f.contains_key(id) && f[id]
            == a by {
            let p = choose|p: int| 0 <= p < l.len() && l[p] == id;
            assert(m[a]@[p] == id);
        }
        f.lemma_remove_keys_len(ids);
        let m2 = m.remove(a);
        let f2 = f.remove_keys(ids);
        assert(f2.dom().finite()) by {
            assert(f2.dom() =~= f.dom().difference(ids));
        }
        assert forall|b: Seq<char>, p: int|
            m2.contains_key(b) && 0 <= p < m2[b]@.len() implies f2.contains_key(
            #[trigger] m2[b]@[p],
        ) && f2[m2[b]@[p]] == b by {
            assert(m2[b] == m[b]);
            let id = m[b]@[p];
            assert(f.contains_key(id) && f[id] == b);
            assert(!ids.contains(id));
        }
        assert forall|id: u128| #[trigger] f2.contains_key(id) implies m2.contains_key(f2[id])
            && m2[f2[id]]@.contains(id) by {
            assert(f.contains_key(id) && !ids.contains(id));
            let b = f[id];
            assert(m[b]@.contains(id));
            if b == a {
                assert(ids.contains(id));
            }
            assert(m2[b] == m[b]);
        }
        assert forall|b: Seq<char>| #[trigger] m2.contains_key(b) implies m2[b]@.no_duplicates() by {
            assert(m2[b] == m[b]);
        }
        lemma_units_count(m2, f2);
        assert(owned_units_total(m) == l.len() + owned_units_total(m2));
    }
}

/// Conservation of units: the discrete units held across all owned lists
/// are exactly the ids that currently have an owner — each counted once —
/// and every such id lies below the minted counter. The units in
/// circulation are therefore the sequentially minted ids less the burned
/// ones.
pub proof fn lemma_units_in_circulation(st: State)
    requires
        st.inv(),
    ensures
        owned_units_total(st.owned@) == st.owners().dom().len(),
        forall|id: u128| #[trigger] st.owners().contains_key(id) ==> id < st.minted,
{
    st.owned.lemma_dom_finite();
    st.owner_of.lemma_dom_finite();
    assert(st.owners().dom().finite()) by {
        assert(st.owners().dom() =~= st.owner_of@.dom());
    }
    // the invariant gives both directions of the bijection
    assert forall|a: Seq<char>, p: int|
        st.owned@.contains_key(a) && 0 <= p < st.owned@[a]@.len() implies st.owners().contains_key(
        #[trigger] st.owned@[a]@[p],
    ) && st.owners()[st.owned@[a]@[p]] == a by {
        assert(st.owned_of(a) == st.owned@[a]@);
        assert(st.owned_of(a)[p] == st.owned@[a]@[p]);
    }
    assert forall|a: Seq<char>| #[trigger] st.owned@.contains_key(a) implies st.owned@[a]@.no_duplicates() by {
        let l = st.owned@[a]@;
        assert(st.owned_of(a) == l);
        vstd::std_specs::vec::axiom_spec_len(&st.owned@[a]);
        assert forall|p1: int, p2: int|
            0 <= p1 < l.len() && 0 <= p2 < l.len() && p1 != p2 implies l[p1] != l[p2] by {
            assert(st.owned_of(a)[p1] == l[p1]);
            assert(st.owned_of(a)[p2] == l[p2]);
            if l[p1] == l[p2] {
                assert(st.owned_index@[l[p1]] == p1 as u128);
                assert(st.owned_index@[l[p2]] == p2 as u128);
            }
        }
        assert(l.no_duplicates());
    }
    assert forall|id: u128| #[trigger] st.owners().contains_key(id) implies st.owned@.contains_key(
        st.owners()[id],
    ) && st.owned@[st.owners()[id]]@.contains(id) by {
        let a = st.owners()[id];
        let p = st.owned_index@[id] as int;
        assert(st.owned_of(a)[p] == id);
        assert(st.owned_of(a).len() > 0);
        assert(st.owned@.contains_key(a));
        assert(st.owned@[a]@[p] == id);
    }
    lemma_units_count(st.owned@, st.owners());
}

/// The mint-gate window: after a successful claim at `t1`, a second claim
/// by the same address fails with `AlreadyMintedToday` while fewer than
/// 86,400 seconds have passed and the treasury still holds something; a
/// claim at or after the boundary succeeds whenever the treasury covers one
/// unit.
pub proof fn lemma_mint_window(pre: State, mid: State, post: State, s: Seq<char>, c: Seq<char>, t1: u64, t2: u64, res1: Result<(), ContractError>, res2: Result<(), ContractError>)
    requires
        mint_post(pre, mid, s, c, t1, res1),
        res1 is Ok,
        mint_post(mid, post, s, c, t2, res2),
        mid.spec_balance(c) > 0,
    ensures
        t2 < t1 + 86400 ==> res2 == Err::<(), ContractError>(ContractError::AlreadyMintedToday),
        t2 >= t1 + 86400 && mid.spec_balance(c) >= mid.spec_unit() ==> res2 is Ok,
{
    assert(mid.spec_last_mint(s) == t1);
}

} // verus!
