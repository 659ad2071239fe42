//! The token registry: an in-memory ledger mapping tokens to owners,
//! with per-owner balance bookkeeping and an authorization policy for
//! transfers.
//!
//! Each ledger sheet is held as a vector of key/value pairs with pairwise
//! distinct keys; absence of a key means "no entry".  The well-formedness
//! predicate [`Kitty::wf`] ties the sheets together: every stored balance
//! equals the number of ownership entries pointing at that account, and the
//! zero account never appears as an owner.

use vstd::prelude::*;

use crate::account::AccountId;
use crate::account::KittyId;

verus! {

/// Errors returned by the registry.  Every failure is a recoverable, typed
/// result; no operation leaves the ledger partially mutated.
#[derive(Clone, Copy, PartialEq, Eq, Debug)]
pub enum Error {
    /// The token already has an owner.
    AlreadyOwned,
    /// The caller is not authorized, the destination is the zero account, or
    /// the ledger bookkeeping for the current owner is inconsistent.
    NotOwned,
    /// The token does not exist.
    TokenDoesNotExist,
    /// Reserved for allowance-style operations; never raised by this core.
    InsufficientBalance,
    /// Reserved for allowance-style operations; never raised by this core.
    InsufficientAllowance,
}

/// Notification record emitted once by every successful state-mutating
/// operation.  `from` is `None` for a mint, `Some(source)` for a transfer.
#[derive(Clone, Copy, PartialEq, Eq, Debug)]
pub struct Transfer {
    pub from: Option<AccountId>,
    pub to: Option<AccountId>,
    pub kitty_id: KittyId,
}

/// No two entries of a token-keyed sheet share a key.
spec fn token_keys_unique(s: Seq<(KittyId, AccountId)>) -> bool {
    forall|i: int, j: int|
        0 <= i < j < s.len() ==> (#[trigger] s[i]).0 != (#[trigger] s[j]).0
}

/// No two entries of an account-keyed sheet share a key.
spec fn account_keys_unique(s: Seq<(AccountId, u32)>) -> bool {
    forall|i: int, j: int|
        0 <= i < j < s.len() ==> (#[trigger] s[i]).0 != (#[trigger] s[j]).0
}

/// Some entry of the sheet carries the token `t`.
spec fn has_token(s: Seq<(KittyId, AccountId)>, t: KittyId) -> bool {
    exists|i: int| 0 <= i < s.len() && (#[trigger] s[i]).0 == t
}

/// The account recorded for token `t`, if any entry carries it.
spec fn token_lookup(s: Seq<(KittyId, AccountId)>, t: KittyId) -> Option<AccountId> {
    if has_token(s, t) {
        let i = choose|i: int| 0 <= i < s.len() && (#[trigger] s[i]).0 == t;
        Some(s[i].1)
    } else {
        None
    }
}

/// Some entry of the sheet carries the account `a`.
spec fn has_account(s: Seq<(AccountId, u32)>, a: AccountId) -> bool {
    exists|i: int| 0 <= i < s.len() && (#[trigger] s[i]).0 == a
}

/// The count recorded for account `a`; absence of an entry means zero.
spec fn account_lookup(s: Seq<(AccountId, u32)>, a: AccountId) -> u32 {
    if has_account(s, a) {
        let i = choose|i: int| 0 <= i < s.len() && (#[trigger] s[i]).0 == a;
        s[i].1
    } else {
        0
    }
}

/// The pair (owner, operator) is present in the operator sheet.
spec fn has_pair(s: Seq<(AccountId, AccountId)>, owner: AccountId, operator: AccountId) -> bool {
    exists|i: int| 0 <= i < s.len() && #[trigger] s[i] == (owner, operator)
}

/// How many ownership entries point at account `a`.
spec fn owned_count(s: Seq<(KittyId, AccountId)>, a: AccountId) -> nat
    decreases s.len(),
{
    if s.len() == 0 {
        0
    } else {
        owned_count(s.drop_last(), a) + (if s.last().1 == a { 1nat } else { 0nat })
    }
}

proof fn lemma_token_lookup_found(s: Seq<(KittyId, AccountId)>, t: KittyId, i: int)
    requires
        token_keys_unique(s),
        0 <= i < s.len(),
        s[i].0 == t,
    ensures
        token_lookup(s, t) == Some(s[i].1),
{
    assert(has_token(s, t));
    let j = choose|j: int| 0 <= j < s.len() && (#[trigger] s[j]).0 == t;
    if i < j {
        assert(s[i].0 != s[j].0);
    } else if j < i {
        assert(s[j].0 != s[i].0);
    }
}

proof fn lemma_token_lookup_absent(s: Seq<(KittyId, AccountId)>, t: KittyId)
    requires
        forall|j: int| 0 <= j < s.len() ==> (#[trigger] s[j]).0 != t,
    ensures
        token_lookup(s, t) is None,
{
    assert(!has_token(s, t));
}

proof fn lemma_account_lookup_found(s: Seq<(AccountId, u32)>, a: AccountId, i: int)
    requires
        account_keys_unique(s),
        0 <= i < s.len(),
        s[i].0 == a,
    ensures
        account_lookup(s, a) == s[i].1,
{
    assert(has_account(s, a));
    let j = choose|j: int| 0 <= j < s.len() && (#[trigger] s[j]).0 == a;
    if i < j {
        assert(s[i].0 != s[j].0);
    } else if j < i {
        assert(s[j].0 != s[i].0);
    }
}

proof fn lemma_account_lookup_absent(s: Seq<(AccountId, u32)>, a: AccountId)
    requires
        forall|j: int| 0 <= j < s.len() ==> (#[trigger] s[j]).0 != a,
    ensures
        account_lookup(s, a) == 0,
{
    assert(!has_account(s, a));
}

proof fn lemma_token_push(s: Seq<(KittyId, AccountId)>, k: KittyId, v: AccountId)
    requires
        token_keys_unique(s),
        forall|j: int| 0 <= j < s.len() ==> (#[trigger] s[j]).0 != k,
    ensures
        token_keys_unique(s.push((k, v))),
        forall|t: KittyId|
            #[trigger] token_lookup(s.push((k, v)), t) == (if t == k {
                Some(v)
            } else {
                token_lookup(s, t)
            }),
{
    let s2 = s.push((k, v));
    assert(token_keys_unique(s2));
    assert forall|t: KittyId|
        #[trigger] token_lookup(s2, t) == (if t == k {
            Some(v)
        } else {
            token_lookup(s, t)
        }) by {
        if t == k {
            lemma_token_lookup_found(s2, t, s.len() as int);
        } else {
            if has_token(s, t) {
                let i = choose|i: int| 0 <= i < s.len() && (#[trigger] s[i]).0 == t;
                lemma_token_lookup_found(s, t, i);
                lemma_token_lookup_found(s2, t, i);
            } else {
                lemma_token_lookup_absent(s, t);
                lemma_token_lookup_absent(s2, t);
            }
        }
    }
}

proof fn lemma_token_remove(s: Seq<(KittyId, AccountId)>, i: int)
    requires
        token_keys_unique(s),
        0 <= i < s.len(),
    ensures
        token_keys_unique(s.remove(i)),
        forall|t: KittyId|
            #[trigger] token_lookup(s.remove(i), t) == (if t == s[i].0 {
                None
            } else {
                token_lookup(s, t)
            }),
{
    let s2 = s.remove(i);
    s.remove_ensures(i);
    assert forall|p: int, q: int| 0 <= p < q < s2.len() implies (#[trigger] s2[p]).0 != (
    #[trigger] s2[q]).0 by {
        let p0 = if p < i {
            p
        } else {
            p + 1
        };
        let q0 = if q < i {
            q
        } else {
            q + 1
        };
        assert(s2[p] == s[p0]);
        assert(s2[q] == s[q0]);
        assert(s[p0].0 != s[q0].0);
    }
    assert forall|t: KittyId|
        #[trigger] token_lookup(s2, t) == (if t == s[i].0 {
            None
        } else {
            token_lookup(s, t)
        }) by {
        if t == s[i].0 {
            assert forall|j: int| 0 <= j < s2.len() implies (#[trigger] s2[j]).0 != t by {
                let j0 = if j < i {
                    j
                } else {
                    j + 1
                };
                assert(s2[j] == s[j0]);
                if j0 < i {
                    assert(s[j0].0 != s[i].0);
                } else {
                    assert(s[i].0 != s[j0].0);
                }
            }
            lemma_token_lookup_absent(s2, t);
        } else {
            if has_token(s, t) {
                let j = choose|j: int| 0 <= j < s.len() && (#[trigger] s[j]).0 == t;
                lemma_token_lookup_found(s, t, j);
                let j2 = if j < i {
                    j
                } else {
                    j - 1
                };
                assert(s2[j2] == s[j]);
                lemma_token_lookup_found(s2, t, j2);
            } else {
                lemma_token_lookup_absent(s, t);
                assert forall|j: int| 0 <= j < s2.len() implies (#[trigger] s2[j]).0 != t by {
                    let j0 = if j < i {
                        j
                    } else {
                        j + 1
                    };
                    assert(s2[j] == s[j0]);
                }
                lemma_token_lookup_absent(s2, t);
            }
        }
    }
}

proof fn lemma_account_push(s: Seq<(AccountId, u32)>, k: AccountId, v: u32)
    requires
        account_keys_unique(s),
        forall|j: int| 0 <= j < s.len() ==> (#[trigger] s[j]).0 != k,
    ensures
        account_keys_unique(s.push((k, v))),
        forall|a: AccountId|
            #[trigger] account_lookup(s.push((k, v)), a) == (if a == k {
                v
            } else {
                account_lookup(s, a)
            }),
{
    let s2 = s.push((k, v));
    assert(account_keys_unique(s2));
    assert forall|a: AccountId|
        #[trigger] account_lookup(s2, a) == (if a == k {
            v
        } else {
            account_lookup(s, a)
        }) by {
        if a == k {
            lemma_account_lookup_found(s2, a, s.len() as int);
        } else {
            if has_account(s, a) {
                let i = choose|i: int| 0 <= i < s.len() && (#[trigger] s[i]).0 == a;
                lemma_account_lookup_found(s, a, i);
                lemma_account_lookup_found(s2, a, i);
            } else {
                lemma_account_lookup_absent(s, a);
                lemma_account_lookup_absent(s2, a);
            }
        }
    }
}

proof fn lemma_account_update(s: Seq<(AccountId, u32)>, i: int, v: u32)
    requires
        account_keys_unique(s),
        0 <= i < s.len(),
    ensures
        account_keys_unique(s.update(i, (s[i].0, v))),
        forall|a: AccountId|
            #[trigger] account_lookup(s.update(i, (s[i].0, v)), a) == (if a == s[i].0 {
                v
            } else {
                account_lookup(s, a)
            }),
{
    let s2 = s.update(i, (s[i].0, v));
    assert forall|p: int| 0 <= p < s2.len() implies (#[trigger] s2[p]).0 == s[p].0 by {}
    assert forall|p: int, q: int| 0 <= p < q < s2.len() implies (#[trigger] s2[p]).0 != (
    #[trigger] s2[q]).0 by {
        assert(s[p].0 != s[q].0);
    }
    assert forall|a: AccountId|
        #[trigger] account_lookup(s2, a) == (if a == s[i].0 {
            v
        } else {
            account_lookup(s, a)
        }) by {
        if a == s[i].0 {
            lemma_account_lookup_found(s2, a, i);
        } else {
            if has_account(s, a) {
                let j = choose|j: int| 0 <= j < s.len() && (#[trigger] s[j]).0 == a;
                lemma_account_lookup_found(s, a, j);
                assert(j != i);
                assert(s2[j] == s[j]);
                lemma_account_lookup_found(s2, a, j);
            } else {
                lemma_account_lookup_absent(s, a);
                assert forall|j: int| 0 <= j < s2.len() implies (#[trigger] s2[j]).0 != a by {
                    assert(s[j].0 != a);
                }
                lemma_account_lookup_absent(s2, a);
            }
        }
    }
}

proof fn lemma_owned_count_push(s: Seq<(KittyId, AccountId)>, p: (KittyId, AccountId))
    ensures
        forall|a: AccountId|
            #[trigger] owned_count(s.push(p), a) == owned_count(s, a) + (if p.1 == a {
                1nat
            } else {
                0nat
            }),
{
    assert forall|a: AccountId|
        #[trigger] owned_count(s.push(p), a) == owned_count(s, a) + (if p.1 == a {
            1nat
        } else {
            0nat
        }) by {
        assert(s.push(p).drop_last() =~= s);
        assert(s.push(p).last() == p);
    }
}

proof fn lemma_owned_count_remove(s: Seq<(KittyId, AccountId)>, i: int, a: AccountId)
    requires
        0 <= i < s.len(),
    ensures
        owned_count(s.remove(i), a) + (if s[i].1 == a {
            1nat
        } else {
            0nat
        }) == owned_count(s, a),
    decreases s.len(),
{
    if i == s.len() - 1 {
        assert(s.remove(i) =~= s.drop_last());
    } else {
        assert(s.remove(i).drop_last() =~= s.drop_last().remove(i));
        assert(s.remove(i).last() == s.last());
        assert(s.drop_last()[i] == s[i]);
        lemma_owned_count_remove(s.drop_last(), i, a);
    }
}

proof fn lemma_owned_count_at_least_one(s: Seq<(KittyId, AccountId)>, i: int, a: AccountId)
    requires
        0 <= i < s.len(),
        s[i].1 == a,
    ensures
        owned_count(s, a) >= 1,
    decreases s.len(),
{
    if i == s.len() - 1 {
    } else {
        assert(s.drop_last()[i] == s[i]);
        lemma_owned_count_at_least_one(s.drop_last(), i, a);
    }
}

proof fn lemma_owned_count_absent(s: Seq<(KittyId, AccountId)>, a: AccountId)
    requires
        forall|i: int| 0 <= i < s.len() ==> (#[trigger] s[i]).1 != a,
    ensures
        owned_count(s, a) == 0,
    decreases s.len(),
{
    if s.len() > 0 {
        assert forall|i: int| 0 <= i < s.drop_last().len() implies (#[trigger] s.drop_last()[i]).1
            != a by {
            assert(s.drop_last()[i] == s[i]);
        }
        lemma_owned_count_absent(s.drop_last(), a);
    }
}

/// The successful mint transition: token `kitty_id` becomes owned by `to`,
/// whose balance grows by one; everything else is untouched, and exactly one
/// mint notification is appended.
pub open spec fn mint_effects(pre: Kitty, post: Kitty, to: AccountId, kitty_id: KittyId) -> bool {
    &&& forall|t: KittyId|
        #[trigger] post.owner_spec(t) == (if t == kitty_id {
            Some(to)
        } else {
            pre.owner_spec(t)
        })
    &&& forall|a: AccountId|
        #[trigger] post.balance_spec(a) == pre.balance_spec(a) + (if a == to {
            1int
        } else {
            0int
        })
    &&& forall|t: KittyId| post.approval_spec(t) == pre.approval_spec(t)
    &&& forall|a: AccountId, b: AccountId| post.operator_spec(a, b) == pre.operator_spec(a, b)
    &&& post.token_count() == pre.token_count() + 1
    &&& post.events_spec() == pre.events_spec().push(
        (Transfer { from: None, to: Some(to), kitty_id }),
    )
}

/// The complete contract of `mint`, case by case: on which states it succeeds,
/// which error each rejected state produces, and that a rejected call leaves
/// the registry exactly as it was.
pub open spec fn mint_outcome(
    pre: Kitty,
    post: Kitty,
    caller: AccountId,
    kitty_id: KittyId,
    result: Result<(), Error>,
) -> bool {
    &&& pre.owner_spec(kitty_id) is Some ==> result == Err::<(), Error>(Error::AlreadyOwned)
        && post == pre
    &&& (pre.owner_spec(kitty_id) is None && caller.is_zero_spec()) ==> result == Err::<(), Error>(
        Error::NotOwned,
    ) && post == pre
    &&& (pre.owner_spec(kitty_id) is None && !caller.is_zero_spec() && pre.balance_spec(caller)
        == u32::MAX) ==> result == Err::<(), Error>(Error::NotOwned) && post == pre
    &&& (pre.owner_spec(kitty_id) is None && !caller.is_zero_spec() && pre.balance_spec(caller)
        < u32::MAX) ==> result == Ok::<(), Error>(()) && mint_effects(pre, post, caller, kitty_id)
}

/// The successful transfer transition: token `kitty_id` moves from `source`
/// to `to`, the two balances are adjusted, any single-token approval for the
/// token is cleared, and exactly one transfer notification is appended.
pub open spec fn transfer_effects(
    pre: Kitty,
    post: Kitty,
    source: AccountId,
    to: AccountId,
    kitty_id: KittyId,
) -> bool {
    &&& forall|t: KittyId|
        #[trigger] post.owner_spec(t) == (if t == kitty_id {
            Some(to)
        } else {
            pre.owner_spec(t)
        })
    &&& forall|a: AccountId|
        #[trigger] post.balance_spec(a) == pre.balance_spec(a) + (if a == to {
            1int
        } else {
            0int
        }) - (if a == source {
            1int
        } else {
            0int
        })
    &&& forall|t: KittyId|
        #[trigger] post.approval_spec(t) == (if t == kitty_id {
            None::<AccountId>
        } else {
            pre.approval_spec(t)
        })
    &&& forall|a: AccountId, b: AccountId| post.operator_spec(a, b) == pre.operator_spec(a, b)
    &&& post.token_count() == pre.token_count()
    &&& post.events_spec() == pre.events_spec().push(
        (Transfer { from: Some(source), to: Some(to), kitty_id }),
    )
}

/// The complete contract of `transfer`, case by case.  All validation happens
/// before any mutation, so every rejected call leaves the registry exactly as
/// it was.  The balance ceiling case rejects a destination whose balance could
/// no longer be counted (the increment would wrap).
pub open spec fn transfer_outcome(
    pre: Kitty,
    post: Kitty,
    caller: AccountId,
    to: AccountId,
    kitty_id: KittyId,
    result: Result<(), Error>,
) -> bool {
    &&& pre.owner_spec(kitty_id) is None ==> result == Err::<(), Error>(Error::TokenDoesNotExist)
        && post == pre
    &&& (pre.owner_spec(kitty_id) is Some && !pre.authorized_spec(caller, kitty_id)) ==> result
        == Err::<(), Error>(Error::NotOwned) && post == pre
    &&& (pre.owner_spec(kitty_id) is Some && pre.authorized_spec(caller, kitty_id)
        && to.is_zero_spec()) ==> result == Err::<(), Error>(Error::NotOwned) && post == pre
    &&& (pre.owner_spec(kitty_id) is Some && pre.authorized_spec(caller, kitty_id)
        && !to.is_zero_spec() && to != pre.owner_spec(kitty_id)->0 && pre.balance_spec(to)
        == u32::MAX) ==> result == Err::<(), Error>(Error::NotOwned) && post == pre
    &&& (pre.owner_spec(kitty_id) is Some && pre.authorized_spec(caller, kitty_id)
        && !to.is_zero_spec() && (to == pre.owner_spec(kitty_id)->0 || pre.balance_spec(to)
        < u32::MAX)) ==> result == Ok::<(), Error>(()) && transfer_effects(
        pre,
        post,
        pre.owner_spec(kitty_id)->0,
        to,
        kitty_id,
    )
}

/// The NFT registry: the ownership ledger, its derived per-account balances,
/// the transfer-authorization sheets, and the log of emitted notifications.
///
/// The authorization sheets are consulted afresh on every transfer, and a
/// token's single-token approval is cleared by every successful transfer of
/// that token.  This core exposes no operation that grants an approval, so on
/// a registry driven only through the public surface both sheets stay empty;
/// the checking code is nevertheless verified for arbitrary sheet contents.
pub struct Kitty {
    kitty_owner: Vec<(KittyId, AccountId)>,
    owned_kitty_count: Vec<(AccountId, u32)>,
    kitty_approvals: Vec<(KittyId, AccountId)>,
    operator_approvals: Vec<(AccountId, AccountId)>,
    events: Vec<Transfer>,
}

impl Kitty {
    /// The current owner of `kitty_id`, or `None` if the token does not exist.
    pub closed spec fn owner_spec(self, kitty_id: KittyId) -> Option<AccountId> {
        token_lookup(self.kitty_owner@, kitty_id)
    }

    /// The stored balance of `owner`; an account without an entry has balance
    /// zero.
    pub closed spec fn balance_spec(self, owner: AccountId) -> u32 {
        account_lookup(self.owned_kitty_count@, owner)
    }

    /// The account approved to transfer `kitty_id` on the owner's behalf, if
    /// any.
    pub closed spec fn approval_spec(self, kitty_id: KittyId) -> Option<AccountId> {
        token_lookup(self.kitty_approvals@, kitty_id)
    }

    /// Whether `operator` is registered to transfer any token of `owner`.
    pub closed spec fn operator_spec(self, owner: AccountId, operator: AccountId) -> bool {
        has_pair(self.operator_approvals@, owner, operator)
    }

    /// The number of existing tokens.
    pub closed spec fn token_count(self) -> nat {
        self.kitty_owner@.len()
    }

    /// The notifications emitted so far, oldest first.
    pub closed spec fn events_spec(self) -> Seq<Transfer> {
        self.events@
    }

    /// The authorization rule for moving `kitty_id`: the caller must not be
    /// the zero account, and must be the owner, the approved account for this
    /// token, or a registered operator for the owner.
    pub open spec fn authorized_spec(self, caller: AccountId, kitty_id: KittyId) -> bool {
        &&& !caller.is_zero_spec()
        &&& {
            ||| self.owner_spec(kitty_id) == Some(caller)
            ||| self.approval_spec(kitty_id) == Some(caller)
            ||| (self.owner_spec(kitty_id) matches Some(owner) && self.operator_spec(
                owner,
                caller,
            ))
        }
    }

    /// Well-formedness of the ledger: each sheet has pairwise distinct keys,
    /// the zero account owns nothing, and every stored balance equals the
    /// number of ownership entries pointing at that account.
    pub closed spec fn wf(self) -> bool {
        &&& token_keys_unique(self.kitty_owner@)
        &&& account_keys_unique(self.owned_kitty_count@)
        &&& token_keys_unique(self.kitty_approvals@)
        &&& forall|i: int|
            0 <= i < self.kitty_owner@.len() ==> !(#[trigger] self.kitty_owner@[i]).1.is_zero_spec()
        &&& forall|a: AccountId|
            #[trigger] account_lookup(self.owned_kitty_count@, a) == owned_count(
                self.kitty_owner@,
                a,
            )
    }

    /// Create a new, empty registry: no tokens, no balances, no approvals, no
    /// notifications.
    pub fn new() -> (registry: Self)
        ensures
            registry.wf(),
            registry.token_count() == 0,
            forall|t: KittyId| registry.owner_spec(t) is None,
            forall|a: AccountId| registry.balance_spec(a) == 0,
            forall|t: KittyId| registry.approval_spec(t) is None,
            forall|a: AccountId, b: AccountId| !registry.operator_spec(a, b),
            registry.events_spec() == Seq::<Transfer>::empty(),
    {
        let registry = Kitty {
            kitty_owner: Vec::new(),
            owned_kitty_count: Vec::new(),
            kitty_approvals: Vec::new(),
            operator_approvals: Vec::new(),
            events: Vec::new(),
        };
        proof {
            assert forall|a: AccountId|
                #[trigger] account_lookup(registry.owned_kitty_count@, a) == owned_count(
                    registry.kitty_owner@,
                    a,
                ) by {
                lemma_account_lookup_absent(registry.owned_kitty_count@, a);
            }
            assert forall|t: KittyId| registry.owner_spec(t) is None by {
                lemma_token_lookup_absent(registry.kitty_owner@, t);
            }
            assert forall|a: AccountId| registry.balance_spec(a) == 0 by {
                lemma_account_lookup_absent(registry.owned_kitty_count@, a);
            }
            assert forall|t: KittyId| registry.approval_spec(t) is None by {
                lemma_token_lookup_absent(registry.kitty_approvals@, t);
            }
        }
        registry
    }

    /// Returns the number of tokens owned by `owner`; never fails.
    pub fn balance_of(&self, owner: AccountId) -> (count: u32)
        requires
            self.wf(),
        ensures
            count == self.balance_spec(owner),
    {
        self.balance_of_or_zero(&owner)
    }

    /// Returns the current owner of `kitty_id`, or `None` if the token does
    /// not exist; never fails.
    pub fn owner_of(&self, kitty_id: KittyId) -> (owner: Option<AccountId>)
        requires
            self.wf(),
        ensures
            owner == self.owner_spec(kitty_id),
    {
        match find_token_index(&self.kitty_owner, kitty_id) {
            Some(i) => {
                proof {
                    lemma_token_lookup_found(self.kitty_owner@, kitty_id, i as int);
                }
                Some(self.kitty_owner[i].1)
            },
            None => {
                proof {
                    lemma_token_lookup_absent(self.kitty_owner@, kitty_id);
                }
                None
            },
        }
    }

    /// The stored balance of `of`, or zero when the account has no entry.
    fn balance_of_or_zero(&self, of: &AccountId) -> (count: u32)
        requires
            self.wf(),
        ensures
            count == self.balance_spec(*of),
    {
        match find_account_index(&self.owned_kitty_count, of) {
            Some(i) => {
                proof {
                    lemma_account_lookup_found(self.owned_kitty_count@, *of, i as int);
                }
                self.owned_kitty_count[i].1
            },
            None => {
                proof {
                    lemma_account_lookup_absent(self.owned_kitty_count@, *of);
                }
                0
            },
        }
    }

    /// True iff an ownership entry for `kitty_id` is present.
    fn token_exists(&self, kitty_id: KittyId) -> (present: bool)
        requires
            self.wf(),
        ensures
            present == (self.owner_spec(kitty_id) is Some),
    {
        self.owner_of(kitty_id).is_some()
    }

    /// Record `to` as the owner of the fresh token `kitty_id` and increment
    /// its balance.  Rejects a token that already has an owner, the zero
    /// account as a destination, and a balance that can no longer be counted
    /// (the increment would wrap); in every failure case the ledger is left
    /// untouched.
    fn add_kitty_to(&mut self, to: &AccountId, kitty_id: KittyId) -> (result: Result<(), Error>)
        requires
            old(self).wf(),
        ensures
            final(self).wf(),
            old(self).owner_spec(kitty_id) is Some ==> result == Err::<(), Error>(
                Error::AlreadyOwned,
            ) && *final(self) == *old(self),
            old(self).owner_spec(kitty_id) is None && to.is_zero_spec() ==> result == Err::<
                (),
                Error,
            >(Error::NotOwned) && *final(self) == *old(self),
            old(self).owner_spec(kitty_id) is None && !to.is_zero_spec() && old(self).balance_spec(
                *to,
            ) == u32::MAX ==> result == Err::<(), Error>(Error::NotOwned) && *final(self) == *old(self),
            old(self).owner_spec(kitty_id) is None && !to.is_zero_spec() && old(self).balance_spec(
                *to,
            ) < u32::MAX ==> {
                &&& result == Ok::<(), Error>(())
                &&& forall|t: KittyId|
                    #[trigger] final(self).owner_spec(t) == (if t == kitty_id {
                        Some(*to)
                    } else {
                        old(self).owner_spec(t)
                    })
                &&& forall|a: AccountId|
                    #[trigger] final(self).balance_spec(a) == old(self).balance_spec(a) + (if a == *to {
                        1int
                    } else {
                        0int
                    })
                &&& final(self).token_count() == old(self).token_count() + 1
            },
            forall|t: KittyId| final(self).approval_spec(t) == old(self).approval_spec(t),
            forall|a: AccountId, b: AccountId| final(self).operator_spec(a, b) == old(self).operator_spec(
                a,
                b,
            ),
            final(self).events_spec() == old(self).events_spec(),
    {
        if self.token_exists(kitty_id) {
            return Err(Error::AlreadyOwned);
        }
        if to.is_zero() {
            return Err(Error::NotOwned);
        }
        proof {
            assert forall|j: int| 0 <= j < self.kitty_owner@.len() implies (
            #[trigger] self.kitty_owner@[j]).0 != kitty_id by {
                if self.kitty_owner@[j].0 == kitty_id {
                    assert(has_token(self.kitty_owner@, kitty_id));
                }
            }
        }
        match find_account_index(&self.owned_kitty_count, to) {
            Some(i) => {
                proof {
                    lemma_account_lookup_found(self.owned_kitty_count@, *to, i as int);
                }
                let count = self.owned_kitty_count[i].1;
                if count == u32::MAX {
                    return Err(Error::NotOwned);
                }
                self.owned_kitty_count.set(i, (*to, count + 1));
                self.kitty_owner.push((kitty_id, *to));
                proof {
                    let owners0 = old(self).kitty_owner@;
                    let counts0 = old(self).owned_kitty_count@;
                    assert(counts0[i as int].0 == *to);
                    lemma_token_push(owners0, kitty_id, *to);
                    lemma_owned_count_push(owners0, (kitty_id, *to));
                    lemma_account_update(counts0, i as int, (count + 1) as u32);
                    assert forall|j: int| 0 <= j < self.kitty_owner@.len() implies !(
                    #[trigger] self.kitty_owner@[j]).1.is_zero_spec() by {
                        if j < owners0.len() {
                            assert(self.kitty_owner@[j] == owners0[j]);
                        }
                    }
                    assert forall|a: AccountId|
                        #[trigger] account_lookup(self.owned_kitty_count@, a) == owned_count(
                            self.kitty_owner@,
                            a,
                        ) by {}
                }
                Ok(())
            },
            None => {
                proof {
                    lemma_account_lookup_absent(self.owned_kitty_count@, *to);
                }
                self.owned_kitty_count.push((*to, 1));
                self.kitty_owner.push((kitty_id, *to));
                proof {
                    let owners0 = old(self).kitty_owner@;
                    let counts0 = old(self).owned_kitty_count@;
                    lemma_token_push(owners0, kitty_id, *to);
                    lemma_owned_count_push(owners0, (kitty_id, *to));
                    lemma_account_push(counts0, *to, 1);
                    assert forall|j: int| 0 <= j < self.kitty_owner@.len() implies !(
                    #[trigger] self.kitty_owner@[j]).1.is_zero_spec() by {
                        if j < owners0.len() {
                            assert(self.kitty_owner@[j] == owners0[j]);
                        }
                    }
                    assert forall|a: AccountId|
                        #[trigger] account_lookup(self.owned_kitty_count@, a) == owned_count(
                            self.kitty_owner@,
                            a,
                        ) by {}
                }
                Ok(())
            },
        }
    }

    /// Remove the ownership entry for `kitty_id` and decrement the balance of
    /// `from`, its current owner.  The missing-entry and zero-balance branches
    /// guard against ledger corruption (a decrement must never wrap around);
    /// on a well-formed ledger they cannot fire, so the call always succeeds.
    fn remove_kitty_from(&mut self, from: &AccountId, kitty_id: KittyId) -> (result: Result<
        (),
        Error,
    >)
        requires
            old(self).wf(),
            old(self).owner_spec(kitty_id) == Some(*from),
        ensures
            final(self).wf(),
            result == Ok::<(), Error>(()),
            forall|t: KittyId|
                #[trigger] final(self).owner_spec(t) == (if t == kitty_id {
                    None::<AccountId>
                } else {
                    old(self).owner_spec(t)
                }),
            forall|a: AccountId|
                #[trigger] final(self).balance_spec(a) == old(self).balance_spec(a) - (if a
                    == *from {
                    1int
                } else {
                    0int
                }),
            final(self).token_count() == old(self).token_count() - 1,
            forall|t: KittyId| final(self).approval_spec(t) == old(self).approval_spec(t),
            forall|a: AccountId, b: AccountId| final(self).operator_spec(a, b) == old(
                self,
            ).operator_spec(a, b),
            final(self).events_spec() == old(self).events_spec(),
    {
        let idx = match find_token_index(&self.kitty_owner, kitty_id) {
            Some(i) => i,
            None => {
                proof {
                    lemma_token_lookup_absent(self.kitty_owner@, kitty_id);
                }
                return Err(Error::NotOwned);
            },
        };
        proof {
            lemma_token_lookup_found(self.kitty_owner@, kitty_id, idx as int);
            lemma_owned_count_at_least_one(self.kitty_owner@, idx as int, *from);
        }
        let j = match find_account_index(&self.owned_kitty_count, from) {
            Some(j) => j,
            None => {
                proof {
                    lemma_account_lookup_absent(self.owned_kitty_count@, *from);
                }
                return Err(Error::NotOwned);
            },
        };
        proof {
            lemma_account_lookup_found(self.owned_kitty_count@, *from, j as int);
        }
        let count = self.owned_kitty_count[j].1;
        if count == 0 {
            return Err(Error::NotOwned);
        }
        self.owned_kitty_count.set(j, (*from, count - 1));
        self.kitty_owner.remove(idx);
        proof {
            let owners0 = old(self).kitty_owner@;
            let counts0 = old(self).owned_kitty_count@;
            lemma_token_remove(owners0, idx as int);
            lemma_account_update(counts0, j as int, (count - 1) as u32);
            owners0.remove_ensures(idx as int);
            assert forall|p: int| 0 <= p < self.kitty_owner@.len() implies !(
            #[trigger] self.kitty_owner@[p]).1.is_zero_spec() by {
                if p < idx {
                    assert(self.kitty_owner@[p] == owners0[p]);
                } else {
                    assert(self.kitty_owner@[p] == owners0[p + 1]);
                }
            }
            assert forall|a: AccountId|
                #[trigger] account_lookup(self.owned_kitty_count@, a) == owned_count(
                    self.kitty_owner@,
                    a,
                ) by {
                lemma_owned_count_remove(owners0, idx as int, a);
            }
        }
        Ok(())
    }

    /// Clear any single-token approval for `kitty_id`; every other sheet and
    /// the notification log are left untouched.
    fn clear_approval(&mut self, kitty_id: KittyId)
        requires
            old(self).wf(),
        ensures
            final(self).wf(),
            forall|t: KittyId|
                #[trigger] final(self).approval_spec(t) == (if t == kitty_id {
                    None::<AccountId>
                } else {
                    old(self).approval_spec(t)
                }),
            forall|t: KittyId| final(self).owner_spec(t) == old(self).owner_spec(t),
            forall|a: AccountId| final(self).balance_spec(a) == old(self).balance_spec(a),
            final(self).token_count() == old(self).token_count(),
            forall|a: AccountId, b: AccountId| final(self).operator_spec(a, b) == old(
                self,
            ).operator_spec(a, b),
            final(self).events_spec() == old(self).events_spec(),
    {
        match find_token_index(&self.kitty_approvals, kitty_id) {
            Some(i) => {
                self.kitty_approvals.remove(i);
                proof {
                    lemma_token_remove(old(self).kitty_approvals@, i as int);
                }
            },
            None => {
                proof {
                    lemma_token_lookup_absent(self.kitty_approvals@, kitty_id);
                }
            },
        }
    }

    /// The account approved for `kitty_id`, if any.
    fn approval_of(&self, kitty_id: KittyId) -> (approved: Option<AccountId>)
        requires
            self.wf(),
        ensures
            approved == self.approval_spec(kitty_id),
    {
        match find_token_index(&self.kitty_approvals, kitty_id) {
            Some(i) => {
                proof {
                    lemma_token_lookup_found(self.kitty_approvals@, kitty_id, i as int);
                }
                Some(self.kitty_approvals[i].1)
            },
            None => {
                proof {
                    lemma_token_lookup_absent(self.kitty_approvals@, kitty_id);
                }
                None
            },
        }
    }

    /// Whether `operator` is registered to transfer any token of `owner`.
    fn approved_for_all(&self, owner: &AccountId, operator: &AccountId) -> (approved: bool)
        ensures
            approved == self.operator_spec(*owner, *operator),
    {
        let n = self.operator_approvals.len();
        let mut i: usize = 0;
        while i < n
            invariant
                n == self.operator_approvals@.len(),
                i <= n,
                forall|j: int|
                    0 <= j < i ==> #[trigger] self.operator_approvals@[j] != (*owner, *operator),
            decreases n - i,
        {
            let entry = self.operator_approvals[i];
            if entry.0 == *owner && entry.1 == *operator {
                assert(self.operator_approvals@[i as int] == (*owner, *operator));
                return true;
            }
            i = i + 1;
        }
        assert(!has_pair(self.operator_approvals@, *owner, *operator));
        false
    }

    /// The authorization rule evaluated afresh on every transfer: the caller
    /// must not be the zero account and must be the owner, the approved
    /// account for this token, or a registered operator for the owner.
    fn approve_or_owner(&self, caller: &AccountId, kitty_id: KittyId) -> (authorized: bool)
        requires
            self.wf(),
            self.owner_spec(kitty_id) is Some,
        ensures
            authorized == self.authorized_spec(*caller, kitty_id),
    {
        if caller.is_zero() {
            return false;
        }
        let owner = match self.owner_of(kitty_id) {
            Some(o) => o,
            None => {
                return false;
            },
        };
        if *caller == owner {
            return true;
        }
        let by_approval = match self.approval_of(kitty_id) {
            Some(approved) => *caller == approved,
            None => false,
        };
        if by_approval {
            return true;
        }
        self.approved_for_all(&owner, caller)
    }

    /// Move `kitty_id` from its current owner to `to` on behalf of `caller`.
    /// All validation happens before any mutation, so a rejected call leaves
    /// the ledger untouched; a successful call clears the token's approval,
    /// rewrites ownership, adjusts both balances, and emits one notification.
    fn transfer_kitty_from(&mut self, caller: &AccountId, to: &AccountId, kitty_id: KittyId) -> (result: Result<(), Error>)
        requires
            old(self).wf(),
        ensures
            final(self).wf(),
            transfer_outcome(*old(self), *final(self), *caller, *to, kitty_id, result),
    {
        let owner = match self.owner_of(kitty_id) {
            Some(o) => o,
            None => {
                return Err(Error::TokenDoesNotExist);
            },
        };
        if !self.approve_or_owner(caller, kitty_id) {
            return Err(Error::NotOwned);
        }
        if to.is_zero() {
            return Err(Error::NotOwned);
        }
        let same_owner = *to == owner;
        if !same_owner && self.balance_of_or_zero(to) == u32::MAX {
            return Err(Error::NotOwned);
        }
        self.clear_approval(kitty_id);
        let ghost s1 = *self;
        self.remove_kitty_from(&owner, kitty_id)?;
        let ghost s2 = *self;
        proof {
            assert(s2.owner_spec(kitty_id) is None);
            assert(s2.balance_spec(*to) == s1.balance_spec(*to) - (if *to == owner {
                1int
            } else {
                0int
            }));
            assert(s1.balance_spec(*to) == old(self).balance_spec(*to));
        }
        self.add_kitty_to(to, kitty_id)?;
        let ghost s3 = *self;
        self.events.push(Transfer { from: Some(owner), to: Some(*to), kitty_id });
        proof {
            assert forall|t: KittyId|
                #[trigger] self.owner_spec(t) == (if t == kitty_id {
                    Some(*to)
                } else {
                    old(self).owner_spec(t)
                }) by {
                assert(self.owner_spec(t) == s3.owner_spec(t));
                assert(s2.owner_spec(t) == (if t == kitty_id {
                    None::<AccountId>
                } else {
                    s1.owner_spec(t)
                }));
                assert(s1.owner_spec(t) == old(self).owner_spec(t));
            }
            assert forall|a: AccountId|
                #[trigger] self.balance_spec(a) == old(self).balance_spec(a) + (if a == *to {
                    1int
                } else {
                    0int
                }) - (if a == owner {
                    1int
                } else {
                    0int
                }) by {
                assert(self.balance_spec(a) == s3.balance_spec(a));
                assert(s2.balance_spec(a) == s1.balance_spec(a) - (if a == owner {
                    1int
                } else {
                    0int
                }));
                assert(s1.balance_spec(a) == old(self).balance_spec(a));
            }
            assert forall|t: KittyId|
                #[trigger] self.approval_spec(t) == (if t == kitty_id {
                    None::<AccountId>
                } else {
                    old(self).approval_spec(t)
                }) by {
                assert(self.approval_spec(t) == s3.approval_spec(t));
                assert(s3.approval_spec(t) == s2.approval_spec(t));
                assert(s2.approval_spec(t) == s1.approval_spec(t));
                assert(s1.approval_spec(t) == (if t == kitty_id {
                    None::<AccountId>
                } else {
                    old(self).approval_spec(t)
                }));
            }
            assert forall|a: AccountId, b: AccountId|
                #[trigger] self.operator_spec(a, b) == old(self).operator_spec(a, b) by {
                assert(self.operator_spec(a, b) == s3.operator_spec(a, b));
                assert(s3.operator_spec(a, b) == s2.operator_spec(a, b));
                assert(s2.operator_spec(a, b) == s1.operator_spec(a, b));
                assert(s1.operator_spec(a, b) == old(self).operator_spec(a, b));
            }
            assert(s3.events_spec() == old(self).events_spec());
            assert(self.events_spec() == old(self).events_spec().push(
                (Transfer { from: Some(owner), to: Some(*to), kitty_id }),
            ));
        }
        Ok(())
    }

    /// Transfer `kitty_id` to `destination` on behalf of `caller`, who must be
    /// authorized for the token.  Exactly one transfer notification is emitted
    /// on success; a rejected call returns its error and changes nothing.
    pub fn transfer(&mut self, caller: AccountId, destination: AccountId, kitty_id: KittyId) -> (result: Result<(), Error>)
        requires
            old(self).wf(),
        ensures
            final(self).wf(),
            transfer_outcome(*old(self), *final(self), caller, destination, kitty_id, result),
    {
        self.transfer_kitty_from(&caller, &destination, kitty_id)
    }

    /// Mint the fresh token `kitty_id`, owned by `caller` (self-mint model).
    /// Exactly one mint notification is emitted on success; a rejected call
    /// returns its error and changes nothing.
    pub fn mint(&mut self, caller: AccountId, kitty_id: KittyId) -> (result: Result<(), Error>)
        requires
            old(self).wf(),
        ensures
            final(self).wf(),
            mint_outcome(*old(self), *final(self), caller, kitty_id, result),
    {
        self.add_kitty_to(&caller, kitty_id)?;
        let ghost mid = *self;
        self.events.push(Transfer { from: None, to: Some(caller), kitty_id });
        proof {
            assert forall|t: KittyId|
                #[trigger] self.owner_spec(t) == (if t == kitty_id {
                    Some(caller)
                } else {
                    old(self).owner_spec(t)
                }) by {
                assert(self.owner_spec(t) == mid.owner_spec(t));
            }
            assert forall|a: AccountId|
                #[trigger] self.balance_spec(a) == old(self).balance_spec(a) + (if a == caller {
                    1int
                } else {
                    0int
                }) by {
                assert(self.balance_spec(a) == mid.balance_spec(a));
            }
            assert forall|t: KittyId| #[trigger] self.approval_spec(t) == old(self).approval_spec(
                t,
            ) by {
                assert(self.approval_spec(t) == mid.approval_spec(t));
            }
            assert forall|a: AccountId, b: AccountId|
                #[trigger] self.operator_spec(a, b) == old(self).operator_spec(a, b) by {
                assert(self.operator_spec(a, b) == mid.operator_spec(a, b));
            }
            assert(mid.events_spec() == old(self).events_spec());
            assert(self.events_spec() == old(self).events_spec().push(
                (Transfer { from: None, to: Some(caller), kitty_id }),
            ));
        }
        Ok(())
    }

    /// The notifications emitted so far, oldest first.
    pub fn events(&self) -> (log: &Vec<Transfer>)
        ensures
            log@ == self.events_spec(),
    {
        &self.events
    }
}

impl Default for Kitty {
    /// An empty registry, as `Kitty::new` builds it.
    fn default() -> (registry: Self)
        ensures
            registry.wf(),
            registry.token_count() == 0,
            forall|t: KittyId| registry.owner_spec(t) is None,
            forall|a: AccountId| registry.balance_spec(a) == 0,
            registry.events_spec() == Seq::<Transfer>::empty(),
    {
        Kitty::new()
    }
}

/// Sum of the balances of `accounts`, left to right.
pub open spec fn balance_sum(registry: Kitty, accounts: Seq<AccountId>) -> int
    decreases accounts.len(),
{
    if accounts.len() == 0 {
        0
    } else {
        balance_sum(registry, accounts.drop_last()) + registry.balance_spec(accounts.last())
    }
}

/// Sum of `owned_count` over `accounts`, left to right.
spec fn owned_count_sum(s: Seq<(KittyId, AccountId)>, accounts: Seq<AccountId>) -> int
    decreases accounts.len(),
{
    if accounts.len() == 0 {
        0
    } else {
        owned_count_sum(s, accounts.drop_last()) + owned_count(s, accounts.last())
    }
}

/// How many entries of `accounts` equal `a`.
spec fn occurrences(accounts: Seq<AccountId>, a: AccountId) -> int
    decreases accounts.len(),
{
    if accounts.len() == 0 {
        0
    } else {
        occurrences(accounts.drop_last(), a) + (if accounts.last() == a {
            1int
        } else {
            0int
        })
    }
}

proof fn lemma_balance_sum_as_counts(registry: Kitty, accounts: Seq<AccountId>)
    requires
        registry.wf(),
    ensures
        balance_sum(registry, accounts) == owned_count_sum(registry.kitty_owner@, accounts),
    decreases accounts.len(),
{
    if accounts.len() > 0 {
        lemma_balance_sum_as_counts(registry, accounts.drop_last());
        assert(account_lookup(registry.owned_kitty_count@, accounts.last()) == owned_count(
            registry.kitty_owner@,
            accounts.last(),
        ));
    }
}

proof fn lemma_occurrences_in(accounts: Seq<AccountId>, a: AccountId)
    requires
        accounts.no_duplicates(),
    ensures
        occurrences(accounts, a) == (if accounts.contains(a) {
            1int
        } else {
            0int
        }),
    decreases accounts.len(),
{
    if accounts.len() == 0 {
        assert(!accounts.contains(a));
    } else {
        let prefix = accounts.drop_last();
        assert forall|p: int, q: int|
            0 <= p < prefix.len() && 0 <= q < prefix.len() && p != q implies prefix[p] != prefix[q] by {
            assert(prefix[p] == accounts[p]);
            assert(prefix[q] == accounts[q]);
        }
        lemma_occurrences_in(prefix, a);
        if accounts.last() == a {
            assert(accounts[accounts.len() - 1] == a);
            assert(accounts.contains(a));
            if prefix.contains(a) {
                let i = choose|i: int| 0 <= i < prefix.len() && prefix[i] == a;
                assert(accounts[i] == a);
                assert(false);
            }
        } else {
            if accounts.contains(a) {
                let i = choose|i: int| 0 <= i < accounts.len() && accounts[i] == a;
                assert(i < accounts.len() - 1);
                assert(prefix[i] == a);
                assert(prefix.contains(a));
            }
            if prefix.contains(a) {
                let i = choose|i: int| 0 <= i < prefix.len() && prefix[i] == a;
                assert(accounts[i] == a);
                assert(accounts.contains(a));
            }
        }
    }
}

proof fn lemma_owned_count_sum_step(s: Seq<(KittyId, AccountId)>, accounts: Seq<AccountId>)
    requires
        s.len() > 0,
    ensures
        owned_count_sum(s, accounts) == owned_count_sum(s.drop_last(), accounts) + occurrences(
            accounts,
            s.last().1,
        ),
    decreases accounts.len(),
{
    if accounts.len() > 0 {
        lemma_owned_count_sum_step(s, accounts.drop_last());
    }
}

proof fn lemma_owned_count_sum_zero_len(s: Seq<(KittyId, AccountId)>, accounts: Seq<AccountId>)
    requires
        s.len() == 0,
    ensures
        owned_count_sum(s, accounts) == 0,
    decreases accounts.len(),
{
    if accounts.len() > 0 {
        lemma_owned_count_sum_zero_len(s, accounts.drop_last());
    }
}

proof fn lemma_owned_count_sum_total(s: Seq<(KittyId, AccountId)>, accounts: Seq<AccountId>)
    requires
        accounts.no_duplicates(),
        forall|i: int| 0 <= i < s.len() ==> accounts.contains((#[trigger] s[i]).1),
    ensures
        owned_count_sum(s, accounts) == s.len(),
    decreases s.len(),
{
    if s.len() == 0 {
        lemma_owned_count_sum_zero_len(s, accounts);
    } else {
        lemma_owned_count_sum_step(s, accounts);
        lemma_occurrences_in(accounts, s.last().1);
        assert(accounts.contains(s[s.len() - 1].1));
        assert forall|i: int| 0 <= i < s.drop_last().len() implies accounts.contains((
        #[trigger] s.drop_last()[i]).1) by {
            assert(s.drop_last()[i] == s[i]);
        }
        lemma_owned_count_sum_total(s.drop_last(), accounts);
    }
}

/// Law: a token has at most one owner at any time.
pub proof fn lemma_at_most_one_owner(
    registry: Kitty,
    kitty_id: KittyId,
    first: AccountId,
    second: AccountId,
)
    requires
        registry.owner_spec(kitty_id) == Some(first),
        registry.owner_spec(kitty_id) == Some(second),
    ensures
        first == second,
{
}

/// Law: over any duplicate-free list of accounts that includes every owner,
/// the balances sum to the number of existing tokens.  Accounts outside such
/// a list own nothing and so, by `lemma_no_tokens_zero_balance`, contribute
/// zero: this is the sum of `balance_of` over all accounts.
pub proof fn lemma_balance_sum_is_token_count(registry: Kitty, accounts: Seq<AccountId>)
    requires
        registry.wf(),
        accounts.no_duplicates(),
        forall|t: KittyId|
            (#[trigger] registry.owner_spec(t)) is Some ==> accounts.contains(
                registry.owner_spec(t)->0,
            ),
    ensures
        balance_sum(registry, accounts) == registry.token_count(),
{
    let s = registry.kitty_owner@;
    lemma_balance_sum_as_counts(registry, accounts);
    assert forall|i: int| 0 <= i < s.len() implies accounts.contains((#[trigger] s[i]).1) by {
        lemma_token_lookup_found(s, s[i].0, i);
        assert(registry.owner_spec(s[i].0) == Some(s[i].1));
    }
    lemma_owned_count_sum_total(s, accounts);
}

/// Law: minting the same token id twice fails the second time with
/// `AlreadyOwned` and changes nothing, whoever the second caller is: the
/// token's owner and the balances stay as the first mint set them.
pub proof fn lemma_mint_twice(
    pre: Kitty,
    mid: Kitty,
    post: Kitty,
    first_caller: AccountId,
    second_caller: AccountId,
    kitty_id: KittyId,
    second_result: Result<(), Error>,
)
    requires
        mint_effects(pre, mid, first_caller, kitty_id),
        mint_outcome(mid, post, second_caller, kitty_id, second_result),
    ensures
        second_result == Err::<(), Error>(Error::AlreadyOwned),
        post == mid,
        post.owner_spec(kitty_id) == Some(first_caller),
        post.balance_spec(first_caller) == mid.balance_spec(first_caller),
{
    assert(mid.owner_spec(kitty_id) == Some(first_caller));
}

/// Law: a successful mint is visible immediately and exactly once: the new
/// token is owned by the minter, the minter's balance grew by one, and
/// exactly one mint notification was appended.
pub proof fn lemma_mint_round_trip(pre: Kitty, post: Kitty, caller: AccountId, kitty_id: KittyId)
    requires
        mint_effects(pre, post, caller, kitty_id),
    ensures
        post.owner_spec(kitty_id) == Some(caller),
        post.balance_spec(caller) == pre.balance_spec(caller) + 1,
        post.events_spec().len() == pre.events_spec().len() + 1,
        post.events_spec().last() == (Transfer { from: None, to: Some(caller), kitty_id }),
{
    assert(post.owner_spec(kitty_id) == Some(caller));
    assert(post.balance_spec(caller) == pre.balance_spec(caller) + 1);
}

/// Law: an account that owns no token has balance zero.
pub proof fn lemma_no_tokens_zero_balance(registry: Kitty, account: AccountId)
    requires
        registry.wf(),
        forall|t: KittyId| registry.owner_spec(t) != Some(account),
    ensures
        registry.balance_spec(account) == 0,
{
    let s = registry.kitty_owner@;
    assert forall|i: int| 0 <= i < s.len() implies (#[trigger] s[i]).1 != account by {
        if s[i].1 == account {
            lemma_token_lookup_found(s, s[i].0, i);
            assert(registry.owner_spec(s[i].0) == Some(account));
        }
    }
    lemma_owned_count_absent(s, account);
    assert(account_lookup(registry.owned_kitty_count@, account) == owned_count(s, account));
}

/// Index of the entry carrying token `kitty_id`, if one is present.
fn find_token_index(sheet: &Vec<(KittyId, AccountId)>, kitty_id: KittyId) -> (found: Option<usize>)
    ensures
        match found {
            Some(i) => i < sheet@.len() && sheet@[i as int].0 == kitty_id,
            None => forall|j: int| 0 <= j < sheet@.len() ==> (#[trigger] sheet@[j]).0 != kitty_id,
        },
{
    let n = sheet.len();
    let mut i: usize = 0;
    while i < n
        invariant
            n == sheet@.len(),
            i <= n,
            forall|j: int| 0 <= j < i ==> (#[trigger] sheet@[j]).0 != kitty_id,
        decreases n - i,
    {
        if sheet[i].0 == kitty_id {
            return Some(i);
        }
        i = i + 1;
    }
    None
}

/// Index of the entry carrying account `of`, if one is present.
fn find_account_index(sheet: &Vec<(AccountId, u32)>, of: &AccountId) -> (found: Option<usize>)
    ensures
        match found {
            Some(i) => i < sheet@.len() && sheet@[i as int].0 == *of,
            None => forall|j: int| 0 <= j < sheet@.len() ==> (#[trigger] sheet@[j]).0 != *of,
        },
{
    let n = sheet.len();
    let mut i: usize = 0;
    while i < n
        invariant
            n == sheet@.len(),
            i <= n,
            forall|j: int| 0 <= j < i ==> (#[trigger] sheet@[j]).0 != *of,
        decreases n - i,
    {
        if sheet[i].0 == *of {
            return Some(i);
        }
        i = i + 1;
    }
    None
}

} // verus!
