//! Laws of the ledger engine, stated over the same model its contracts use.

use vstd::prelude::*;

use crate::model::{
    EntityV, LedgerError, RecV, TokenQueryModeWithCreation, UserQueryModeStrict,
    UserQueryModeWithCreation, has_matching, has_name, lemma_sum_matching_push,
    lemma_sum_no_matching, rec_matches, sum_matching, token_creation_outcome, user_creation_outcome,
    user_strict_target,
};

verus! {

/// The sum of a sequence of amounts.
pub open spec fn seq_sum(s: Seq<int>) -> int
    decreases s.len(),
{
    if s.len() == 0 {
        0
    } else {
        seq_sum(s.drop_last()) + s.last()
    }
}

/// The ledger after a sequence of transfers on one fixed (sender, receiver,
/// token) triple, each appending one record, as `transaction` does.
pub open spec fn ledger_after_transfers(
    l: Seq<RecV>,
    sender: int,
    receiver: int,
    token: int,
    amounts: Seq<int>,
) -> Seq<RecV>
    decreases amounts.len(),
{
    if amounts.len() == 0 {
        l
    } else {
        ledger_after_transfers(l, sender, receiver, token, amounts.drop_last()).push(
            RecV { sender, receiver, token, amount: amounts.last() },
        )
    }
}

/// Sequential transfers accumulate exactly: starting from a ledger with no
/// history for the triple, after the first `i` of the transfers with amounts
/// `amounts` the triple's balance is the sum of those `i` amounts. Since
/// `transaction` returns the triple's balance over the ledger it leaves
/// behind, the `i`-th transfer's returned total is that sum.
pub proof fn lemma_sequential_transfer_totals(
    l: Seq<RecV>,
    sender: int,
    receiver: int,
    token: int,
    amounts: Seq<int>,
    i: int,
)
    requires
        !has_matching(l, sender, receiver, token),
        0 <= i <= amounts.len(),
    ensures
        sum_matching(
            ledger_after_transfers(l, sender, receiver, token, amounts.take(i)),
            sender,
            receiver,
            token,
        ) == seq_sum(amounts.take(i)),
    decreases i,
{
    if i == 0 {
        assert(amounts.take(0) =~= Seq::<int>::empty());
        lemma_sum_no_matching(l, sender, receiver, token);
    } else {
        let cur = amounts.take(i);
        let prev = amounts.take(i - 1);
        assert(cur.drop_last() =~= prev);
        lemma_sequential_transfer_totals(l, sender, receiver, token, amounts, i - 1);
        let rec = RecV { sender, receiver, token, amount: cur.last() };
        assert(rec_matches(rec, sender, receiver, token));
        lemma_sum_matching_push(
            ledger_after_transfers(l, sender, receiver, token, prev),
            rec,
            sender,
            receiver,
            token,
        );
    }
}

/// Resolving `ByNameOrCreate` for a name that already exists never creates
/// a second entity with that name: the user table comes back unchanged and
/// the resolution succeeds. The same holds for tokens.
pub proof fn lemma_create_keeps_existing_name(
    users: Seq<EntityV>,
    tokens: Seq<EntityV>,
    name: &str,
)
    requires
        has_name(users, name@),
        has_name(tokens, name@),
    ensures
        user_creation_outcome(users, UserQueryModeWithCreation::ByNameOrCreate(name)).1 == users,
        user_creation_outcome(users, UserQueryModeWithCreation::ByNameOrCreate(name)).0 is Ok,
        token_creation_outcome(tokens, TokenQueryModeWithCreation::ByNameOrCreate(name)).1
            == tokens,
        token_creation_outcome(tokens, TokenQueryModeWithCreation::ByNameOrCreate(name)).0 is Ok,
{
}

/// A strict `ByName` resolution of a name nobody carries fails with
/// `NotFound`, while `ById` passes any id through without failing at the
/// resolver layer: a dangling id surfaces only at the storage boundary.
pub proof fn lemma_strict_resolution_misses(users: Seq<EntityV>, name: &str, id: i64)
    requires
        !has_name(users, name@),
    ensures
        user_strict_target(users, UserQueryModeStrict::ByName(name)) == Err::<int, LedgerError>(
            LedgerError::NotFound,
        ),
        user_strict_target(users, UserQueryModeStrict::ById(id)) == Ok::<int, LedgerError>(
            id as int,
        ),
{
}

} // verus!
