//! Ordering and shape of the aggregate query results: per-sender totals,
//! their sort orders, and the sorted-insertion helper the queries build on.

use vstd::prelude::*;

use crate::model::{
    EntityV, EntryV, Order, OrderBySenderOrAmount, RecV, ReceiverGroupV, RelativeTokenAmountEntry,
    RelativeUserAmountEntry, RelativeUserTokenAmountEntry, TokenGroupV, has_matching, sum_matching,
};

verus! {

/// The views of a list of aggregate rows.
pub open spec fn entry_views(v: Seq<RelativeUserTokenAmountEntry>) -> Seq<EntryV> {
    v.map_values(|e: RelativeUserTokenAmountEntry| e@)
}

/// Non-strict ordering of aggregate rows under a sort key and direction.
/// Ties on amount break deterministically by ascending sender id.
pub open spec fn entry_le(key: OrderBySenderOrAmount, dir: Order, a: EntryV, b: EntryV) -> bool {
    match key {
        OrderBySenderOrAmount::Sender => match dir {
            Order::Asc => a.sender.id <= b.sender.id,
            Order::Desc => a.sender.id >= b.sender.id,
        },
        OrderBySenderOrAmount::Amount => match dir {
            Order::Asc => a.amount < b.amount || (a.amount == b.amount && a.sender.id
                <= b.sender.id),
            Order::Desc => a.amount > b.amount || (a.amount == b.amount && a.sender.id
                <= b.sender.id),
        },
    }
}

/// The rows stand in `entry_le` order.
pub open spec fn entries_sorted(s: Seq<EntryV>, key: OrderBySenderOrAmount, dir: Order) -> bool {
    forall|i: int, j: int| 0 <= i < j < s.len() ==> entry_le(
        key,
        dir,
        #[trigger] s[i],
        #[trigger] s[j],
    )
}

/// The aggregate row of `sender` for the fixed (receiver, token) pair: the
/// sender's identity and its summed contribution over the whole ledger.
pub open spec fn entry_of(
    users: Seq<EntityV>,
    ledger: Seq<RecV>,
    sender: int,
    receiver: int,
    token: int,
) -> EntryV {
    EntryV { sender: users[sender - 1], amount: sum_matching(ledger, sender, receiver, token) }
}

/// Whether `x` is the aggregate row of some sender in `1..=bound` that has
/// history on the (receiver, token) pair.
pub open spec fn is_entry_for(
    x: EntryV,
    users: Seq<EntityV>,
    ledger: Seq<RecV>,
    receiver: int,
    token: int,
    bound: int,
) -> bool {
    exists|s: int|
        1 <= s <= bound && has_matching(ledger, s, receiver, token) && x == entry_of(
            users,
            ledger,
            s,
            receiver,
            token,
        )
}

/// A row for a sender within a bound is one within any wider bound.
pub proof fn lemma_is_entry_for_widen(
    x: EntryV,
    users: Seq<EntityV>,
    ledger: Seq<RecV>,
    receiver: int,
    token: int,
    b1: int,
    b2: int,
)
    requires
        is_entry_for(x, users, ledger, receiver, token, b1),
        b1 <= b2,
    ensures
        is_entry_for(x, users, ledger, receiver, token, b2),
{
    let s = choose|s: int|
        1 <= s <= b1 && has_matching(ledger, s, receiver, token) && x == entry_of(
            users,
            ledger,
            s,
            receiver,
            token,
        );
    assert(1 <= s <= b2 && has_matching(ledger, s, receiver, token) && x == entry_of(
        users,
        ledger,
        s,
        receiver,
        token,
    ));
}

/// An exact description of a per-sender aggregate: exactly one row per
/// distinct sender with history on the (receiver, token) pair, each row
/// carrying that sender's summed contribution, in `entry_le` order.
pub open spec fn per_sender_entries_ok(
    entries: Seq<EntryV>,
    users: Seq<EntityV>,
    ledger: Seq<RecV>,
    receiver: int,
    token: int,
    key: OrderBySenderOrAmount,
    dir: Order,
) -> bool {
    &&& forall|i: int| 0 <= i < entries.len() ==> is_entry_for(
        #[trigger] entries[i],
        users,
        ledger,
        receiver,
        token,
        users.len() as int,
    )
    &&& forall|s: int| 1 <= s <= users.len() && #[trigger] has_matching(ledger, s, receiver, token)
        ==> entries.contains(entry_of(users, ledger, s, receiver, token))
    &&& forall|i: int, j: int| 0 <= i < j < entries.len() ==> (#[trigger] entries[i]).sender.id
        != (#[trigger] entries[j]).sender.id
    &&& entries_sorted(entries, key, dir)
}

/// The views of a list of per-token groups.
pub open spec fn token_group_views(v: Seq<RelativeTokenAmountEntry>) -> Seq<TokenGroupV> {
    v.map_values(|g: RelativeTokenAmountEntry| g@)
}

/// The views of a list of per-receiver groups.
pub open spec fn receiver_group_views(v: Seq<RelativeUserAmountEntry>) -> Seq<ReceiverGroupV> {
    v.map_values(|g: RelativeUserAmountEntry| g@)
}

/// Whether any sender ever sent `token` to `receiver`.
pub open spec fn pair_has_history(
    users: Seq<EntityV>,
    ledger: Seq<RecV>,
    receiver: int,
    token: int,
) -> bool {
    exists|s: int| 1 <= s <= users.len() && #[trigger] has_matching(ledger, s, receiver, token)
}

/// Whether some group carries the token id.
pub open spec fn groups_cover_token(gs: Seq<TokenGroupV>, token: int) -> bool {
    exists|i: int| 0 <= i < gs.len() && (#[trigger] gs[i]).token.id == token
}

/// Whether some group carries the receiver id.
pub open spec fn groups_cover_receiver(gs: Seq<ReceiverGroupV>, receiver: int) -> bool {
    exists|i: int| 0 <= i < gs.len() && (#[trigger] gs[i]).receiver.id == receiver
}

/// An exact description of `list_tokens_by_user`'s result: one group per
/// token the receiver ever received, the group naming the token and holding
/// that token's per-sender breakdown, the groups ordered by token id in
/// `outer_dir` direction.
pub open spec fn token_groups_ok(
    gs: Seq<TokenGroupV>,
    users: Seq<EntityV>,
    tokens: Seq<EntityV>,
    ledger: Seq<RecV>,
    receiver: int,
    outer_dir: Order,
    key: OrderBySenderOrAmount,
    dir: Order,
) -> bool {
    &&& forall|i: int| 0 <= i < gs.len() ==> {
        let g = #[trigger] gs[i];
        &&& 1 <= g.token.id <= tokens.len()
        &&& g.token == tokens[g.token.id - 1]
        &&& g.amount_by_sender.len() > 0
        &&& per_sender_entries_ok(g.amount_by_sender, users, ledger, receiver, g.token.id, key, dir)
    }
    &&& forall|t: int| 1 <= t <= tokens.len() && #[trigger] pair_has_history(
        users,
        ledger,
        receiver,
        t,
    ) ==> groups_cover_token(gs, t)
    &&& forall|i: int, j: int| 0 <= i < j < gs.len() ==> (match outer_dir {
        Order::Asc => (#[trigger] gs[i]).token.id < (#[trigger] gs[j]).token.id,
        Order::Desc => gs[i].token.id > gs[j].token.id,
    })
}

/// An exact description of `list_users_by_token`'s result: one group per
/// receiver that ever received the token, the group naming the receiver and
/// holding its per-sender breakdown, the groups ordered by receiver id in
/// `outer_dir` direction.
pub open spec fn receiver_groups_ok(
    gs: Seq<ReceiverGroupV>,
    users: Seq<EntityV>,
    ledger: Seq<RecV>,
    token: int,
    outer_dir: Order,
    key: OrderBySenderOrAmount,
    dir: Order,
) -> bool {
    &&& forall|i: int| 0 <= i < gs.len() ==> {
        let g = #[trigger] gs[i];
        &&& 1 <= g.receiver.id <= users.len()
        &&& g.receiver == users[g.receiver.id - 1]
        &&& g.amount_by_sender.len() > 0
        &&& per_sender_entries_ok(g.amount_by_sender, users, ledger, g.receiver.id, token, key, dir)
    }
    &&& forall|rcv: int| 1 <= rcv <= users.len() && #[trigger] pair_has_history(
        users,
        ledger,
        rcv,
        token,
    ) ==> groups_cover_receiver(gs, rcv)
    &&& forall|i: int, j: int| 0 <= i < j < gs.len() ==> (match outer_dir {
        Order::Asc => (#[trigger] gs[i]).receiver.id < (#[trigger] gs[j]).receiver.id,
        Order::Desc => gs[i].receiver.id > gs[j].receiver.id,
    })
}

/// The same elements back to front.
pub(crate) fn reversed<T>(v: Vec<T>) -> (out: Vec<T>)
    ensures
        out@.len() == v@.len(),
        forall|i: int| 0 <= i < v@.len() ==> out@[i] == v@[v@.len() - 1 - i],
{
    let ghost v0 = v@;
    let mut rest = v;
    let mut out: Vec<T> = Vec::new();
    while rest.len() > 0
        invariant
            rest@ == v0.take(rest@.len() as int),
            out@.len() + rest@.len() == v0.len(),
            forall|i: int| 0 <= i < out@.len() ==> out@[i] == v0[v0.len() - 1 - i],
        decreases rest@.len(),
    {
        proof {
            assert(rest@[rest@.len() - 1] == v0[rest@.len() - 1]);
        }
        let x = rest.pop().unwrap();
        out.push(x);
        proof {
            assert(rest@ =~= v0.take(rest@.len() as int));
        }
    }
    out
}

/// Decides `entry_le` on the views of two rows.
fn entry_le_exec(
    key: OrderBySenderOrAmount,
    dir: Order,
    a: &RelativeUserTokenAmountEntry,
    b: &RelativeUserTokenAmountEntry,
) -> (r: bool)
    ensures
        r == entry_le(key, dir, a@, b@),
{
    match key {
        OrderBySenderOrAmount::Sender => match dir {
            Order::Asc => a.sender.id <= b.sender.id,
            Order::Desc => a.sender.id >= b.sender.id,
        },
        OrderBySenderOrAmount::Amount => match dir {
            Order::Asc => a.amount < b.amount || (a.amount == b.amount && a.sender.id
                <= b.sender.id),
            Order::Desc => a.amount > b.amount || (a.amount == b.amount && a.sender.id
                <= b.sender.id),
        },
    }
}

/// Inserts one row into a list sorted under (`key`, `dir`), keeping it
/// sorted; the result holds exactly the old rows and the new one.
pub(crate) fn sorted_insert(
    v: &mut Vec<RelativeUserTokenAmountEntry>,
    e: RelativeUserTokenAmountEntry,
    key: OrderBySenderOrAmount,
    dir: Order,
)
    requires
        entries_sorted(entry_views(old(v)@), key, dir),
    ensures
        final(v)@.len() == old(v)@.len() + 1,
        entries_sorted(entry_views(final(v)@), key, dir),
        forall|x: EntryV| entry_views(final(v)@).contains(x) <==> (entry_views(
            old(v)@,
        ).contains(x) || x == e@),
        exists|pos: int| 0 <= pos <= old(v)@.len() && entry_views(final(v)@) == entry_views(
            old(v)@,
        ).insert(pos, e@),
    {
        let ghost vs0 = entry_views(old(v)@);
        let mut i: usize = 0;
        while i < v.len() && entry_le_exec(key, dir, &v[i], &e)
            invariant
                i <= v@.len(),
                v@ == old(v)@,
                vs0 == entry_views(v@),
                forall|j: int| 0 <= j < i ==> entry_le(key, dir, #[trigger] vs0[j], e@),
            decreases v@.len() - i,
        {
            proof {
                assert(vs0[i as int] == v@[i as int]@);
            }
            i = i + 1;
        }
        proof {
            if (i as int) < vs0.len() {
                assert(vs0[i as int] == v@[i as int]@);
                assert(!entry_le(key, dir, vs0[i as int], e@));
                assert(entry_le(key, dir, e@, vs0[i as int]));
            }
        }
        v.insert(i, e);
        proof {
            let vs1 = entry_views(v@);
            old(v)@.insert_ensures(i as int, e);
            assert(vs1.len() == vs0.len() + 1);
            assert forall|j: int| 0 <= j < vs1.len() implies #[trigger] vs1[j] == (if j < i {
                vs0[j]
            } else if j == i {
                e@
            } else {
                vs0[j - 1]
            }) by {
                assert(vs1[j] == v@[j]@);
                if j < i {
                    assert(v@[j] == old(v)@[j]);
                    assert(vs0[j] == old(v)@[j]@);
                } else if j > i {
                    assert(v@[j] == old(v)@[j - 1]);
                    assert(vs0[j - 1] == old(v)@[j - 1]@);
                }
            }
            assert forall|p: int, q: int| 0 <= p < q < vs1.len() implies entry_le(
                key,
                dir,
                #[trigger] vs1[p],
                #[trigger] vs1[q],
            ) by {
                if p < i && q < i {
                } else if p == i && q > i {
                    assert(entry_le(key, dir, e@, vs0[i as int]));
                    if q > i + 1 {
                        assert(entry_le(key, dir, vs0[i as int], vs0[q - 1]));
                    }
                } else if p < i && q == i {
                    assert(entry_le(key, dir, vs0[p], e@));
                } else if p < i && q > i {
                    assert(entry_le(key, dir, vs0[p], vs0[q - 1]));
                } else {
                    assert(entry_le(key, dir, vs0[p - 1], vs0[q - 1]));
                }
            }
            assert forall|x: EntryV| vs1.contains(x) <==> (vs0.contains(x) || x == e@) by {
                if vs1.contains(x) {
                    let w = choose|j: int| 0 <= j < vs1.len() && vs1[j] == x;
                    if w < i {
                        assert(vs0[w] == x);
                    } else if w > i {
                        assert(vs0[w - 1] == x);
                    }
                }
                if vs0.contains(x) {
                    let w = choose|j: int| 0 <= j < vs0.len() && vs0[j] == x;
                    if w < i {
                        assert(vs1[w] == x);
                    } else {
                        assert(vs1[w + 1] == x);
                    }
                }
                if x == e@ {
                    assert(vs1[i as int] == x);
                }
            }
            assert(vs1 =~= vs0.insert(i as int, e@)) by {
                vs0.insert_ensures(i as int, e@);
            }
        }
    }

} // verus!
