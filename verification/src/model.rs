//! Data model of the exchange: users, tokens, ledger records, query modes,
//! orderings, and the ghost-level views that contracts are stated over.

use vstd::prelude::*;

verus! {

/// A user's canonical numeric identity.
pub type UserID = i64;

/// A token kind's canonical numeric identity.
pub type TokenID = i64;

/// A transferred or aggregated quantity of one token kind. May be negative:
/// a debit framed as a transfer.
pub type TokenAmount = i32;

/// Errors surfaced by the ledger engine.
///
/// `NotFound` is a strict identity lookup miss; `StorageFailure` is a
/// constraint violation at the storage boundary (dangling id on append,
/// exhausted id space, or a balance leaving the representable range).
#[derive(Debug, Clone, Copy, PartialEq, Eq, Structural)]
pub enum LedgerError {
    NotFound,
    StorageFailure,
}

/// Sort direction for the aggregate queries.
#[derive(Debug, Clone, Copy, PartialEq, Eq, Structural)]
pub enum Order {
    Asc,
    Desc,
}

/// Sort key for `list_user_token`: by sender id or by aggregated amount.
#[derive(Debug, Clone, Copy, PartialEq, Eq, Structural)]
pub enum OrderBySenderOrAmount {
    Sender,
    Amount,
}

/// Sort key for `list_tokens_by_user`.
#[derive(Debug, Clone, Copy, PartialEq, Eq, Structural)]
pub enum OrderByTokenOrSenderOrAmount {
    Token,
    Sender,
    Amount,
}

/// Sort key for `list_users_by_token`.
#[derive(Debug, Clone, Copy, PartialEq, Eq, Structural)]
pub enum OrderByReceiverOrSenderOrAmount {
    Receiver,
    Sender,
    Amount,
}

/// A strict (never-creating) user reference: by id (passed through unchecked)
/// or by name (miss fails with `NotFound`).
pub enum UserQueryModeStrict<'a> {
    ById(i64),
    ByName(&'a str),
}

/// A creation-capable user reference: as the strict one, plus
/// `ByNameOrCreate`, which creates a fresh user on a lookup miss.
pub enum UserQueryModeWithCreation<'a> {
    ById(i64),
    ByName(&'a str),
    ByNameOrCreate(&'a str),
}

/// A strict (never-creating) token reference.
pub enum TokenQueryModeStrict<'a> {
    ById(i64),
    ByName(&'a str),
}

/// A creation-capable token reference.
pub enum TokenQueryModeWithCreation<'a> {
    ById(i64),
    ByName(&'a str),
    ByNameOrCreate(&'a str),
}

/// Ghost shape shared by users and tokens: an id and a display name.
pub ghost struct EntityV {
    pub id: int,
    pub name: Seq<char>,
}

/// A registered user. Ids are assigned monotonically from 1; a row is never
/// rewritten once created. Names are not guaranteed unique.
#[derive(Debug, PartialEq, Eq)]
pub struct User {
    pub id: i64,
    pub name: String,
}

impl View for User {
    type V = EntityV;

    open spec fn view(&self) -> EntityV {
        EntityV { id: self.id as int, name: self.name@ }
    }
}

/// A registered token kind. Same shape and lifecycle rules as `User`.
#[derive(Debug, PartialEq, Eq)]
pub struct Token {
    pub id: i64,
    pub name: String,
}

impl View for Token {
    type V = EntityV;

    open spec fn view(&self) -> EntityV {
        EntityV { id: self.id as int, name: self.name@ }
    }
}

/// Ghost view of one ledger entry.
pub ghost struct RecV {
    pub sender: int,
    pub receiver: int,
    pub token: int,
    pub amount: int,
}

/// One immutable ledger entry: `sender` sent `amount` of `token` to
/// `receiver`. The position in the ledger is the record's sequence number.
#[derive(Debug, Clone, Copy, PartialEq, Eq)]
pub struct TransactionRecord {
    pub sender: i64,
    pub receiver: i64,
    pub token: i64,
    pub amount: i32,
}

impl View for TransactionRecord {
    type V = RecV;

    open spec fn view(&self) -> RecV {
        RecV {
            sender: self.sender as int,
            receiver: self.receiver as int,
            token: self.token as int,
            amount: self.amount as int,
        }
    }
}

/// Ghost view of a per-sender aggregate entry.
pub ghost struct EntryV {
    pub sender: EntityV,
    pub amount: int,
}

/// One aggregate result row: what `sender` contributed in total, for the
/// (receiver, token) pair the enclosing query fixed.
#[derive(Debug, PartialEq, Eq)]
pub struct RelativeUserTokenAmountEntry {
    pub sender: User,
    pub amount: i32,
}

impl View for RelativeUserTokenAmountEntry {
    type V = EntryV;

    open spec fn view(&self) -> EntryV {
        EntryV { sender: self.sender@, amount: self.amount as int }
    }
}

/// Ghost view of a per-token aggregate group.
pub ghost struct TokenGroupV {
    pub token: EntityV,
    pub amount_by_sender: Seq<EntryV>,
}

/// One group of `list_tokens_by_user`: a token a user received, with the
/// per-sender totals of that token.
#[derive(Debug, PartialEq, Eq)]
pub struct RelativeTokenAmountEntry {
    pub token: Token,
    pub amount_by_sender: Vec<RelativeUserTokenAmountEntry>,
}

impl View for RelativeTokenAmountEntry {
    type V = TokenGroupV;

    open spec fn view(&self) -> TokenGroupV {
        TokenGroupV {
            token: self.token@,
            amount_by_sender: self.amount_by_sender@.map_values(
                |e: RelativeUserTokenAmountEntry| e@,
            ),
        }
    }
}

/// Ghost view of a per-receiver aggregate group.
pub ghost struct ReceiverGroupV {
    pub receiver: EntityV,
    pub amount_by_sender: Seq<EntryV>,
}

/// One group of `list_users_by_token`: a receiver of the fixed token, with
/// the per-sender totals it received.
#[derive(Debug, PartialEq, Eq)]
pub struct RelativeUserAmountEntry {
    pub receiver: User,
    pub amount_by_sender: Vec<RelativeUserTokenAmountEntry>,
}

impl View for RelativeUserAmountEntry {
    type V = ReceiverGroupV;

    open spec fn view(&self) -> ReceiverGroupV {
        ReceiverGroupV {
            receiver: self.receiver@,
            amount_by_sender: self.amount_by_sender@.map_values(
                |e: RelativeUserTokenAmountEntry| e@,
            ),
        }
    }
}

/// Ghost view of the whole engine state: the two identity tables and the
/// append-only ledger.
#[verifier::ext_equal]
pub ghost struct CoreView {
    pub users: Seq<EntityV>,
    pub tokens: Seq<EntityV>,
    pub ledger: Seq<RecV>,
}

/// An identity table assigns ids 1, 2, 3, ... in creation order.
pub open spec fn ids_sequential(s: Seq<EntityV>) -> bool {
    forall|i: int| 0 <= i < s.len() ==> #[trigger] s[i].id == i + 1
}

/// Whether some entity in `s` carries `name`.
pub open spec fn has_name(s: Seq<EntityV>, name: Seq<char>) -> bool {
    exists|i: int| 0 <= i < s.len() && #[trigger] s[i].name == name
}

/// Index of the most recently created entity with `name`, or -1 when there
/// is none. With sequential ids this is the match with the highest id, the
/// canonical candidate a by-name resolution selects.
pub open spec fn latest_match(s: Seq<EntityV>, name: Seq<char>) -> int
    decreases s.len(),
{
    if s.len() == 0 {
        -1
    } else if s.last().name == name {
        s.len() - 1
    } else {
        latest_match(s.drop_last(), name)
    }
}

/// `latest_match` finds exactly the last index carrying `name`, and finds
/// one if and only if the name occurs at all.
pub proof fn lemma_latest_match(s: Seq<EntityV>, name: Seq<char>)
    ensures
        has_name(s, name) <==> latest_match(s, name) >= 0,
        latest_match(s, name) >= 0 ==> {
            let l = latest_match(s, name);
            &&& l < s.len()
            &&& s[l].name == name
            &&& forall|j: int| l < j < s.len() ==> #[trigger] s[j].name != name
        },
    decreases s.len(),
{
    if s.len() == 0 {
    } else if s.last().name == name {
        assert(s[s.len() - 1].name == name);
    } else {
        lemma_latest_match(s.drop_last(), name);
        assert(forall|j: int|
            0 <= j < s.len() - 1 ==> s[j] == #[trigger] s.drop_last()[j]);
        let l = latest_match(s, name);
        if l >= 0 {
            assert(s.drop_last()[l].name == name);
            assert forall|j: int| l < j < s.len() implies #[trigger] s[j].name != name by {
                if j < s.len() - 1 {
                    assert(s.drop_last()[j].name != name);
                }
            }
        }
        if has_name(s, name) {
            let w = choose|i: int| 0 <= i < s.len() && #[trigger] s[i].name == name;
            assert(w < s.len() - 1);
            assert(s.drop_last()[w].name == name);
            assert(has_name(s.drop_last(), name));
        }
        if has_name(s.drop_last(), name) {
            let w = choose|i: int|
                0 <= i < s.drop_last().len() && #[trigger] s.drop_last()[i].name == name;
            assert(s[w].name == name);
        }
    }
}

/// The id a strict user reference resolves to: `ById` passes the id through
/// unchecked, `ByName` selects the most recently created match (the one with
/// the highest id) and fails with `NotFound` when there is none.
pub open spec fn user_strict_target(users: Seq<EntityV>, mode: UserQueryModeStrict) -> Result<
    int,
    LedgerError,
> {
    match mode {
        UserQueryModeStrict::ById(id) => Ok(id as int),
        UserQueryModeStrict::ByName(n) => if has_name(users, n@) {
            Ok(latest_match(users, n@) + 1)
        } else {
            Err(LedgerError::NotFound)
        },
    }
}

/// The id a strict token reference resolves to; same rules as for users.
pub open spec fn token_strict_target(tokens: Seq<EntityV>, mode: TokenQueryModeStrict) -> Result<
    int,
    LedgerError,
> {
    match mode {
        TokenQueryModeStrict::ById(id) => Ok(id as int),
        TokenQueryModeStrict::ByName(n) => if has_name(tokens, n@) {
            Ok(latest_match(tokens, n@) + 1)
        } else {
            Err(LedgerError::NotFound)
        },
    }
}

/// Outcome of a creation-capable user resolution: the resolved id (or the
/// error) and the user table afterwards. `ByNameOrCreate` creates a fresh
/// entity only on a lookup miss; an existing name never gains a second
/// entity.
pub open spec fn user_creation_outcome(
    users: Seq<EntityV>,
    mode: UserQueryModeWithCreation,
) -> (Result<int, LedgerError>, Seq<EntityV>) {
    match mode {
        UserQueryModeWithCreation::ById(id) => (Ok(id as int), users),
        UserQueryModeWithCreation::ByName(n) => (
            if has_name(users, n@) {
                Ok(latest_match(users, n@) + 1)
            } else {
                Err(LedgerError::NotFound)
            },
            users,
        ),
        UserQueryModeWithCreation::ByNameOrCreate(n) => if has_name(users, n@) {
            (Ok(latest_match(users, n@) + 1), users)
        } else if users.len() == i64::MAX as int {
            (Err(LedgerError::StorageFailure), users)
        } else {
            (
                Ok(users.len() as int + 1),
                users.push(EntityV { id: users.len() as int + 1, name: n@ }),
            )
        },
    }
}

/// Outcome of a creation-capable token resolution; same rules as for users.
pub open spec fn token_creation_outcome(
    tokens: Seq<EntityV>,
    mode: TokenQueryModeWithCreation,
) -> (Result<int, LedgerError>, Seq<EntityV>) {
    match mode {
        TokenQueryModeWithCreation::ById(id) => (Ok(id as int), tokens),
        TokenQueryModeWithCreation::ByName(n) => (
            if has_name(tokens, n@) {
                Ok(latest_match(tokens, n@) + 1)
            } else {
                Err(LedgerError::NotFound)
            },
            tokens,
        ),
        TokenQueryModeWithCreation::ByNameOrCreate(n) => if has_name(tokens, n@) {
            (Ok(latest_match(tokens, n@) + 1), tokens)
        } else if tokens.len() == i64::MAX as int {
            (Err(LedgerError::StorageFailure), tokens)
        } else {
            (
                Ok(tokens.len() as int + 1),
                tokens.push(EntityV { id: tokens.len() as int + 1, name: n@ }),
            )
        },
    }
}

/// An executable resolution result agrees with a ghost one.
pub open spec fn resolves_to(r: Result<i64, LedgerError>, s: Result<int, LedgerError>) -> bool {
    match (r, s) {
        (Ok(a), Ok(b)) => a as int == b,
        (Err(a), Err(b)) => a == b,
        _ => false,
    }
}

/// Outcome of a transfer's identity resolution step: the resolved triple of
/// ids (or the first failure, resolving the sender, then the receiver, then
/// the token) together with the state afterwards. Entities created by a
/// resolution that completed before a later one failed persist: the storage
/// boundary offers no rollback, and a failure only aborts the transfer
/// before any record is appended.
pub open spec fn transaction_resolution(
    v: CoreView,
    sender: UserQueryModeWithCreation,
    receiver: UserQueryModeWithCreation,
    token: TokenQueryModeWithCreation,
) -> (Result<(int, int, int), LedgerError>, CoreView) {
    let (rs, users1) = user_creation_outcome(v.users, sender);
    let v1 = CoreView { users: users1, ..v };
    match rs {
        Err(e) => (Err(e), v1),
        Ok(s) => {
            let (rr, users2) = user_creation_outcome(users1, receiver);
            let v2 = CoreView { users: users2, ..v1 };
            match rr {
                Err(e) => (Err(e), v2),
                Ok(rcv) => {
                    let (rt, tokens1) = token_creation_outcome(v.tokens, token);
                    let v3 = CoreView { tokens: tokens1, ..v2 };
                    match rt {
                        Err(e) => (Err(e), v3),
                        Ok(t) => (Ok((s, rcv, t)), v3),
                    }
                },
            }
        },
    }
}

/// Whether ledger record `r` belongs to the (sender, receiver, token) triple.
pub open spec fn rec_matches(r: RecV, sender: int, receiver: int, token: int) -> bool {
    r.sender == sender && r.receiver == receiver && r.token == token
}

/// Whether any ledger record exists for the triple. A triple without one has
/// no balance, which is distinct from a balance of zero.
pub open spec fn has_matching(l: Seq<RecV>, sender: int, receiver: int, token: int) -> bool {
    exists|i: int| 0 <= i < l.len() && #[trigger] rec_matches(l[i], sender, receiver, token)
}

/// The balance of a triple: the sum of the amounts of all matching records,
/// in ledger order.
pub open spec fn sum_matching(l: Seq<RecV>, sender: int, receiver: int, token: int) -> int
    decreases l.len(),
{
    if l.len() == 0 {
        0
    } else {
        sum_matching(l.drop_last(), sender, receiver, token) + if rec_matches(
            l.last(),
            sender,
            receiver,
            token,
        ) {
            l.last().amount
        } else {
            0
        }
    }
}

/// A triple without history has balance zero by convention only; the sum
/// over no matching records is zero.
pub proof fn lemma_sum_no_matching(l: Seq<RecV>, sender: int, receiver: int, token: int)
    requires
        !has_matching(l, sender, receiver, token),
    ensures
        sum_matching(l, sender, receiver, token) == 0,
    decreases l.len(),
{
    if l.len() > 0 {
        assert(!rec_matches(l.last(), sender, receiver, token)) by {
            if rec_matches(l[l.len() - 1], sender, receiver, token) {
                assert(has_matching(l, sender, receiver, token));
            }
        }
        assert(!has_matching(l.drop_last(), sender, receiver, token)) by {
            if has_matching(l.drop_last(), sender, receiver, token) {
                let w = choose|i: int|
                    0 <= i < l.drop_last().len() && #[trigger] rec_matches(
                        l.drop_last()[i],
                        sender,
                        receiver,
                        token,
                    );
                assert(rec_matches(l[w], sender, receiver, token));
            }
        }
        lemma_sum_no_matching(l.drop_last(), sender, receiver, token);
    }
}

/// The triple of ids a strict (receiver, token) or (sender, receiver,
/// token) reference set resolves to, resolving the sender first, then the
/// receiver, then the token; the first miss decides the error.
pub open spec fn strict_triple_target(
    v: CoreView,
    sender: UserQueryModeStrict,
    receiver: UserQueryModeStrict,
    token: TokenQueryModeStrict,
) -> Result<(int, int, int), LedgerError> {
    match user_strict_target(v.users, sender) {
        Err(e) => Err(e),
        Ok(s) => match user_strict_target(v.users, receiver) {
            Err(e) => Err(e),
            Ok(r) => match token_strict_target(v.tokens, token) {
                Err(e) => Err(e),
                Ok(t) => Ok((s, r, t)),
            },
        },
    }
}

/// Appending one record moves the balance of its own triple by its amount
/// and leaves every other triple's balance and history untouched.
pub proof fn lemma_sum_matching_push(
    l: Seq<RecV>,
    r: RecV,
    sender: int,
    receiver: int,
    token: int,
)
    ensures
        sum_matching(l.push(r), sender, receiver, token) == sum_matching(
            l,
            sender,
            receiver,
            token,
        ) + if rec_matches(r, sender, receiver, token) {
            r.amount
        } else {
            0
        },
        has_matching(l.push(r), sender, receiver, token) <==> (has_matching(
            l,
            sender,
            receiver,
            token,
        ) || rec_matches(r, sender, receiver, token)),
{
    let lp = l.push(r);
    assert(lp.drop_last() =~= l);
    assert(lp.last() == r);
    if has_matching(l, sender, receiver, token) {
        let w = choose|i: int|
            0 <= i < l.len() && #[trigger] rec_matches(l[i], sender, receiver, token);
        assert(rec_matches(lp[w], sender, receiver, token));
    }
    if rec_matches(r, sender, receiver, token) {
        assert(rec_matches(lp[l.len() as int], sender, receiver, token));
    }
    if has_matching(lp, sender, receiver, token) && !rec_matches(r, sender, receiver, token) {
        let w = choose|i: int|
            0 <= i < lp.len() && #[trigger] rec_matches(lp[i], sender, receiver, token);
        assert(w < l.len());
        assert(rec_matches(l[w], sender, receiver, token));
    }
}

} // verus!
