//! The ledger engine: identity resolution, the append-only balance store,
//! the transfer operation, and the aggregate queries.

use vstd::prelude::*;

use crate::aggregate::{
    entries_sorted, entry_of, entry_views, groups_cover_receiver, groups_cover_token, is_entry_for,
    lemma_is_entry_for_widen, pair_has_history, per_sender_entries_ok, receiver_group_views,
    receiver_groups_ok, reversed, sorted_insert, token_group_views, token_groups_ok,
};
use crate::model::{
    CoreView, EntityV, LedgerError, Order, OrderByReceiverOrSenderOrAmount, OrderBySenderOrAmount,
    OrderByTokenOrSenderOrAmount, RecV, RelativeTokenAmountEntry, RelativeUserAmountEntry,
    RelativeUserTokenAmountEntry, Token, TokenQueryModeStrict, TokenQueryModeWithCreation,
    TransactionRecord, User, UserQueryModeStrict, UserQueryModeWithCreation, has_matching,
    has_name, ids_sequential, latest_match, lemma_latest_match, lemma_sum_matching_push,
    lemma_sum_no_matching, rec_matches, resolves_to, strict_triple_target, sum_matching,
    token_creation_outcome, token_strict_target, transaction_resolution, user_creation_outcome,
    user_strict_target,
};

verus! {

/// Cached current total of one (sender, receiver, token) triple. Derived
/// state: always equal to the sum of the matching ledger records.
#[derive(Clone, Copy)]
struct TotalRec {
    sender: i64,
    receiver: i64,
    token: i64,
    amount: i32,
}

/// The transaction ledger engine. Holds the two identity tables, the
/// append-only transaction history, and a derived per-triple total.
pub struct Core {
    users: Vec<User>,
    tokens: Vec<Token>,
    history: Vec<TransactionRecord>,
    totals: Vec<TotalRec>,
}

impl View for Core {
    type V = CoreView;

    closed spec fn view(&self) -> CoreView {
        CoreView {
            users: self.users@.map_values(|u: User| u@),
            tokens: self.tokens@.map_values(|t: Token| t@),
            ledger: self.history@.map_values(|r: TransactionRecord| r@),
        }
    }
}

/// Every ledger record references existing user and token ids.
pub open spec fn ledger_valid(l: Seq<RecV>, n_users: int, n_tokens: int) -> bool {
    forall|i: int| 0 <= i < l.len() ==> {
        let r = #[trigger] l[i];
        &&& 1 <= r.sender <= n_users
        &&& 1 <= r.receiver <= n_users
        &&& 1 <= r.token <= n_tokens
    }
}

impl Core {
    /// The triple a cache record stands for, as ghost integers.
    spec fn cache_triple(c: TotalRec) -> (int, int, int) {
        (c.sender as int, c.receiver as int, c.token as int)
    }

    /// Whether the cache has an entry for the triple.
    spec fn cache_covers(c: Seq<TotalRec>, sender: int, receiver: int, token: int) -> bool {
        exists|i: int|
            0 <= i < c.len() && Self::cache_triple(#[trigger] c[i]) == (sender, receiver, token)
    }

    /// The derived totals agree with the ledger: every cached triple has
    /// history and carries the exact sum, cached triples are distinct, and
    /// every triple with history is cached.
    spec fn totals_ok(&self) -> bool {
        let l = self@.ledger;
        let c = self.totals@;
        &&& forall|i: int| 0 <= i < c.len() ==> {
            let t = Self::cache_triple(#[trigger] c[i]);
            &&& has_matching(l, t.0, t.1, t.2)
            &&& c[i].amount as int == sum_matching(l, t.0, t.1, t.2)
        }
        &&& forall|i: int, j: int| 0 <= i < j < c.len()
            ==> Self::cache_triple(#[trigger] c[i]) != Self::cache_triple(#[trigger] c[j])
        &&& forall|k: int| 0 <= k < l.len() ==> #[trigger] Self::cache_covers(
            c,
            l[k].sender,
            l[k].receiver,
            l[k].token,
        )
    }

    /// The totals cache only depends on the cache itself and the ledger:
    /// a state with the same cache and ledger has an equally good cache.
    proof fn lemma_totals_ok_stable(a: &Core, b: &Core)
        requires
            a.totals_ok(),
            b.totals@ == a.totals@,
            b@.ledger == a@.ledger,
        ensures
            b.totals_ok(),
    {
        let l = b@.ledger;
        let c = b.totals@;
        assert forall|i: int| 0 <= i < c.len() implies {
            let t = Self::cache_triple(#[trigger] c[i]);
            &&& has_matching(l, t.0, t.1, t.2)
            &&& c[i].amount as int == sum_matching(l, t.0, t.1, t.2)
        } by {
            assert(a.totals@[i] == c[i]);
        }
        assert forall|k: int| 0 <= k < l.len() implies #[trigger] Self::cache_covers(
            c,
            l[k].sender,
            l[k].receiver,
            l[k].token,
        ) by {
            assert(a@.ledger[k] == l[k]);
            assert(Self::cache_covers(
                a.totals@,
                a@.ledger[k].sender,
                a@.ledger[k].receiver,
                a@.ledger[k].token,
            ));
        }
    }

    /// Well-formedness: sequential ids in both identity tables, only
    /// existing ids in the ledger, and a consistent totals cache.
    pub closed spec fn wf(&self) -> bool {
        &&& ids_sequential(self@.users)
        &&& ids_sequential(self@.tokens)
        &&& ledger_valid(self@.ledger, self@.users.len() as int, self@.tokens.len() as int)
        &&& self.totals_ok()
    }

    /// A fresh engine with no users, no tokens and an empty ledger.
    pub fn new() -> (c: Core)
        ensures
            c.wf(),
            c@.users =~= Seq::<EntityV>::empty(),
            c@.tokens =~= Seq::<EntityV>::empty(),
            c@.ledger =~= Seq::<RecV>::empty(),
    {
        let c = Core {
            users: Vec::new(),
            tokens: Vec::new(),
            history: Vec::new(),
            totals: Vec::new(),
        };
        proof {
            assert(c@.users =~= Seq::<EntityV>::empty());
            assert(c@.tokens =~= Seq::<EntityV>::empty());
            assert(c@.ledger =~= Seq::<RecV>::empty());
        }
        c
    }

    /// Registers a new user under `name` and returns it. The fresh id is
    /// one past the previous newest. Fails with `StorageFailure` exactly
    /// when the id space is exhausted.
    pub fn create_user(&mut self, name: &str) -> (r: Result<User, LedgerError>)
        requires
            old(self).wf(),
        ensures
            final(self).wf(),
            final(self)@.tokens == old(self)@.tokens,
            final(self)@.ledger == old(self)@.ledger,
            r matches Ok(u) ==> {
                &&& u@ == (EntityV { id: old(self)@.users.len() as int + 1, name: name@ })
                &&& final(self)@.users == old(self)@.users.push(u@)
            },
            r is Err ==> *final(self) == *old(self) && r == Err::<User, LedgerError>(
                LedgerError::StorageFailure,
            ),
            r is Err <==> old(self)@.users.len() == i64::MAX as int,
    {
        if self.users.len() as u64 >= i64::MAX as u64 {
            proof {
                let n = self@.users.len() as int;
                assert(self@.users[n - 1].id == n);
            }
            return Err(LedgerError::StorageFailure);
        }
        let id = self.users.len() as i64 + 1;
        let u = User { id, name: name.to_owned() };
        self.users.push(User { id, name: name.to_owned() });
        proof {
            assert(final(self)@.users =~= old(self)@.users.push(u@));
            assert(final(self)@.tokens =~= old(self)@.tokens);
            assert(final(self)@.ledger =~= old(self)@.ledger);
            assert forall|i: int| 0 <= i < final(self)@.users.len()
                implies #[trigger] final(self)@.users[i].id == i + 1 by {
                if i < old(self)@.users.len() {
                    assert(old(self)@.users[i].id == i + 1);
                }
            }
            Self::lemma_totals_ok_stable(old(self), self);
        }
        Ok(u)
    }

    /// Registers a new token under `name`; same rules as `create_user`.
    pub fn create_token(&mut self, name: &str) -> (r: Result<Token, LedgerError>)
        requires
            old(self).wf(),
        ensures
            final(self).wf(),
            final(self)@.users == old(self)@.users,
            final(self)@.ledger == old(self)@.ledger,
            r matches Ok(t) ==> {
                &&& t@ == (EntityV { id: old(self)@.tokens.len() as int + 1, name: name@ })
                &&& final(self)@.tokens == old(self)@.tokens.push(t@)
            },
            r is Err ==> *final(self) == *old(self) && r == Err::<Token, LedgerError>(
                LedgerError::StorageFailure,
            ),
            r is Err <==> old(self)@.tokens.len() == i64::MAX as int,
    {
        if self.tokens.len() as u64 >= i64::MAX as u64 {
            proof {
                let n = self@.tokens.len() as int;
                assert(self@.tokens[n - 1].id == n);
            }
            return Err(LedgerError::StorageFailure);
        }
        let id = self.tokens.len() as i64 + 1;
        let t = Token { id, name: name.to_owned() };
        self.tokens.push(Token { id, name: name.to_owned() });
        proof {
            assert(final(self)@.tokens =~= old(self)@.tokens.push(t@));
            assert(final(self)@.users =~= old(self)@.users);
            assert(final(self)@.ledger =~= old(self)@.ledger);
            assert forall|i: int| 0 <= i < final(self)@.tokens.len()
                implies #[trigger] final(self)@.tokens[i].id == i + 1 by {
                if i < old(self)@.tokens.len() {
                    assert(old(self)@.tokens[i].id == i + 1);
                }
            }
            Self::lemma_totals_ok_stable(old(self), self);
        }
        Ok(t)
    }

    /// A cloned copy of the user at `i`.
    fn user_at(&self, i: usize) -> (u: User)
        requires
            i < self.users@.len(),
        ensures
            u@ == self@.users[i as int],
    {
        let x = &self.users[i];
        let u = User { id: x.id, name: x.name.clone() };
        proof {
            assert(self@.users[i as int] == self.users@[i as int]@);
        }
        u
    }

    /// A cloned copy of the token at `i`.
    fn token_at(&self, i: usize) -> (t: Token)
        requires
            i < self.tokens@.len(),
        ensures
            t@ == self@.tokens[i as int],
    {
        let x = &self.tokens[i];
        let t = Token { id: x.id, name: x.name.clone() };
        proof {
            assert(self@.tokens[i as int] == self.tokens@[i as int]@);
        }
        t
    }

    /// Index of the most recently created user named `name`, if any.
    fn find_user_by_name(&self, name: &str) -> (r: Option<usize>)
        ensures
            r matches Some(i) ==> i < self@.users.len() && i as int == latest_match(
                self@.users,
                name@,
            ),
            r is Some <==> has_name(self@.users, name@),
    {
        let needle: String = name.to_owned();
        let mut i: usize = self.users.len();
        while i > 0
            invariant
                needle@ == name@,
                i <= self@.users.len(),
                self@.users.len() == self.users@.len(),
                forall|j: int| i <= j < self@.users.len() ==> #[trigger] self@.users[j].name
                    != name@,
            decreases i,
        {
            i = i - 1;
            proof {
                assert(self@.users[i as int] == self.users@[i as int]@);
            }
            if self.users[i].name == needle {
                proof {
                    assert(self@.users[i as int].name == name@);
                    lemma_latest_match(self@.users, name@);
                }
                return Some(i);
            }
        }
        proof {
            lemma_latest_match(self@.users, name@);
        }
        None
    }

    /// Index of the most recently created token named `name`, if any.
    fn find_token_by_name(&self, name: &str) -> (r: Option<usize>)
        ensures
            r matches Some(i) ==> i < self@.tokens.len() && i as int == latest_match(
                self@.tokens,
                name@,
            ),
            r is Some <==> has_name(self@.tokens, name@),
    {
        let needle: String = name.to_owned();
        let mut i: usize = self.tokens.len();
        while i > 0
            invariant
                needle@ == name@,
                i <= self@.tokens.len(),
                self@.tokens.len() == self.tokens@.len(),
                forall|j: int| i <= j < self@.tokens.len() ==> #[trigger] self@.tokens[j].name
                    != name@,
            decreases i,
        {
            i = i - 1;
            proof {
                assert(self@.tokens[i as int] == self.tokens@[i as int]@);
            }
            if self.tokens[i].name == needle {
                proof {
                    assert(self@.tokens[i as int].name == name@);
                    lemma_latest_match(self@.tokens, name@);
                }
                return Some(i);
            }
        }
        proof {
            lemma_latest_match(self@.tokens, name@);
        }
        None
    }

    /// Looks a user up by name, selecting the most recently created match;
    /// on a miss, creates one when `create_if_missing` is set, else fails
    /// with `NotFound`.
    pub fn get_or_create_user_by_name(&mut self, name: &str, create_if_missing: bool) -> (r:
        Result<User, LedgerError>)
        requires
            old(self).wf(),
        ensures
            final(self).wf(),
            final(self)@.tokens == old(self)@.tokens,
            final(self)@.ledger == old(self)@.ledger,
            has_name(old(self)@.users, name@) ==> {
                &&& *final(self) == *old(self)
                &&& r matches Ok(u) && u@ == old(self)@.users[latest_match(
                    old(self)@.users,
                    name@,
                )]
            },
            !has_name(old(self)@.users, name@) && !create_if_missing ==> *final(self) == *old(self)
                && r == Err::<User, LedgerError>(LedgerError::NotFound),
            !has_name(old(self)@.users, name@) && create_if_missing ==> {
                &&& r matches Ok(u) ==> {
                    &&& u@ == (EntityV {
                        id: old(self)@.users.len() as int + 1,
                        name: name@,
                    })
                    &&& final(self)@.users == old(self)@.users.push(u@)
                }
                &&& r is Err ==> *final(self) == *old(self) && r == Err::<User, LedgerError>(
                    LedgerError::StorageFailure,
                )
                &&& (r is Err <==> old(self)@.users.len() == i64::MAX as int)
            },
    {
        match self.find_user_by_name(name) {
            Some(i) => Ok(self.user_at(i)),
            None => {
                if create_if_missing {
                    self.create_user(name)
                } else {
                    Err(LedgerError::NotFound)
                }
            },
        }
    }

    /// Looks a token up by name, selecting the most recently created match;
    /// on a miss, creates one when `create_if_missing` is set, else fails
    /// with `NotFound`.
    pub fn get_or_create_token_by_name(&mut self, name: &str, create_if_missing: bool) -> (r:
        Result<Token, LedgerError>)
        requires
            old(self).wf(),
        ensures
            final(self).wf(),
            final(self)@.users == old(self)@.users,
            final(self)@.ledger == old(self)@.ledger,
            has_name(old(self)@.tokens, name@) ==> {
                &&& *final(self) == *old(self)
                &&& r matches Ok(t) && t@ == old(self)@.tokens[latest_match(
                    old(self)@.tokens,
                    name@,
                )]
            },
            !has_name(old(self)@.tokens, name@) && !create_if_missing ==> *final(self) == *old(
                self,
            ) && r == Err::<Token, LedgerError>(LedgerError::NotFound),
            !has_name(old(self)@.tokens, name@) && create_if_missing ==> {
                &&& r matches Ok(t) ==> {
                    &&& t@ == (EntityV {
                        id: old(self)@.tokens.len() as int + 1,
                        name: name@,
                    })
                    &&& final(self)@.tokens == old(self)@.tokens.push(t@)
                }
                &&& r is Err ==> *final(self) == *old(self) && r == Err::<Token, LedgerError>(
                    LedgerError::StorageFailure,
                )
                &&& (r is Err <==> old(self)@.tokens.len() == i64::MAX as int)
            },
    {
        match self.find_token_by_name(name) {
            Some(i) => Ok(self.token_at(i)),
            None => {
                if create_if_missing {
                    self.create_token(name)
                } else {
                    Err(LedgerError::NotFound)
                }
            },
        }
    }

    /// Resolves a strict user reference to an id. `ById` is passed through
    /// unchecked; a `ByName` miss fails with `NotFound`.
    pub fn resolve_user_strict(&self, mode: &UserQueryModeStrict) -> (r: Result<i64, LedgerError>)
        requires
            self.wf(),
        ensures
            resolves_to(r, user_strict_target(self@.users, *mode)),
    {
        match mode {
            UserQueryModeStrict::ById(id) => Ok(*id),
            UserQueryModeStrict::ByName(n) => match self.find_user_by_name(n) {
                Some(i) => {
                    proof {
                        assert(self@.users[i as int].id == i as int + 1);
                        assert(self@.users[i as int] == self.users@[i as int]@);
                    }
                    Ok(self.users[i].id)
                },
                None => Err(LedgerError::NotFound),
            },
        }
    }

    /// Resolves a strict token reference to an id; same rules as for users.
    pub fn resolve_token_strict(&self, mode: &TokenQueryModeStrict) -> (r: Result<
        i64,
        LedgerError,
    >)
        requires
            self.wf(),
        ensures
            resolves_to(r, token_strict_target(self@.tokens, *mode)),
    {
        match mode {
            TokenQueryModeStrict::ById(id) => Ok(*id),
            TokenQueryModeStrict::ByName(n) => match self.find_token_by_name(n) {
                Some(i) => {
                    proof {
                        assert(self@.tokens[i as int].id == i as int + 1);
                        assert(self@.tokens[i as int] == self.tokens@[i as int]@);
                    }
                    Ok(self.tokens[i].id)
                },
                None => Err(LedgerError::NotFound),
            },
        }
    }

    /// Resolves a creation-capable user reference to an id, creating a
    /// fresh user on a `ByNameOrCreate` miss.
    pub fn resolve_user(&mut self, mode: &UserQueryModeWithCreation) -> (r: Result<
        i64,
        LedgerError,
    >)
        requires
            old(self).wf(),
        ensures
            final(self).wf(),
            final(self)@.tokens == old(self)@.tokens,
            final(self)@.ledger == old(self)@.ledger,
            final(self)@.users == user_creation_outcome(old(self)@.users, *mode).1,
            resolves_to(r, user_creation_outcome(old(self)@.users, *mode).0),
    {
        match mode {
            UserQueryModeWithCreation::ById(id) => Ok(*id),
            UserQueryModeWithCreation::ByName(n) => {
                proof {
                    lemma_latest_match(old(self)@.users, n@);
                }
                match self.get_or_create_user_by_name(n, false) {
                    Ok(u) => {
                        proof {
                            let l = latest_match(old(self)@.users, n@);
                            assert(old(self)@.users[l].id == l + 1);
                        }
                        Ok(u.id)
                    },
                    Err(e) => Err(e),
                }
            },
            UserQueryModeWithCreation::ByNameOrCreate(n) => {
                proof {
                    lemma_latest_match(old(self)@.users, n@);
                }
                match self.get_or_create_user_by_name(n, true) {
                    Ok(u) => {
                        proof {
                            if has_name(old(self)@.users, n@) {
                                let l = latest_match(old(self)@.users, n@);
                                assert(old(self)@.users[l].id == l + 1);
                            }
                        }
                        Ok(u.id)
                    },
                    Err(e) => Err(e),
                }
            },
        }
    }

    /// Resolves a creation-capable token reference to an id, creating a
    /// fresh token on a `ByNameOrCreate` miss.
    pub fn resolve_token(&mut self, mode: &TokenQueryModeWithCreation) -> (r: Result<
        i64,
        LedgerError,
    >)
        requires
            old(self).wf(),
        ensures
            final(self).wf(),
            final(self)@.users == old(self)@.users,
            final(self)@.ledger == old(self)@.ledger,
            final(self)@.tokens == token_creation_outcome(old(self)@.tokens, *mode).1,
            resolves_to(r, token_creation_outcome(old(self)@.tokens, *mode).0),
    {
        match mode {
            TokenQueryModeWithCreation::ById(id) => Ok(*id),
            TokenQueryModeWithCreation::ByName(n) => {
                proof {
                    lemma_latest_match(old(self)@.tokens, n@);
                }
                match self.get_or_create_token_by_name(n, false) {
                    Ok(t) => {
                        proof {
                            let l = latest_match(old(self)@.tokens, n@);
                            assert(old(self)@.tokens[l].id == l + 1);
                        }
                        Ok(t.id)
                    },
                    Err(e) => Err(e),
                }
            },
            TokenQueryModeWithCreation::ByNameOrCreate(n) => {
                proof {
                    lemma_latest_match(old(self)@.tokens, n@);
                }
                match self.get_or_create_token_by_name(n, true) {
                    Ok(t) => {
                        proof {
                            if has_name(old(self)@.tokens, n@) {
                                let l = latest_match(old(self)@.tokens, n@);
                                assert(old(self)@.tokens[l].id == l + 1);
                            }
                        }
                        Ok(t.id)
                    },
                    Err(e) => Err(e),
                }
            },
        }
    }

    /// All registered users, in creation order.
    pub fn query_all_users(&self) -> (r: Result<Vec<User>, LedgerError>)
        ensures
            r matches Ok(us) && us@.map_values(|u: User| u@) == self@.users,
    {
        let mut out: Vec<User> = Vec::new();
        let mut i: usize = 0;
        proof {
            assert(out@.map_values(|u: User| u@) =~= self@.users.take(0));
        }
        while i < self.users.len()
            invariant
                i <= self@.users.len(),
                self@.users.len() == self.users@.len(),
                out@.map_values(|u: User| u@) == self@.users.take(i as int),
            decreases self@.users.len() - i,
        {
            let u = self.user_at(i);
            let ghost prev = out@.map_values(|u: User| u@);
            out.push(u);
            proof {
                assert(out@.map_values(|u: User| u@) =~= prev.push(
                    self@.users[i as int],
                ));
                assert(prev.push(self@.users[i as int]) =~= self@.users.take(i as int + 1));
            }
            i = i + 1;
        }
        proof {
            assert(self@.users.take(self@.users.len() as int) =~= self@.users);
        }
        Ok(out)
    }

    /// The users matching the name filter, in creation order; without a
    /// filter, all users. An unknown name yields an empty sequence, not an
    /// error.
    pub fn query_user(&self, name: Option<&str>) -> (r: Result<Vec<User>, LedgerError>)
        ensures
            name is None ==> (r matches Ok(us) && us@.map_values(|u: User| u@) == self@.users),
            name matches Some(n) ==> (r matches Ok(us) && us@.map_values(|u: User| u@)
                == self@.users.filter(|e: EntityV| e.name == n@)),
    {
        let n = match name {
            None => {
                return self.query_all_users();
            },
            Some(n) => n,
        };
        let needle: String = n.to_owned();
        let mut out: Vec<User> = Vec::new();
        let mut i: usize = 0;
        proof {
            assert(out@.map_values(|u: User| u@) =~= self@.users.take(0).filter(
                |e: EntityV| e.name == n@,
            ));
        }
        while i < self.users.len()
            invariant
                i <= self@.users.len(),
                self@.users.len() == self.users@.len(),
                needle@ == n@,
                out@.map_values(|u: User| u@) == self@.users.take(i as int).filter(
                    |e: EntityV| e.name == n@,
                ),
            decreases self@.users.len() - i,
        {
            proof {
                assert(self@.users[i as int] == self.users@[i as int]@);
                assert(self@.users.take(i as int + 1).drop_last() =~= self@.users.take(i as int));
                assert(self@.users.take(i as int + 1).last() == self@.users[i as int]);
            }
            let ghost prev = out@.map_values(|u: User| u@);
            if self.users[i].name == needle {
                let u = self.user_at(i);
                out.push(u);
                proof {
                    reveal_with_fuel(Seq::filter, 2);
                    assert(out@.map_values(|u: User| u@) =~= prev.push(self@.users[i as int]));
                    assert(self@.users.take(i as int + 1).filter(|e: EntityV| e.name == n@)
                        == prev.push(self@.users[i as int]));
                }
            } else {
                proof {
                    reveal_with_fuel(Seq::filter, 2);
                    assert(self@.users[i as int].name != n@);
                    assert(self@.users.take(i as int + 1).filter(|e: EntityV| e.name == n@)
                        == prev);
                }
            }
            i = i + 1;
        }
        proof {
            assert(self@.users.take(self@.users.len() as int) =~= self@.users);
        }
        Ok(out)
    }

    /// All registered tokens, in creation order.
    pub fn query_all_tokens(&self) -> (r: Result<Vec<Token>, LedgerError>)
        ensures
            r matches Ok(ts) && ts@.map_values(|t: Token| t@) == self@.tokens,
    {
        let mut out: Vec<Token> = Vec::new();
        let mut i: usize = 0;
        proof {
            assert(out@.map_values(|t: Token| t@) =~= self@.tokens.take(0));
        }
        while i < self.tokens.len()
            invariant
                i <= self@.tokens.len(),
                self@.tokens.len() == self.tokens@.len(),
                out@.map_values(|t: Token| t@) == self@.tokens.take(i as int),
            decreases self@.tokens.len() - i,
        {
            let t = self.token_at(i);
            let ghost prev = out@.map_values(|t: Token| t@);
            out.push(t);
            proof {
                assert(out@.map_values(|t: Token| t@) =~= prev.push(
                    self@.tokens[i as int],
                ));
                assert(prev.push(self@.tokens[i as int]) =~= self@.tokens.take(i as int + 1));
            }
            i = i + 1;
        }
        proof {
            assert(self@.tokens.take(self@.tokens.len() as int) =~= self@.tokens);
        }
        Ok(out)
    }

    /// The tokens matching the name filter, in creation order; without a
    /// filter, all tokens.
    pub fn query_token(&self, name: Option<&str>) -> (r: Result<Vec<Token>, LedgerError>)
        ensures
            name is None ==> (r matches Ok(ts) && ts@.map_values(|t: Token| t@) == self@.tokens),
            name matches Some(n) ==> (r matches Ok(ts) && ts@.map_values(|t: Token| t@)
                == self@.tokens.filter(|e: EntityV| e.name == n@)),
    {
        let n = match name {
            None => {
                return self.query_all_tokens();
            },
            Some(n) => n,
        };
        let needle: String = n.to_owned();
        let mut out: Vec<Token> = Vec::new();
        let mut i: usize = 0;
        proof {
            assert(out@.map_values(|t: Token| t@) =~= self@.tokens.take(0).filter(
                |e: EntityV| e.name == n@,
            ));
        }
        while i < self.tokens.len()
            invariant
                i <= self@.tokens.len(),
                self@.tokens.len() == self.tokens@.len(),
                needle@ == n@,
                out@.map_values(|t: Token| t@) == self@.tokens.take(i as int).filter(
                    |e: EntityV| e.name == n@,
                ),
            decreases self@.tokens.len() - i,
        {
            proof {
                assert(self@.tokens[i as int] == self.tokens@[i as int]@);
                assert(self@.tokens.take(i as int + 1).drop_last() =~= self@.tokens.take(i as int));
                assert(self@.tokens.take(i as int + 1).last() == self@.tokens[i as int]);
            }
            let ghost prev = out@.map_values(|t: Token| t@);
            if self.tokens[i].name == needle {
                let t = self.token_at(i);
                out.push(t);
                proof {
                    reveal_with_fuel(Seq::filter, 2);
                    assert(out@.map_values(|t: Token| t@) =~= prev.push(self@.tokens[i as int]));
                    assert(self@.tokens.take(i as int + 1).filter(|e: EntityV| e.name == n@)
                        == prev.push(self@.tokens[i as int]));
                }
            } else {
                proof {
                    reveal_with_fuel(Seq::filter, 2);
                    assert(self@.tokens[i as int].name != n@);
                    assert(self@.tokens.take(i as int + 1).filter(|e: EntityV| e.name == n@)
                        == prev);
                }
            }
            i = i + 1;
        }
        proof {
            assert(self@.tokens.take(self@.tokens.len() as int) =~= self@.tokens);
        }
        Ok(out)
    }

    /// Index of the cache entry for the triple, if one exists.
    fn find_cache(&self, sender: i64, receiver: i64, token: i64) -> (r: Option<usize>)
        ensures
            r matches Some(k) ==> k < self.totals@.len() && Self::cache_triple(
                self.totals@[k as int],
            ) == (sender as int, receiver as int, token as int),
            r is None ==> !Self::cache_covers(
                self.totals@,
                sender as int,
                receiver as int,
                token as int,
            ),
    {
        let mut k: usize = 0;
        while k < self.totals.len()
            invariant
                k <= self.totals@.len(),
                forall|j: int| 0 <= j < k ==> Self::cache_triple(#[trigger] self.totals@[j]) != (
                    sender as int,
                    receiver as int,
                    token as int,
                ),
            decreases self.totals@.len() - k,
        {
            let c = self.totals[k];
            if c.sender == sender && c.receiver == receiver && c.token == token {
                return Some(k);
            }
            k = k + 1;
        }
        proof {
            if Self::cache_covers(self.totals@, sender as int, receiver as int, token as int) {
                let w = choose|i: int|
                    0 <= i < self.totals@.len() && Self::cache_triple(
                        #[trigger] self.totals@[i],
                    ) == (sender as int, receiver as int, token as int);
                assert(Self::cache_triple(self.totals@[w]) != (
                    sender as int,
                    receiver as int,
                    token as int,
                ));
            }
        }
        None
    }

    /// The current balance of a triple of ids: `None` when the triple has no
    /// history at all, else the sum of all matching amounts in ledger order.
    fn current_total(&self, sender: i64, receiver: i64, token: i64) -> (r: Option<i32>)
        requires
            self.wf(),
        ensures
            r matches Some(a) ==> has_matching(
                self@.ledger,
                sender as int,
                receiver as int,
                token as int,
            ) && a as int == sum_matching(
                self@.ledger,
                sender as int,
                receiver as int,
                token as int,
            ),
            r is None <==> !has_matching(
                self@.ledger,
                sender as int,
                receiver as int,
                token as int,
            ),
    {
        match self.find_cache(sender, receiver, token) {
            Some(k) => {
                proof {
                    assert(Self::cache_triple(self.totals@[k as int]) == (
                        sender as int,
                        receiver as int,
                        token as int,
                    ));
                }
                Some(self.totals[k].amount)
            },
            None => {
                proof {
                    if has_matching(self@.ledger, sender as int, receiver as int, token as int) {
                        let j = choose|i: int|
                            0 <= i < self@.ledger.len() && #[trigger] rec_matches(
                                self@.ledger[i],
                                sender as int,
                                receiver as int,
                                token as int,
                            );
                        assert(Self::cache_covers(
                            self.totals@,
                            self@.ledger[j].sender,
                            self@.ledger[j].receiver,
                            self@.ledger[j].token,
                        ));
                    }
                }
                None
            },
        }
    }

    /// The current balance under strict identity references: the references
    /// are resolved (a `ByName` miss fails the query with `NotFound`), then
    /// the triple's balance is read. `Ok(None)` means no history; `Some(0)`
    /// means the history sums to zero.
    pub fn get_current_total(
        &self,
        sender: UserQueryModeStrict,
        receiver: UserQueryModeStrict,
        token: TokenQueryModeStrict,
    ) -> (r: Result<Option<i32>, LedgerError>)
        requires
            self.wf(),
        ensures
            match strict_triple_target(self@, sender, receiver, token) {
                Ok(t) => r matches Ok(cur) && (cur matches Some(a) ==> has_matching(
                    self@.ledger,
                    t.0,
                    t.1,
                    t.2,
                ) && a as int == sum_matching(self@.ledger, t.0, t.1, t.2)) && (cur is None
                    <==> !has_matching(self@.ledger, t.0, t.1, t.2)),
                Err(e) => r == Err::<Option<i32>, LedgerError>(e),
            },
    {
        let s_id = match self.resolve_user_strict(&sender) {
            Ok(v) => v,
            Err(e) => {
                return Err(e);
            },
        };
        let r_id = match self.resolve_user_strict(&receiver) {
            Ok(v) => v,
            Err(e) => {
                return Err(e);
            },
        };
        let t_id = match self.resolve_token_strict(&token) {
            Ok(v) => v,
            Err(e) => {
                return Err(e);
            },
        };
        Ok(self.current_total(s_id, r_id, t_id))
    }

    /// Appends one transaction record, keeping the derived totals in step.
    /// Returns the record's own amount. Fails with `StorageFailure`, leaving
    /// the state untouched, exactly when a referenced id does not exist or
    /// the triple's new balance would leave the representable range.
    fn append_record(&mut self, sender: i64, receiver: i64, token: i64, amount: i32) -> (r: Result<
        i32,
        LedgerError,
    >)
        requires
            old(self).wf(),
        ensures
            final(self).wf(),
            final(self)@.users == old(self)@.users,
            final(self)@.tokens == old(self)@.tokens,
            r is Ok <==> ({
                &&& 1 <= sender as int <= old(self)@.users.len()
                &&& 1 <= receiver as int <= old(self)@.users.len()
                &&& 1 <= token as int <= old(self)@.tokens.len()
                &&& i32::MIN <= sum_matching(
                    old(self)@.ledger,
                    sender as int,
                    receiver as int,
                    token as int,
                ) + amount <= i32::MAX
            }),
            r matches Ok(a) ==> a == amount && final(self)@.ledger == old(self)@.ledger.push(
                RecV {
                    sender: sender as int,
                    receiver: receiver as int,
                    token: token as int,
                    amount: amount as int,
                },
            ),
            r is Err ==> *final(self) == *old(self) && r == Err::<i32, LedgerError>(
                LedgerError::StorageFailure,
            ),
    {
        let ghost si = sender as int;
        let ghost ri = receiver as int;
        let ghost ti = token as int;
        let ghost l0 = self@.ledger;
        if sender < 1 || sender as u64 > self.users.len() as u64 || receiver < 1
            || receiver as u64 > self.users.len() as u64 || token < 1 || token as u64
            > self.tokens.len() as u64 {
            return Err(LedgerError::StorageFailure);
        }
        let cache_idx = self.find_cache(sender, receiver, token);
        let old_amt: i32 = match cache_idx {
            Some(k) => self.totals[k].amount,
            None => 0,
        };
        proof {
            match cache_idx {
                Some(k) => {
                    assert(old_amt as int == sum_matching(l0, si, ri, ti));
                },
                None => {
                    if has_matching(l0, si, ri, ti) {
                        let j = choose|i: int|
                            0 <= i < l0.len() && #[trigger] rec_matches(l0[i], si, ri, ti);
                        assert(Self::cache_covers(
                            self.totals@,
                            l0[j].sender,
                            l0[j].receiver,
                            l0[j].token,
                        ));
                    }
                    lemma_sum_no_matching(l0, si, ri, ti);
                },
            }
        }
        let new_total: i64 = old_amt as i64 + amount as i64;
        if new_total > i32::MAX as i64 || new_total < i32::MIN as i64 {
            return Err(LedgerError::StorageFailure);
        }
        let rec = TransactionRecord { sender, receiver, token, amount };
        let ghost rv = rec@;
        self.history.push(rec);
        proof {
            assert(self@.ledger =~= l0.push(rv));
            assert(self@.users =~= old(self)@.users);
            assert(self@.tokens =~= old(self)@.tokens);
        }
        let entry = TotalRec { sender, receiver, token, amount: new_total as i32 };
        match cache_idx {
            Some(k) => {
                self.totals[k] = entry;
            },
            None => {
                self.totals.push(entry);
            },
        }
        proof {
            let l1 = l0.push(rv);
            let c0 = old(self).totals@;
            let c1 = self.totals@;
            assert(rec_matches(rv, si, ri, ti));
            // every cache entry still carries the exact sum and a history
            assert forall|i: int| 0 <= i < c1.len() implies {
                let t = Self::cache_triple(#[trigger] c1[i]);
                &&& has_matching(l1, t.0, t.1, t.2)
                &&& c1[i].amount as int == sum_matching(l1, t.0, t.1, t.2)
            } by {
                let t = Self::cache_triple(c1[i]);
                lemma_sum_matching_push(l0, rv, t.0, t.1, t.2);
                match cache_idx {
                    Some(k) => {
                        if i == k {
                            assert(c1[i] == entry);
                        } else {
                            assert(c1[i] == c0[i]);
                            assert(Self::cache_triple(c0[i]) != Self::cache_triple(c0[k as int]));
                            assert(!rec_matches(rv, t.0, t.1, t.2));
                        }
                    },
                    None => {
                        if i == c1.len() - 1 {
                            assert(c1[i] == entry);
                        } else {
                            assert(c1[i] == c0[i]);
                            assert(!Self::cache_covers(c0, si, ri, ti));
                            assert(!rec_matches(rv, t.0, t.1, t.2)) by {
                                if rec_matches(rv, t.0, t.1, t.2) {
                                    assert(Self::cache_triple(c0[i]) == (si, ri, ti));
                                }
                            }
                        }
                    },
                }
            }
            // cached triples stay distinct
            assert forall|i: int, j: int| 0 <= i < j < c1.len() implies Self::cache_triple(
                #[trigger] c1[i],
            ) != Self::cache_triple(#[trigger] c1[j]) by {
                match cache_idx {
                    Some(k) => {
                        assert(Self::cache_triple(c1[i]) == Self::cache_triple(c0[i]));
                        assert(Self::cache_triple(c1[j]) == Self::cache_triple(c0[j]));
                    },
                    None => {
                        if j == c1.len() - 1 {
                            assert(c1[i] == c0[i]);
                            assert(!Self::cache_covers(c0, si, ri, ti));
                            if Self::cache_triple(c1[i]) == (si, ri, ti) {
                                assert(Self::cache_triple(c0[i]) == (si, ri, ti));
                            }
                        } else {
                            assert(c1[i] == c0[i] && c1[j] == c0[j]);
                        }
                    },
                }
            }
            // every triple with history is still cached
            assert forall|k2: int| 0 <= k2 < l1.len() implies #[trigger] Self::cache_covers(
                c1,
                l1[k2].sender,
                l1[k2].receiver,
                l1[k2].token,
            ) by {
                if k2 == l1.len() - 1 {
                    match cache_idx {
                        Some(k) => {
                            assert(Self::cache_triple(c1[k as int]) == (si, ri, ti));
                        },
                        None => {
                            assert(Self::cache_triple(c1[c1.len() - 1]) == (si, ri, ti));
                        },
                    }
                } else {
                    assert(l1[k2] == l0[k2]);
                    assert(Self::cache_covers(c0, l0[k2].sender, l0[k2].receiver, l0[k2].token));
                    let w = choose|i: int|
                        0 <= i < c0.len() && Self::cache_triple(#[trigger] c0[i]) == (
                            l0[k2].sender,
                            l0[k2].receiver,
                            l0[k2].token,
                        );
                    match cache_idx {
                        Some(k) => {
                            if w == k {
                                assert(Self::cache_triple(c1[w]) == (si, ri, ti));
                            } else {
                                assert(c1[w] == c0[w]);
                            }
                        },
                        None => {
                            assert(c1[w] == c0[w]);
                        },
                    }
                }
            }
            // id validity of the appended record
            assert forall|i: int| 0 <= i < l1.len() implies {
                let rr = #[trigger] l1[i];
                &&& 1 <= rr.sender <= self@.users.len()
                &&& 1 <= rr.receiver <= self@.users.len()
                &&& 1 <= rr.token <= self@.tokens.len()
            } by {
                if i < l0.len() {
                    assert(l1[i] == l0[i]);
                }
            }
        }
        Ok(amount)
    }

    /// Executes one transfer: resolves the three references (the sender and
    /// receiver over users, the token over tokens, each possibly creating),
    /// reads the triple's previous total, appends the record, and returns
    /// the previous total plus this transfer's amount: the total last known
    /// to this call, plus what this call contributed, never a re-queried
    /// post-append total. A resolver failure aborts before any record is
    /// appended; entities already created by then persist.
    pub fn transaction(
        &mut self,
        sender: UserQueryModeWithCreation,
        receiver: UserQueryModeWithCreation,
        token: TokenQueryModeWithCreation,
        amount: i32,
    ) -> (r: Result<i32, LedgerError>)
        requires
            old(self).wf(),
        ensures
            final(self).wf(),
            ({
                let (res, mid) = transaction_resolution(old(self)@, sender, receiver, token);
                match res {
                    Err(e) => r == Err::<i32, LedgerError>(e) && final(self)@ == mid,
                    Ok(ids) => {
                        let previous = sum_matching(mid.ledger, ids.0, ids.1, ids.2);
                        if ({
                            &&& 1 <= ids.0 <= mid.users.len()
                            &&& 1 <= ids.1 <= mid.users.len()
                            &&& 1 <= ids.2 <= mid.tokens.len()
                            &&& i32::MIN <= previous + amount <= i32::MAX
                        }) {
                            &&& r matches Ok(total)
                            &&& final(self)@.users == mid.users
                            &&& final(self)@.tokens == mid.tokens
                            &&& final(self)@.ledger == mid.ledger.push(
                                RecV {
                                    sender: ids.0,
                                    receiver: ids.1,
                                    token: ids.2,
                                    amount: amount as int,
                                },
                            )
                            &&& total as int == previous + amount
                            &&& total as int == sum_matching(
                                final(self)@.ledger,
                                ids.0,
                                ids.1,
                                ids.2,
                            )
                        } else {
                            r == Err::<i32, LedgerError>(LedgerError::StorageFailure)
                                && final(self)@ == mid
                        }
                    },
                }
            }),
    {
        let ghost rm = transaction_resolution(old(self)@, sender, receiver, token);
        let s_id = match self.resolve_user(&sender) {
            Ok(v) => v,
            Err(e) => {
                proof {
                    assert(self@ =~= rm.1);
                }
                return Err(e);
            },
        };
        let r_id = match self.resolve_user(&receiver) {
            Ok(v) => v,
            Err(e) => {
                proof {
                    assert(self@ =~= rm.1);
                }
                return Err(e);
            },
        };
        let t_id = match self.resolve_token(&token) {
            Ok(v) => v,
            Err(e) => {
                proof {
                    assert(self@ =~= rm.1);
                }
                return Err(e);
            },
        };
        proof {
            assert(self@ =~= rm.1);
        }
        let previous: i32 = match self.current_total(s_id, r_id, t_id) {
            Some(a) => a,
            None => 0,
        };
        proof {
            if !has_matching(self@.ledger, s_id as int, r_id as int, t_id as int) {
                lemma_sum_no_matching(self@.ledger, s_id as int, r_id as int, t_id as int);
            }
        }
        let ghost pre_append = *self;
        match self.append_record(s_id, r_id, t_id, amount) {
            Ok(_) => {
                proof {
                    lemma_sum_matching_push(
                        pre_append@.ledger,
                        RecV {
                            sender: s_id as int,
                            receiver: r_id as int,
                            token: t_id as int,
                            amount: amount as int,
                        },
                        s_id as int,
                        r_id as int,
                        t_id as int,
                    );
                }
                Ok(previous + amount)
            },
            Err(e) => {
                proof {
                    assert(self@ =~= rm.1);
                }
                Err(e)
            },
        }
    }

    /// The per-sender totals for the (receiver, token) pair of ids: one row
    /// per sender with history on the pair, sorted under (`key`, `dir`).
    fn build_sender_entries(
        &self,
        receiver: i64,
        token: i64,
        key: OrderBySenderOrAmount,
        dir: Order,
    ) -> (out: Vec<RelativeUserTokenAmountEntry>)
        requires
            self.wf(),
        ensures
            per_sender_entries_ok(
                entry_views(out@),
                self@.users,
                self@.ledger,
                receiver as int,
                token as int,
                key,
                dir,
            ),
    {
        let ghost users = self@.users;
        let ghost ledger = self@.ledger;
        let ghost ri = receiver as int;
        let ghost ti = token as int;
        let mut out: Vec<RelativeUserTokenAmountEntry> = Vec::new();
        let mut s: usize = 0;
        proof {
            assert(entry_views(out@) =~= Seq::<crate::model::EntryV>::empty());
        }
        while s < self.users.len()
            invariant
                self.wf(),
                users == self@.users,
                ledger == self@.ledger,
                ri == receiver as int,
                ti == token as int,
                s <= users.len(),
                users.len() == self.users@.len(),
                entries_sorted(entry_views(out@), key, dir),
                forall|i: int| 0 <= i < entry_views(out@).len() ==> is_entry_for(
                    #[trigger] entry_views(out@)[i],
                    users,
                    ledger,
                    ri,
                    ti,
                    s as int,
                ),
                forall|t: int| 1 <= t <= s && #[trigger] has_matching(ledger, t, ri, ti)
                    ==> entry_views(out@).contains(entry_of(users, ledger, t, ri, ti)),
                forall|i: int, j: int| 0 <= i < j < entry_views(out@).len()
                    ==> (#[trigger] entry_views(out@)[i]).sender.id != (#[trigger] entry_views(
                    out@,
                )[j]).sender.id,
                forall|i: int| 0 <= i < entry_views(out@).len() ==> (#[trigger] entry_views(
                    out@,
                )[i]).sender.id <= s,
            decreases users.len() - s,
        {
            let sid = self.users[s].id;
            proof {
                assert(self@.users[s as int] == self.users@[s as int]@);
                assert(users[s as int].id == s as int + 1);
            }
            match self.current_total(sid, receiver, token) {
                Some(a) => {
                    let u = self.user_at(s);
                    let entry = RelativeUserTokenAmountEntry { sender: u, amount: a };
                    let ghost vs0 = entry_views(out@);
                    proof {
                        assert(entry@ == entry_of(users, ledger, s as int + 1, ri, ti));
                        assert forall|i: int| 0 <= i < vs0.len()
                            implies (#[trigger] vs0[i]).sender.id != entry@.sender.id by {
                            assert(vs0[i].sender.id <= s);
                        }
                    }
                    sorted_insert(&mut out, entry, key, dir);
                    proof {
                        let vs1 = entry_views(out@);
                        let pos = choose|pos: int|
                            0 <= pos <= vs0.len() && vs1 == vs0.insert(pos, entry@);
                        vs0.insert_ensures(pos, entry@);
                        assert forall|i: int| 0 <= i < vs1.len() implies is_entry_for(
                            #[trigger] vs1[i],
                            users,
                            ledger,
                            ri,
                            ti,
                            s as int + 1,
                        ) by {
                            if i == pos {
                                assert(vs1[i] == entry@);
                                assert(1 <= s as int + 1 <= s as int + 1 && has_matching(
                                    ledger,
                                    s as int + 1,
                                    ri,
                                    ti,
                                ) && vs1[i] == entry_of(users, ledger, s as int + 1, ri, ti));
                            } else {
                                let w: int = if i < pos {
                                    i
                                } else {
                                    i - 1
                                };
                                assert(vs1[i] == vs0[w]);
                                assert(is_entry_for(vs0[w], users, ledger, ri, ti, s as int));
                                lemma_is_entry_for_widen(
                                    vs0[w],
                                    users,
                                    ledger,
                                    ri,
                                    ti,
                                    s as int,
                                    s as int + 1,
                                );
                            }
                        }
                        assert forall|t: int| 1 <= t <= s + 1 && #[trigger] has_matching(
                            ledger,
                            t,
                            ri,
                            ti,
                        ) implies vs1.contains(entry_of(users, ledger, t, ri, ti)) by {
                            if t == s as int + 1 {
                                assert(vs1[pos] == entry_of(users, ledger, t, ri, ti));
                            } else {
                                assert(vs0.contains(entry_of(users, ledger, t, ri, ti)));
                                let w = choose|w: int|
                                    0 <= w < vs0.len() && vs0[w] == entry_of(
                                        users,
                                        ledger,
                                        t,
                                        ri,
                                        ti,
                                    );
                                if w < pos {
                                    assert(vs1[w] == vs0[w]);
                                } else {
                                    assert(vs1[w + 1] == vs0[w]);
                                }
                            }
                        }
                        assert forall|i: int, j: int| 0 <= i < j < vs1.len()
                            implies (#[trigger] vs1[i]).sender.id != (#[trigger] vs1[j]).sender.id
                            by {
                            let wi: int = if i < pos {
                                i
                            } else {
                                i - 1
                            };
                            let wj: int = if j < pos {
                                j
                            } else {
                                j - 1
                            };
                            if i != pos && j != pos {
                                assert(vs1[i] == vs0[wi] && vs1[j] == vs0[wj]);
                            } else if i == pos {
                                assert(vs1[i] == entry@ && vs1[j] == vs0[wj]);
                                assert(vs0[wj].sender.id <= s);
                            } else {
                                assert(vs1[j] == entry@ && vs1[i] == vs0[wi]);
                                assert(vs0[wi].sender.id <= s);
                            }
                        }
                        assert forall|i: int| 0 <= i < vs1.len()
                            implies (#[trigger] vs1[i]).sender.id <= s + 1 by {
                            if i != pos {
                                let w: int = if i < pos {
                                    i
                                } else {
                                    i - 1
                                };
                                assert(vs1[i] == vs0[w]);
                                assert(vs0[w].sender.id <= s);
                            }
                        }
                    }
                },
                None => {
                    proof {
                        assert forall|i: int| 0 <= i < entry_views(out@).len()
                            implies is_entry_for(
                            #[trigger] entry_views(out@)[i],
                            users,
                            ledger,
                            ri,
                            ti,
                            s as int + 1,
                        ) by {
                            lemma_is_entry_for_widen(
                                entry_views(out@)[i],
                                users,
                                ledger,
                                ri,
                                ti,
                                s as int,
                                s as int + 1,
                            );
                        }
                    }
                },
            }
            s = s + 1;
        }
        out
    }

    /// Per-sender totals of one token a receiver holds: how much of `token`
    /// each sender ever sent to `receiver`, one row per sender with history,
    /// sorted by the requested key (default: sender) and direction. A
    /// `ByName` reference that resolves to nothing fails with `NotFound`,
    /// the receiver deciding before the token.
    pub fn list_user_token(
        &self,
        receiver: UserQueryModeStrict,
        token: TokenQueryModeStrict,
        order: Order,
        order_by: Option<OrderBySenderOrAmount>,
    ) -> (r: Result<Vec<RelativeUserTokenAmountEntry>, LedgerError>)
        requires
            self.wf(),
        ensures
            ({
                let key = match order_by {
                    Some(k) => k,
                    None => OrderBySenderOrAmount::Sender,
                };
                match user_strict_target(self@.users, receiver) {
                    Err(e) => r == Err::<Vec<RelativeUserTokenAmountEntry>, LedgerError>(e),
                    Ok(rid) => match token_strict_target(self@.tokens, token) {
                        Err(e) => r == Err::<Vec<RelativeUserTokenAmountEntry>, LedgerError>(e),
                        Ok(tid) => r matches Ok(entries) && per_sender_entries_ok(
                            entry_views(entries@),
                            self@.users,
                            self@.ledger,
                            rid,
                            tid,
                            key,
                            order,
                        ),
                    },
                }
            }),
    {
        let rid = match self.resolve_user_strict(&receiver) {
            Ok(v) => v,
            Err(e) => {
                return Err(e);
            },
        };
        let tid = match self.resolve_token_strict(&token) {
            Ok(v) => v,
            Err(e) => {
                return Err(e);
            },
        };
        let key = match order_by {
            Some(k) => k,
            None => OrderBySenderOrAmount::Sender,
        };
        Ok(self.build_sender_entries(rid, tid, key, order))
    }

    /// The per-token groups for one receiver, ordered by token id.
    fn build_token_groups(
        &self,
        receiver: i64,
        outer_dir: Order,
        key: OrderBySenderOrAmount,
        dir: Order,
    ) -> (out: Vec<RelativeTokenAmountEntry>)
        requires
            self.wf(),
        ensures
            token_groups_ok(
                token_group_views(out@),
                self@.users,
                self@.tokens,
                self@.ledger,
                receiver as int,
                outer_dir,
                key,
                dir,
            ),
    {
        let ghost users = self@.users;
        let ghost tokens = self@.tokens;
        let ghost ledger = self@.ledger;
        let ghost riv = receiver as int;
        let mut groups: Vec<RelativeTokenAmountEntry> = Vec::new();
        let mut t: usize = 0;
        proof {
            assert(token_group_views(groups@) =~= Seq::<crate::model::TokenGroupV>::empty());
        }
        while t < self.tokens.len()
            invariant
                self.wf(),
                users == self@.users,
                tokens == self@.tokens,
                ledger == self@.ledger,
                riv == receiver as int,
                t <= tokens.len(),
                tokens.len() == self.tokens@.len(),
                forall|i: int| 0 <= i < token_group_views(groups@).len() ==> {
                    let g = #[trigger] token_group_views(groups@)[i];
                    &&& 1 <= g.token.id <= t
                    &&& g.token == tokens[g.token.id - 1]
                    &&& g.amount_by_sender.len() > 0
                    &&& per_sender_entries_ok(
                        g.amount_by_sender,
                        users,
                        ledger,
                        riv,
                        g.token.id,
                        key,
                        dir,
                    )
                },
                forall|tt: int| 1 <= tt <= t && #[trigger] pair_has_history(
                    users,
                    ledger,
                    riv,
                    tt,
                ) ==> groups_cover_token(token_group_views(groups@), tt),
                forall|i: int, j: int| 0 <= i < j < token_group_views(groups@).len()
                    ==> (#[trigger] token_group_views(groups@)[i]).token.id
                    < (#[trigger] token_group_views(groups@)[j]).token.id,
            decreases tokens.len() - t,
        {
            let tid = self.tokens[t].id;
            proof {
                assert(self@.tokens[t as int] == self.tokens@[t as int]@);
                assert(tokens[t as int].id == t as int + 1);
            }
            let inner = self.build_sender_entries(receiver, tid, key, dir);
            let ghost innerv = entry_views(inner@);
            let ghost gs0 = token_group_views(groups@);
            if inner.len() > 0 {
                let tok = self.token_at(t);
                let g = RelativeTokenAmountEntry { token: tok, amount_by_sender: inner };
                proof {
                    assert(g@.amount_by_sender =~= innerv);
                }
                groups.push(g);
                proof {
                    let gs1 = token_group_views(groups@);
                    assert(gs1 =~= gs0.push(g@));
                    assert forall|tt: int| 1 <= tt <= t + 1 && #[trigger] pair_has_history(
                        users,
                        ledger,
                        riv,
                        tt,
                    ) implies groups_cover_token(gs1, tt) by {
                        if tt == t as int + 1 {
                            assert(gs1[gs1.len() - 1].token.id == tt);
                        } else {
                            assert(groups_cover_token(gs0, tt));
                            let w = choose|i: int|
                                0 <= i < gs0.len() && (#[trigger] gs0[i]).token.id == tt;
                            assert(gs1[w].token.id == tt);
                        }
                    }
                }
            } else {
                proof {
                    if pair_has_history(users, ledger, riv, t as int + 1) {
                        let witness = choose|sx: int|
                            1 <= sx <= users.len() && #[trigger] has_matching(
                                ledger,
                                sx,
                                riv,
                                t as int + 1,
                            );
                        assert(innerv.contains(
                            entry_of(users, ledger, witness, riv, t as int + 1),
                        ));
                    }
                }
            }
            t = t + 1;
        }
        proof {
            assert(t == tokens.len());
        }
        match outer_dir {
            Order::Asc => groups,
            Order::Desc => {
                let ghost gs0 = token_group_views(groups@);
                let rev = reversed(groups);
                proof {
                    let gs1 = token_group_views(rev@);
                    let n = gs0.len() as int;
                    assert(gs1.len() == n);
                    assert forall|i: int| 0 <= i < n implies #[trigger] gs1[i] == gs0[n - 1
                        - i] by {
                        assert(gs1[i] == rev@[i]@);
                    }
                    assert forall|tt: int| 1 <= tt <= tokens.len() && #[trigger] pair_has_history(
                        users,
                        ledger,
                        riv,
                        tt,
                    ) implies groups_cover_token(gs1, tt) by {
                        assert(groups_cover_token(gs0, tt));
                        let w = choose|i: int|
                            0 <= i < gs0.len() && (#[trigger] gs0[i]).token.id == tt;
                        assert(gs1[n - 1 - w].token.id == tt);
                    }
                }
                rev
            },
        }
    }

    /// The per-receiver groups for one token, ordered by receiver id.
    fn build_receiver_groups(
        &self,
        token: i64,
        outer_dir: Order,
        key: OrderBySenderOrAmount,
        dir: Order,
    ) -> (out: Vec<RelativeUserAmountEntry>)
        requires
            self.wf(),
        ensures
            receiver_groups_ok(
                receiver_group_views(out@),
                self@.users,
                self@.ledger,
                token as int,
                outer_dir,
                key,
                dir,
            ),
    {
        let ghost users = self@.users;
        let ghost ledger = self@.ledger;
        let ghost tiv = token as int;
        let mut groups: Vec<RelativeUserAmountEntry> = Vec::new();
        let mut rcv: usize = 0;
        proof {
            assert(receiver_group_views(groups@) =~= Seq::<crate::model::ReceiverGroupV>::empty());
        }
        while rcv < self.users.len()
            invariant
                self.wf(),
                users == self@.users,
                ledger == self@.ledger,
                tiv == token as int,
                rcv <= users.len(),
                users.len() == self.users@.len(),
                forall|i: int| 0 <= i < receiver_group_views(groups@).len() ==> {
                    let g = #[trigger] receiver_group_views(groups@)[i];
                    &&& 1 <= g.receiver.id <= rcv
                    &&& g.receiver == users[g.receiver.id - 1]
                    &&& g.amount_by_sender.len() > 0
                    &&& per_sender_entries_ok(
                        g.amount_by_sender,
                        users,
                        ledger,
                        g.receiver.id,
                        tiv,
                        key,
                        dir,
                    )
                },
                forall|rr: int| 1 <= rr <= rcv && #[trigger] pair_has_history(
                    users,
                    ledger,
                    rr,
                    tiv,
                ) ==> groups_cover_receiver(receiver_group_views(groups@), rr),
                forall|i: int, j: int| 0 <= i < j < receiver_group_views(groups@).len()
                    ==> (#[trigger] receiver_group_views(groups@)[i]).receiver.id
                    < (#[trigger] receiver_group_views(groups@)[j]).receiver.id,
            decreases users.len() - rcv,
        {
            let rid = self.users[rcv].id;
            proof {
                assert(self@.users[rcv as int] == self.users@[rcv as int]@);
                assert(users[rcv as int].id == rcv as int + 1);
            }
            let inner = self.build_sender_entries(rid, token, key, dir);
            let ghost innerv = entry_views(inner@);
            let ghost gs0 = receiver_group_views(groups@);
            if inner.len() > 0 {
                let u = self.user_at(rcv);
                let g = RelativeUserAmountEntry { receiver: u, amount_by_sender: inner };
                proof {
                    assert(g@.amount_by_sender =~= innerv);
                }
                groups.push(g);
                proof {
                    let gs1 = receiver_group_views(groups@);
                    assert(gs1 =~= gs0.push(g@));
                    assert forall|rr: int| 1 <= rr <= rcv + 1 && #[trigger] pair_has_history(
                        users,
                        ledger,
                        rr,
                        tiv,
                    ) implies groups_cover_receiver(gs1, rr) by {
                        if rr == rcv as int + 1 {
                            assert(gs1[gs1.len() - 1].receiver.id == rr);
                        } else {
                            assert(groups_cover_receiver(gs0, rr));
                            let w = choose|i: int|
                                0 <= i < gs0.len() && (#[trigger] gs0[i]).receiver.id == rr;
                            assert(gs1[w].receiver.id == rr);
                        }
                    }
                }
            } else {
                proof {
                    if pair_has_history(users, ledger, rcv as int + 1, tiv) {
                        let witness = choose|sx: int|
                            1 <= sx <= users.len() && #[trigger] has_matching(
                                ledger,
                                sx,
                                rcv as int + 1,
                                tiv,
                            );
                        assert(innerv.contains(
                            entry_of(users, ledger, witness, rcv as int + 1, tiv),
                        ));
                    }
                }
            }
            rcv = rcv + 1;
        }
        match outer_dir {
            Order::Asc => groups,
            Order::Desc => {
                let ghost gs0 = receiver_group_views(groups@);
                let rev = reversed(groups);
                proof {
                    let gs1 = receiver_group_views(rev@);
                    let n = gs0.len() as int;
                    assert(gs1.len() == n);
                    assert forall|i: int| 0 <= i < n implies #[trigger] gs1[i] == gs0[n - 1
                        - i] by {
                        assert(gs1[i] == rev@[i]@);
                    }
                    assert forall|rr: int| 1 <= rr <= users.len() && #[trigger] pair_has_history(
                        users,
                        ledger,
                        rr,
                        tiv,
                    ) implies groups_cover_receiver(gs1, rr) by {
                        assert(groups_cover_receiver(gs0, rr));
                        let w = choose|i: int|
                            0 <= i < gs0.len() && (#[trigger] gs0[i]).receiver.id == rr;
                        assert(gs1[n - 1 - w].receiver.id == rr);
                    }
                }
                rev
            },
        }
    }

    /// All tokens a receiver ever received, one group per token with the
    /// token's per-sender totals. Sorting by token (the default) orders the
    /// groups by token id in the requested direction; sorting by sender or
    /// amount orders each group's breakdown instead, the groups standing by
    /// ascending token id.
    pub fn list_tokens_by_user(
        &self,
        receiver: UserQueryModeStrict,
        order: Order,
        order_by: Option<OrderByTokenOrSenderOrAmount>,
    ) -> (r: Result<Vec<RelativeTokenAmountEntry>, LedgerError>)
        requires
            self.wf(),
        ensures
            ({
                let outer_dir = match order_by {
                    None => order,
                    Some(OrderByTokenOrSenderOrAmount::Token) => order,
                    Some(_) => Order::Asc,
                };
                let key = match order_by {
                    Some(OrderByTokenOrSenderOrAmount::Amount) => OrderBySenderOrAmount::Amount,
                    _ => OrderBySenderOrAmount::Sender,
                };
                let dir = match order_by {
                    None => Order::Asc,
                    Some(OrderByTokenOrSenderOrAmount::Token) => Order::Asc,
                    Some(_) => order,
                };
                match user_strict_target(self@.users, receiver) {
                    Err(e) => r == Err::<Vec<RelativeTokenAmountEntry>, LedgerError>(e),
                    Ok(rid) => (r matches Ok(groups) && token_groups_ok(
                        token_group_views(groups@),
                        self@.users,
                        self@.tokens,
                        self@.ledger,
                        rid,
                        outer_dir,
                        key,
                        dir,
                    )),
                }
            }),
    {
        let rid = match self.resolve_user_strict(&receiver) {
            Ok(v) => v,
            Err(e) => {
                return Err(e);
            },
        };
        let outer_dir = match order_by {
            None => order,
            Some(OrderByTokenOrSenderOrAmount::Token) => order,
            Some(_) => Order::Asc,
        };
        let key = match order_by {
            Some(OrderByTokenOrSenderOrAmount::Amount) => OrderBySenderOrAmount::Amount,
            _ => OrderBySenderOrAmount::Sender,
        };
        let dir = match order_by {
            None => Order::Asc,
            Some(OrderByTokenOrSenderOrAmount::Token) => Order::Asc,
            Some(_) => order,
        };
        Ok(self.build_token_groups(rid, outer_dir, key, dir))
    }

    /// All receivers that ever received the token, one group per receiver
    /// with its per-sender totals. Sorting by receiver (the default) orders
    /// the groups by receiver id in the requested direction; sorting by
    /// sender or amount orders each group's breakdown instead, the groups
    /// standing by ascending receiver id.
    pub fn list_users_by_token(
        &self,
        token: TokenQueryModeStrict,
        order: Order,
        order_by: Option<OrderByReceiverOrSenderOrAmount>,
    ) -> (r: Result<Vec<RelativeUserAmountEntry>, LedgerError>)
        requires
            self.wf(),
        ensures
            ({
                let outer_dir = match order_by {
                    None => order,
                    Some(OrderByReceiverOrSenderOrAmount::Receiver) => order,
                    Some(_) => Order::Asc,
                };
                let key = match order_by {
                    Some(OrderByReceiverOrSenderOrAmount::Amount) => OrderBySenderOrAmount::Amount,
                    _ => OrderBySenderOrAmount::Sender,
                };
                let dir = match order_by {
                    None => Order::Asc,
                    Some(OrderByReceiverOrSenderOrAmount::Receiver) => Order::Asc,
                    Some(_) => order,
                };
                match token_strict_target(self@.tokens, token) {
                    Err(e) => r == Err::<Vec<RelativeUserAmountEntry>, LedgerError>(e),
                    Ok(tid) => (r matches Ok(groups) && receiver_groups_ok(
                        receiver_group_views(groups@),
                        self@.users,
                        self@.ledger,
                        tid,
                        outer_dir,
                        key,
                        dir,
                    )),
                }
            }),
    {
        let tid = match self.resolve_token_strict(&token) {
            Ok(v) => v,
            Err(e) => {
                return Err(e);
            },
        };
        let outer_dir = match order_by {
            None => order,
            Some(OrderByReceiverOrSenderOrAmount::Receiver) => order,
            Some(_) => Order::Asc,
        };
        let key = match order_by {
            Some(OrderByReceiverOrSenderOrAmount::Amount) => OrderBySenderOrAmount::Amount,
            _ => OrderBySenderOrAmount::Sender,
        };
        let dir = match order_by {
            None => Order::Asc,
            Some(OrderByReceiverOrSenderOrAmount::Receiver) => Order::Asc,
            Some(_) => order,
        };
        Ok(self.build_receiver_groups(tid, outer_dir, key, dir))
    }
}

/// The result a transfer reports: the previous total, defaulting to zero
/// only here when the triple had no history, plus the transfer's amount.
/// For callers that run the engine against an outside store and so read the
/// previous total at the storage boundary; `None` exactly when the new
/// total would leave the representable range.
pub fn combine_transfer_total(previous: Option<i32>, amount: i32) -> (r: Option<i32>)
    ensures
        ({
            let p = match previous {
                Some(p) => p as int,
                None => 0,
            };
            &&& (r matches Some(t) ==> t as int == p + amount)
            &&& (r is None <==> !(i32::MIN <= p + amount <= i32::MAX))
        }),
{
    let p: i64 = match previous {
        Some(p) => p as i64,
        None => 0,
    };
    let t = p + amount as i64;
    if t > i32::MAX as i64 || t < i32::MIN as i64 {
        None
    } else {
        Some(t as i32)
    }
}

} // verus!
