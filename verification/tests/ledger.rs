use points_exchange::engine::Core;
use points_exchange::model::{
    LedgerError, Order, OrderByReceiverOrSenderOrAmount, OrderBySenderOrAmount,
    OrderByTokenOrSenderOrAmount, TokenQueryModeStrict, TokenQueryModeWithCreation,
    UserQueryModeStrict, UserQueryModeWithCreation,
};

fn seeded() -> Core {
    // Alice (id 1), Bob (id 2), Gold (id 1): the ids are assigned 1, 2, ...
    let mut core = Core::new();
    assert_eq!(core.create_user("Alice").unwrap().id, 1);
    assert_eq!(core.create_user("Bob").unwrap().id, 2);
    assert_eq!(core.create_token("Gold").unwrap().id, 1);
    core
}

#[test]
fn transfer_returns_previous_total_plus_amount() {
    let mut core = seeded();
    let first = core.transaction(
        UserQueryModeWithCreation::ById(1),
        UserQueryModeWithCreation::ById(2),
        TokenQueryModeWithCreation::ById(1),
        100,
    );
    assert_eq!(first, Ok(100));
    let second = core.transaction(
        UserQueryModeWithCreation::ById(1),
        UserQueryModeWithCreation::ById(2),
        TokenQueryModeWithCreation::ById(1),
        -30,
    );
    assert_eq!(second, Ok(70));
    let total = core.get_current_total(
        UserQueryModeStrict::ById(1),
        UserQueryModeStrict::ById(2),
        TokenQueryModeStrict::ById(1),
    );
    assert_eq!(total, Ok(Some(70)));
}

#[test]
fn sequential_transfers_accumulate() {
    let mut core = seeded();
    let amounts: Vec<i32> = vec![5, 7, -3, 11];
    let mut sum: i32 = 0;
    for a in amounts {
        sum += a;
        let r = core.transaction(
            UserQueryModeWithCreation::ById(1),
            UserQueryModeWithCreation::ById(2),
            TokenQueryModeWithCreation::ById(1),
            a,
        );
        assert_eq!(r, Ok(sum));
    }
}

#[test]
fn no_history_is_none_and_zero_sum_is_some_zero() {
    let mut core = seeded();
    let before = core.get_current_total(
        UserQueryModeStrict::ById(1),
        UserQueryModeStrict::ById(2),
        TokenQueryModeStrict::ById(1),
    );
    assert_eq!(before, Ok(None));
    core.transaction(
        UserQueryModeWithCreation::ById(1),
        UserQueryModeWithCreation::ById(2),
        TokenQueryModeWithCreation::ById(1),
        40,
    )
    .unwrap();
    core.transaction(
        UserQueryModeWithCreation::ById(1),
        UserQueryModeWithCreation::ById(2),
        TokenQueryModeWithCreation::ById(1),
        -40,
    )
    .unwrap();
    let after = core.get_current_total(
        UserQueryModeStrict::ById(1),
        UserQueryModeStrict::ById(2),
        TokenQueryModeStrict::ById(1),
    );
    assert_eq!(after, Ok(Some(0)));
}

#[test]
fn list_user_token_single_sender() {
    let mut core = seeded();
    core.transaction(
        UserQueryModeWithCreation::ById(1),
        UserQueryModeWithCreation::ById(2),
        TokenQueryModeWithCreation::ById(1),
        100,
    )
    .unwrap();
    core.transaction(
        UserQueryModeWithCreation::ById(1),
        UserQueryModeWithCreation::ById(2),
        TokenQueryModeWithCreation::ById(1),
        -30,
    )
    .unwrap();
    let entries = core
        .list_user_token(
            UserQueryModeStrict::ById(2),
            TokenQueryModeStrict::ById(1),
            Order::Desc,
            None,
        )
        .unwrap();
    assert_eq!(entries.len(), 1);
    assert_eq!(entries[0].sender.id, 1);
    assert_eq!(entries[0].sender.name, "Alice");
    assert_eq!(entries[0].amount, 70);
}

#[test]
fn query_user_unknown_name_is_empty_not_error() {
    let core = seeded();
    let result = core.query_user(Some("nonexistent")).unwrap();
    assert!(result.is_empty());
}

#[test]
fn query_user_filters_and_query_all_users_lists() {
    let mut core = Core::new();
    core.create_user("ada").unwrap();
    core.create_user("grace").unwrap();
    core.create_user("ada").unwrap();
    let all = core.query_all_users().unwrap();
    assert_eq!(all.len(), 3);
    assert_eq!(all[1].name, "grace");
    let adas = core.query_user(Some("ada")).unwrap();
    assert_eq!(adas.len(), 2);
    assert_eq!(adas[0].id, 1);
    assert_eq!(adas[1].id, 3);
    let unfiltered = core.query_user(None).unwrap();
    assert_eq!(unfiltered.len(), 3);
}

#[test]
fn query_token_filters() {
    let mut core = Core::new();
    core.create_token("Gold").unwrap();
    core.create_token("Silver").unwrap();
    let golds = core.query_token(Some("Gold")).unwrap();
    assert_eq!(golds.len(), 1);
    assert_eq!(golds[0].id, 1);
    let all = core.query_all_tokens().unwrap();
    assert_eq!(all.len(), 2);
    let unfiltered = core.query_token(None).unwrap();
    assert_eq!(unfiltered.len(), 2);
}

#[test]
fn by_name_resolution_picks_newest_match() {
    let mut core = Core::new();
    core.create_user("dup").unwrap();
    core.create_user("dup").unwrap();
    let id = core
        .resolve_user_strict(&UserQueryModeStrict::ByName("dup"))
        .unwrap();
    assert_eq!(id, 2);
}

#[test]
fn by_name_miss_is_not_found_and_by_id_is_unchecked() {
    let core = Core::new();
    let miss = core.resolve_user_strict(&UserQueryModeStrict::ByName("ghost"));
    assert_eq!(miss, Err(LedgerError::NotFound));
    let dangling = core.resolve_user_strict(&UserQueryModeStrict::ById(999));
    assert_eq!(dangling, Ok(999));
}

#[test]
fn by_name_or_create_reuses_existing_entity() {
    let mut core = Core::new();
    core.create_user("carol").unwrap();
    let resolved = core
        .resolve_user(&UserQueryModeWithCreation::ByNameOrCreate("carol"))
        .unwrap();
    assert_eq!(resolved, 1);
    assert_eq!(core.query_all_users().unwrap().len(), 1);
}

#[test]
fn by_name_or_create_creates_on_miss() {
    let mut core = Core::new();
    let resolved = core
        .resolve_user(&UserQueryModeWithCreation::ByNameOrCreate("dave"))
        .unwrap();
    assert_eq!(resolved, 1);
    let users = core.query_all_users().unwrap();
    assert_eq!(users.len(), 1);
    assert_eq!(users[0].name, "dave");
}

#[test]
fn get_or_create_token_by_name_both_modes() {
    let mut core = Core::new();
    let miss = core.get_or_create_token_by_name("Iron", false);
    assert_eq!(miss, Err(LedgerError::NotFound));
    let made = core.get_or_create_token_by_name("Iron", true).unwrap();
    assert_eq!(made.id, 1);
    let again = core.get_or_create_token_by_name("Iron", true).unwrap();
    assert_eq!(again.id, 1);
    assert_eq!(core.query_all_tokens().unwrap().len(), 1);
}

#[test]
fn transfer_by_names_creates_participants() {
    let mut core = Core::new();
    let total = core
        .transaction(
            UserQueryModeWithCreation::ByNameOrCreate("erin"),
            UserQueryModeWithCreation::ByNameOrCreate("frank"),
            TokenQueryModeWithCreation::ByNameOrCreate("Copper"),
            12,
        )
        .unwrap();
    assert_eq!(total, 12);
    assert_eq!(core.query_all_users().unwrap().len(), 2);
    assert_eq!(core.query_all_tokens().unwrap().len(), 1);
}

#[test]
fn transfer_with_unknown_name_aborts_with_not_found() {
    let mut core = seeded();
    let r = core.transaction(
        UserQueryModeWithCreation::ByName("ghost"),
        UserQueryModeWithCreation::ById(2),
        TokenQueryModeWithCreation::ById(1),
        10,
    );
    assert_eq!(r, Err(LedgerError::NotFound));
    let total = core.get_current_total(
        UserQueryModeStrict::ById(1),
        UserQueryModeStrict::ById(2),
        TokenQueryModeStrict::ById(1),
    );
    assert_eq!(total, Ok(None));
}

#[test]
fn transfer_to_dangling_id_fails_at_storage_boundary() {
    let mut core = seeded();
    let r = core.transaction(
        UserQueryModeWithCreation::ById(1),
        UserQueryModeWithCreation::ById(99),
        TokenQueryModeWithCreation::ById(1),
        10,
    );
    assert_eq!(r, Err(LedgerError::StorageFailure));
}

#[test]
fn transfer_overflowing_balance_fails_and_keeps_state() {
    let mut core = seeded();
    let first = core.transaction(
        UserQueryModeWithCreation::ById(1),
        UserQueryModeWithCreation::ById(2),
        TokenQueryModeWithCreation::ById(1),
        i32::MAX,
    );
    assert_eq!(first, Ok(i32::MAX));
    let second = core.transaction(
        UserQueryModeWithCreation::ById(1),
        UserQueryModeWithCreation::ById(2),
        TokenQueryModeWithCreation::ById(1),
        1,
    );
    assert_eq!(second, Err(LedgerError::StorageFailure));
    let total = core.get_current_total(
        UserQueryModeStrict::ById(1),
        UserQueryModeStrict::ById(2),
        TokenQueryModeStrict::ById(1),
    );
    assert_eq!(total, Ok(Some(i32::MAX)));
}

fn three_senders() -> Core {
    // u1 sends 50, u2 sends 80, u3 sends 50 of token 1 to receiver (id 4).
    let mut core = Core::new();
    core.create_user("u1").unwrap();
    core.create_user("u2").unwrap();
    core.create_user("u3").unwrap();
    core.create_user("recv").unwrap();
    core.create_token("Gold").unwrap();
    for (sender, amount) in [(1, 50), (2, 80), (3, 50)] {
        core.transaction(
            UserQueryModeWithCreation::ById(sender),
            UserQueryModeWithCreation::ById(4),
            TokenQueryModeWithCreation::ById(1),
            amount,
        )
        .unwrap();
    }
    core
}

#[test]
fn list_user_token_default_sorts_by_sender_descending() {
    let core = three_senders();
    let entries = core
        .list_user_token(
            UserQueryModeStrict::ById(4),
            TokenQueryModeStrict::ById(1),
            Order::Desc,
            None,
        )
        .unwrap();
    let ids: Vec<i64> = entries.iter().map(|e| e.sender.id).collect();
    assert_eq!(ids, vec![3, 2, 1]);
}

#[test]
fn list_user_token_by_amount_breaks_ties_by_sender_ascending() {
    let core = three_senders();
    let desc = core
        .list_user_token(
            UserQueryModeStrict::ById(4),
            TokenQueryModeStrict::ById(1),
            Order::Desc,
            Some(OrderBySenderOrAmount::Amount),
        )
        .unwrap();
    let pairs: Vec<(i64, i32)> = desc.iter().map(|e| (e.sender.id, e.amount)).collect();
    assert_eq!(pairs, vec![(2, 80), (1, 50), (3, 50)]);
    let asc = core
        .list_user_token(
            UserQueryModeStrict::ById(4),
            TokenQueryModeStrict::ById(1),
            Order::Asc,
            Some(OrderBySenderOrAmount::Amount),
        )
        .unwrap();
    let pairs: Vec<(i64, i32)> = asc.iter().map(|e| (e.sender.id, e.amount)).collect();
    assert_eq!(pairs, vec![(1, 50), (3, 50), (2, 80)]);
}

#[test]
fn list_user_token_aggregates_per_sender() {
    let mut core = three_senders();
    core.transaction(
        UserQueryModeWithCreation::ById(1),
        UserQueryModeWithCreation::ById(4),
        TokenQueryModeWithCreation::ById(1),
        25,
    )
    .unwrap();
    let entries = core
        .list_user_token(
            UserQueryModeStrict::ById(4),
            TokenQueryModeStrict::ById(1),
            Order::Asc,
            Some(OrderBySenderOrAmount::Sender),
        )
        .unwrap();
    let pairs: Vec<(i64, i32)> = entries.iter().map(|e| (e.sender.id, e.amount)).collect();
    assert_eq!(pairs, vec![(1, 75), (2, 80), (3, 50)]);
}

#[test]
fn list_user_token_by_name_miss_fails() {
    let core = three_senders();
    let r = core.list_user_token(
        UserQueryModeStrict::ByName("nobody"),
        TokenQueryModeStrict::ById(1),
        Order::Desc,
        None,
    );
    assert_eq!(r, Err(LedgerError::NotFound));
}

#[test]
fn list_tokens_by_user_groups_per_token() {
    let mut core = Core::new();
    core.create_user("sender").unwrap();
    core.create_user("receiver").unwrap();
    core.create_token("Gold").unwrap();
    core.create_token("Silver").unwrap();
    for (token, amount) in [(1, 10), (2, 20), (1, 5)] {
        core.transaction(
            UserQueryModeWithCreation::ById(1),
            UserQueryModeWithCreation::ById(2),
            TokenQueryModeWithCreation::ById(token),
            amount,
        )
        .unwrap();
    }
    let groups = core
        .list_tokens_by_user(UserQueryModeStrict::ById(2), Order::Desc, None)
        .unwrap();
    assert_eq!(groups.len(), 2);
    assert_eq!(groups[0].token.name, "Silver");
    assert_eq!(groups[0].amount_by_sender.len(), 1);
    assert_eq!(groups[0].amount_by_sender[0].amount, 20);
    assert_eq!(groups[1].token.name, "Gold");
    assert_eq!(groups[1].amount_by_sender[0].amount, 15);
    let ascending = core
        .list_tokens_by_user(
            UserQueryModeStrict::ById(2),
            Order::Asc,
            Some(OrderByTokenOrSenderOrAmount::Token),
        )
        .unwrap();
    assert_eq!(ascending[0].token.name, "Gold");
}

#[test]
fn list_users_by_token_groups_per_receiver() {
    let mut core = Core::new();
    core.create_user("a").unwrap();
    core.create_user("b").unwrap();
    core.create_user("c").unwrap();
    core.create_token("Gold").unwrap();
    // a -> b: 7, a -> c: 9, b -> c: 1
    for (s, r, amount) in [(1, 2, 7), (1, 3, 9), (2, 3, 1)] {
        core.transaction(
            UserQueryModeWithCreation::ById(s),
            UserQueryModeWithCreation::ById(r),
            TokenQueryModeWithCreation::ById(1),
            amount,
        )
        .unwrap();
    }
    let groups = core
        .list_users_by_token(TokenQueryModeStrict::ById(1), Order::Desc, None)
        .unwrap();
    assert_eq!(groups.len(), 2);
    assert_eq!(groups[0].receiver.id, 3);
    assert_eq!(groups[0].amount_by_sender.len(), 2);
    assert_eq!(groups[0].amount_by_sender[0].sender.id, 1);
    assert_eq!(groups[0].amount_by_sender[0].amount, 9);
    assert_eq!(groups[1].receiver.id, 2);
    assert_eq!(groups[1].amount_by_sender.len(), 1);
    let by_amount = core
        .list_users_by_token(
            TokenQueryModeStrict::ById(1),
            Order::Asc,
            Some(OrderByReceiverOrSenderOrAmount::Amount),
        )
        .unwrap();
    assert_eq!(by_amount[0].receiver.id, 2);
    assert_eq!(by_amount[1].amount_by_sender[0].amount, 1);
    assert_eq!(by_amount[1].amount_by_sender[1].amount, 9);
}

#[test]
fn empty_engine_lists_nothing() {
    let core = Core::new();
    assert!(core.query_all_users().unwrap().is_empty());
    assert!(core.query_all_tokens().unwrap().is_empty());
    let entries = core
        .list_user_token(
            UserQueryModeStrict::ById(1),
            TokenQueryModeStrict::ById(1),
            Order::Desc,
            None,
        )
        .unwrap();
    assert!(entries.is_empty());
}
