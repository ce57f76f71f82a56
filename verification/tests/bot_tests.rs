use coinbot::bot::{channels_to_join, owner_name, Bot, DispatchOutcome, Handler};
use coinbot::ledger::BotSaveData;
use coinbot::store::CoinStore;

fn store_with(entries: &[(&str, u64)]) -> CoinStore {
    let mut data = BotSaveData::new();
    for (k, v) in entries {
        data.set_balance(k, *v);
    }
    let text = data.save();
    CoinStore::from_saved(&text)
}

fn full_bot() -> Bot {
    Bot::default()
        .with_command("!gamble".to_string(), Handler::Gamble)
        .with_command("!set_coins".to_string(), Handler::SetCoins)
        .with_command("!add_coins".to_string(), Handler::AddCoins)
        .with_command(
            "!topic".to_string(),
            Handler::Static { lines: vec!["the topic of the day".to_string()] },
        )
        .with_command(
            "!quote".to_string(),
            Handler::Static { lines: vec!["a memorable quote".to_string()] },
        )
}

#[test]
fn save_writes_exact_text() {
    let mut d = BotSaveData::new();
    d.set_balance("alice", 500);
    d.set_balance("bob", 3);
    assert_eq!(d.save(), "{\"coins\":{\"alice\":500,\"bob\":3}}");
}

#[test]
fn save_empty_ledger() {
    let d = BotSaveData::new();
    assert_eq!(d.save(), "{\"coins\":{}}");
}

#[test]
fn round_trip_simple() {
    let mut d = BotSaveData::new();
    d.set_balance("alice", 500);
    d.set_balance("bob", 3);
    let s = d.save();
    let d2 = BotSaveData::load(&s);
    assert_eq!(d2.balance_of("alice"), Some(500));
    assert_eq!(d2.balance_of("bob"), Some(3));
    assert_eq!(d2.balance_of("carol"), None);
}

#[test]
fn round_trip_escaped_names() {
    let mut d = BotSaveData::new();
    d.set_balance("we\"ird\\name", 7);
    d.set_balance("", 9);
    let s = d.save();
    let d2 = BotSaveData::load(&s);
    assert_eq!(d2.balance_of("we\"ird\\name"), Some(7));
    assert_eq!(d2.balance_of(""), Some(9));
}

#[test]
fn round_trip_extreme_balances() {
    let mut d = BotSaveData::new();
    d.set_balance("max", u64::MAX);
    d.set_balance("zero", 0);
    let d2 = BotSaveData::load(&d.save());
    assert_eq!(d2.balance_of("max"), Some(u64::MAX));
    assert_eq!(d2.balance_of("zero"), Some(0));
}

#[test]
fn load_malformed_gives_empty() {
    let bad = [
        "",
        "{}",
        "{\"coins\":{",
        "{\"coins\":{\"a\":}}",
        "{\"coins\":{\"a\":1}} ",
        "not a record",
        "{\"coins\":{\"a\":1,\"a\":2}}",
        "{\"coins\":{\"a\":99999999999999999999}}",
        "{\"coins\":{\"a\":1,}}",
    ];
    for s in bad {
        let d = BotSaveData::load(s);
        assert_eq!(d.balance_of("a"), None, "input {s:?}");
        assert_eq!(d.save(), "{\"coins\":{}}", "input {s:?}");
    }
}

#[test]
fn gamble_win_exact() {
    let mut st = store_with(&[("bob", 100)]);
    let r = st.gamble_with("bob", "!gamble 40", true).unwrap();
    assert_eq!(r, "you WON! and now have 140 coins");
    assert_eq!(st.data.balance_of("bob"), Some(140));
    assert_eq!(st.persisted().as_str(), "{\"coins\":{\"bob\":140}}");
}

#[test]
fn gamble_lose_exact() {
    let mut st = store_with(&[("bob", 100)]);
    let r = st.gamble_with("bob", "!gamble 40", false).unwrap();
    assert_eq!(r, "you lost 40 coins and now have 60 total");
    assert_eq!(st.data.balance_of("bob"), Some(60));
    assert_eq!(st.persisted().as_str(), "{\"coins\":{\"bob\":60}}");
}

#[test]
fn gamble_saturates_both_ways() {
    let mut st = store_with(&[("rich", u64::MAX - 1)]);
    st.gamble_with("rich", "!gamble 5", true).unwrap();
    assert_eq!(st.data.balance_of("rich"), Some(u64::MAX));

    let mut st2 = store_with(&[("poor", 3)]);
    st2.gamble_with("poor", "!gamble 5", false).unwrap();
    assert_eq!(st2.data.balance_of("poor"), Some(0));
}

#[test]
fn gamble_outcome_is_one_of_two() {
    let mut st = store_with(&[("bob", 1000)]);
    let before = st.persisted().clone();
    st.gamble("bob", "!gamble 250").unwrap();
    let b = st.data.balance_of("bob").unwrap();
    assert!(b == 1250 || b == 750);
    assert_ne!(st.persisted(), &before);
}

#[test]
fn gamble_broke_replies_and_keeps_ledger() {
    let mut st = store_with(&[("bob", 0)]);
    let before = st.persisted().clone();
    let r = st.gamble_with("bob", "!gamble 10", true).unwrap();
    assert_eq!(r, "you are broke, dont gamble");
    assert_eq!(st.data.balance_of("bob"), Some(0));
    assert_eq!(st.persisted(), &before);
    // the balance check comes before the amount parse
    let r2 = st.gamble_with("bob", "!gamble junk", false).unwrap();
    assert_eq!(r2, "you are broke, dont gamble");
}

#[test]
fn gamble_zero_amount_replies_and_keeps_ledger() {
    let mut st = store_with(&[("bob", 55)]);
    let before = st.persisted().clone();
    let r = st.gamble_with("bob", "!gamble 0", true).unwrap();
    assert_eq!(r, "cant gamble 0 coins :(");
    assert_eq!(st.data.balance_of("bob"), Some(55));
    assert_eq!(st.persisted(), &before);
}

#[test]
fn gamble_bad_amount_is_silent() {
    let bad = ["!gamble", "!gamble abc", "!gamble 12x", "!gamble 18446744073709551616", "!gamble -5"];
    for msg in bad {
        let mut st = store_with(&[("bob", 55)]);
        let before = st.persisted().clone();
        assert_eq!(st.gamble_with("bob", msg, true), None, "message {msg:?}");
        assert_eq!(st.data.balance_of("bob"), Some(55));
        assert_eq!(st.persisted(), &before);
    }
}

#[test]
fn gamble_uses_default_balance_for_new_user() {
    let mut st = store_with(&[]);
    let r = st.gamble("bob", "!gamble 100").unwrap();
    let b = st.data.balance_of("bob").unwrap();
    assert!(b == 1100 || b == 900);
    if b == 1100 {
        assert_eq!(r, "you WON! and now have 1100 coins");
    } else {
        assert_eq!(r, "you lost 100 coins and now have 900 total");
    }
    let reread = BotSaveData::load(st.persisted().as_str());
    assert_eq!(reread.balance_of("bob"), Some(b));
}

#[test]
fn poisoning_recovery_reads_persisted_value() {
    let mut st = CoinStore::from_saved("{\"coins\":{\"alice\":500}}");
    assert_eq!(st.data.balance_of("alice"), Some(500));
    // diverge the in-memory ledger from the stored text, as a holder that
    // died mid-mutation would have left it
    st.data.set_balance("alice", 999);
    assert_eq!(st.data.balance_of("alice"), Some(999));
    assert_eq!(st.persisted().as_str(), "{\"coins\":{\"alice\":500}}");
    // a poisoned guard makes the next gamble reload from the stored text
    st.mark_poisoned();
    assert!(st.is_poisoned());
    st.gamble("alice", "!gamble 1").unwrap();
    assert!(!st.is_poisoned());
    let b = st.data.balance_of("alice").unwrap();
    assert!(b == 501 || b == 499, "balance {b} must come from 500, not 999");
}

#[test]
fn set_coins_overwrites_own_entry_and_persists() {
    let mut st = store_with(&[("just_robbe_", 10)]);
    assert_eq!(st.set_coins("just_robbe_", "!set_coins 42"), Some(()));
    assert_eq!(st.data.balance_of("just_robbe_"), Some(42));
    let reread = BotSaveData::load(st.persisted().as_str());
    assert_eq!(reread.balance_of("just_robbe_"), Some(42));
}

#[test]
fn set_coins_bad_amount_does_nothing() {
    let mut st = store_with(&[("just_robbe_", 10)]);
    let before = st.persisted().clone();
    assert_eq!(st.set_coins("just_robbe_", "!set_coins"), None);
    assert_eq!(st.set_coins("just_robbe_", "!set_coins ten"), None);
    assert_eq!(st.data.balance_of("just_robbe_"), Some(10));
    assert_eq!(st.persisted(), &before);
}

#[test]
fn add_coins_inserts_for_absent_user_and_persists() {
    let mut st = store_with(&[]);
    assert_eq!(st.add_coins("just_robbe_", "!add_coins 50"), Some(()));
    assert_eq!(st.data.balance_of("just_robbe_"), Some(50));
    assert_eq!(st.persisted().as_str(), "{\"coins\":{\"just_robbe_\":50}}");
}

#[test]
fn add_coins_increments_existing_entry_and_persists() {
    let mut st = store_with(&[("just_robbe_", 70)]);
    assert_eq!(st.add_coins("just_robbe_", "!add_coins 50"), Some(()));
    assert_eq!(st.data.balance_of("just_robbe_"), Some(120));
    let reread = BotSaveData::load(st.persisted().as_str());
    assert_eq!(reread.balance_of("just_robbe_"), Some(120));
}

#[test]
fn add_coins_saturates() {
    let mut st = store_with(&[("just_robbe_", u64::MAX - 2)]);
    st.add_coins("just_robbe_", "!add_coins 50");
    assert_eq!(st.data.balance_of("just_robbe_"), Some(u64::MAX));
}

#[test]
fn dispatch_non_owner_add_coins_is_silent() {
    let bot = full_bot();
    let mut st = store_with(&[]);
    let before = st.persisted().clone();
    let r = bot.dispatch(&mut st, "mallory", "!add_coins 50");
    assert!(matches!(r, DispatchOutcome::Silent));
    assert_eq!(st.data.balance_of("mallory"), None);
    assert_eq!(st.persisted(), &before);
}

#[test]
fn dispatch_non_owner_set_coins_is_silent() {
    let bot = full_bot();
    let mut st = store_with(&[("mallory", 8)]);
    let r = bot.dispatch(&mut st, "mallory", "!set_coins 50");
    assert!(matches!(r, DispatchOutcome::Silent));
    assert_eq!(st.data.balance_of("mallory"), Some(8));
}

#[test]
fn dispatch_owner_add_and_set() {
    let bot = full_bot();
    let mut st = store_with(&[]);
    let r = bot.dispatch(&mut st, owner_name(), "!add_coins 50");
    assert!(matches!(r, DispatchOutcome::Silent));
    assert_eq!(st.data.balance_of(owner_name()), Some(50));
    let r2 = bot.dispatch(&mut st, owner_name(), "!set_coins 7");
    assert!(matches!(r2, DispatchOutcome::Silent));
    assert_eq!(st.data.balance_of(owner_name()), Some(7));
    // every mutating economy command persists the whole ledger
    let reread = BotSaveData::load(st.persisted().as_str());
    assert_eq!(reread.balance_of(owner_name()), Some(7));
}

#[test]
fn dispatch_owner_restricted_on_poisoned_guard_is_fatal() {
    let bot = full_bot();
    let mut st = store_with(&[]);
    st.mark_poisoned();
    let r = bot.dispatch(&mut st, owner_name(), "!set_coins 1");
    assert!(matches!(r, DispatchOutcome::Fatal));
    let r2 = bot.dispatch(&mut st, owner_name(), "!add_coins 1");
    assert!(matches!(r2, DispatchOutcome::Fatal));
    // the gamble path recovers instead
    let r3 = bot.dispatch(&mut st, "bob", "!gamble 1");
    assert!(matches!(r3, DispatchOutcome::Reply(_)));
    assert!(!st.is_poisoned());
}

#[test]
fn dispatch_without_sigil_or_unknown_is_silent() {
    let bot = full_bot();
    let mut st = store_with(&[("bob", 5)]);
    let before = st.persisted().clone();
    for msg in ["gamble 100", "", "hello there", "!unknown 3", "! gamble"] {
        let r = bot.dispatch(&mut st, "bob", msg);
        assert!(matches!(r, DispatchOutcome::Silent), "message {msg:?}");
    }
    assert_eq!(st.data.balance_of("bob"), Some(5));
    assert_eq!(st.persisted(), &before);
}

#[test]
fn dispatch_static_handler_replies_with_registered_line() {
    let bot = full_bot();
    let mut st = store_with(&[]);
    match bot.dispatch(&mut st, "bob", "!topic") {
        DispatchOutcome::Reply(t) => assert_eq!(t, "the topic of the day"),
        _ => panic!("expected a reply"),
    }
    match bot.dispatch(&mut st, "bob", "!quote") {
        DispatchOutcome::Reply(t) => assert_eq!(t, "a memorable quote"),
        _ => panic!("expected a reply"),
    }
}

#[test]
fn dispatch_static_handler_picks_from_list() {
    let lines = vec!["one".to_string(), "two".to_string(), "three".to_string()];
    let bot = Bot::default().with_command("!pick".to_string(), Handler::Static { lines: lines.clone() });
    let mut st = store_with(&[]);
    for _ in 0..20 {
        match bot.dispatch(&mut st, "bob", "!pick") {
            DispatchOutcome::Reply(t) => assert!(lines.contains(&t)),
            _ => panic!("expected a reply"),
        }
    }
}

#[test]
fn last_registration_wins() {
    let bot = Bot::default()
        .with_command("!x".to_string(), Handler::Static { lines: vec!["first".to_string()] })
        .with_command("!x".to_string(), Handler::Static { lines: vec!["second".to_string()] });
    let mut st = store_with(&[]);
    match bot.dispatch(&mut st, "bob", "!x") {
        DispatchOutcome::Reply(t) => assert_eq!(t, "second"),
        _ => panic!("expected a reply"),
    }
}

#[test]
fn scenario_empty_ledger_bob_gambles_100() {
    let bot = full_bot();
    let mut st = CoinStore::from_saved("{\"coins\":{}}");
    let reply = match bot.dispatch(&mut st, "bob", "!gamble 100") {
        DispatchOutcome::Reply(t) => t,
        _ => panic!("expected a reply"),
    };
    let b = st.data.balance_of("bob").unwrap();
    assert!(b == 1100 || b == 900);
    if b == 1100 {
        assert_eq!(reply, "you WON! and now have 1100 coins");
    } else {
        assert_eq!(reply, "you lost 100 coins and now have 900 total");
    }
    let reread = BotSaveData::load(st.persisted().as_str());
    assert_eq!(reread.balance_of("bob"), Some(b));
}

#[test]
fn gamble_persists_escaped_sender_name() {
    let mut st = store_with(&[]);
    let r = st.gamble_with("odd\"na\\me", "!gamble 100", true).unwrap();
    assert_eq!(r, "you WON! and now have 1100 coins");
    let reread = BotSaveData::load(st.persisted().as_str());
    assert_eq!(reread.balance_of("odd\"na\\me"), Some(1100));
}

#[test]
fn persistence_keeps_every_entry() {
    let mut st = store_with(&[("a", 1), ("b", 2), ("c", 3)]);
    st.gamble_with("b", "!gamble 1", true).unwrap();
    let reread = BotSaveData::load(st.persisted().as_str());
    assert_eq!(reread.balance_of("a"), Some(1));
    assert_eq!(reread.balance_of("b"), Some(3));
    assert_eq!(reread.balance_of("c"), Some(3));
}

#[test]
fn channels_list() {
    let v = channels_to_join();
    assert_eq!(v, vec!["Just_Robbe_", "crackpotparty"]);
}

#[test]
fn owner_name_value() {
    assert_eq!(owner_name(), "just_robbe_");
}
