//! Replay, snapshots and the contents of the log.
use matching_engine::book::OrderBook;
use matching_engine::matcher::MatchingEngine;
use matching_engine::replay::{has_room_for_all, load_snapshot, recover, replay_wal, ReplayError};
use matching_engine::types::{
    CancelOrder, Command, CommandPayload, EngineEvent, NewOrder, OrderCondition, OrderType, SeqNo,
    Side, TimeInForce,
};
use matching_engine::wal::{entries_of, entry_of, line_of, WalReader, WalWriter};

fn make_cmd(seq_no: SeqNo) -> Command {
    Command {
        seq_no,
        timestamp: seq_no * 1000,
        payload: CommandPayload::New(NewOrder {
            order_id: seq_no,
            symbol: 1,
            side: if seq_no % 2 == 0 { Side::Buy } else { Side::Sell },
            order_type: OrderType::Limit,
            tif: TimeInForce::GTC,
            condition: OrderCondition::Unconditional,
            price: 100,
            qty: 10,
            stop_price: 0,
        }),
    }
}

fn log(seq_nos: std::ops::RangeInclusive<u64>) -> Vec<Result<Command, ReplayError>> {
    seq_nos.map(|i| Ok(make_cmd(i))).collect()
}

fn book_text(book: &OrderBook) -> String {
    let mut orders: Vec<_> = book.orders.values().copied().collect();
    orders.sort_by_key(|order| order.order_id);
    format!(
        "{:?} {:?} {:?} {:?} {:?}",
        book.bids, book.asks, orders, book.waiting, book.last_seq_no
    )
}

#[test]
fn wal_write_and_read_back() {
    let mut wal = WalWriter::open("test_wal.jsonl".to_string());
    let mut text = String::new();
    for i in 1..=5 {
        text.push_str(&line_of(&format!("{{\"seq_no\":{}}}", i)));
        wal.appended();
    }
    assert_eq!(wal.count(), 5);
    assert_eq!(wal.path(), "test_wal.jsonl");

    let mut reader = WalReader::open(&text.into_bytes());
    let mut entries = Vec::new();
    while let Some(entry) = reader.next() {
        entries.push(entry.unwrap());
    }
    assert_eq!(entries.len(), 5);
    assert_eq!(entries[0], "{\"seq_no\":1}");
    assert_eq!(entries[4], "{\"seq_no\":5}");
    assert_eq!(reader.next(), None);
}

#[test]
fn snapshot_and_restore() {
    let mut engine = MatchingEngine::new(1);
    engine.process(&make_cmd(1));
    engine.process(&make_cmd(2));

    let restored = load_snapshot(engine.book.clone()).unwrap();
    assert_eq!(restored.book.last_seq_no, engine.book.last_seq_no);
    assert_eq!(restored.book.orders.len(), engine.book.orders.len());
}

#[test]
fn deterministic_replay_matches_original() {
    // Original run.
    let mut engine1 = MatchingEngine::new(1);
    let mut original_events = Vec::new();
    let mut wal = Vec::new();
    for i in 1..=10 {
        let cmd = make_cmd(i);
        wal.push(Ok(cmd));
        let result = engine1.process(&cmd);
        original_events.extend(result.events);
    }

    // Replay from scratch.
    let mut engine2 = MatchingEngine::new(1);
    assert!(has_room_for_all(&engine2, &wal));
    let replayed_events = replay_wal(&mut engine2, &wal).unwrap();

    // Both must produce identical event streams.
    assert_eq!(original_events, replayed_events);
    // And identical book state.
    assert_eq!(engine1.book.last_seq_no, engine2.book.last_seq_no);
    assert_eq!(engine1.book.orders.len(), engine2.book.orders.len());
    assert_eq!(book_text(&engine1.book), book_text(&engine2.book));
}

#[test]
fn recovery_from_snapshot_plus_wal() {
    // Process 5 commands, snapshot, then process 5 more.
    let mut engine = MatchingEngine::new(1);
    let mut later_events = Vec::new();
    for i in 1..=5 {
        engine.process(&make_cmd(i));
    }
    let snapshot = engine.book.clone();
    for i in 6..=10 {
        later_events.extend(engine.process(&make_cmd(i)).events);
    }

    // Recover.
    let (recovered_engine, recovered_events) =
        recover(Some(snapshot), Some(log(1..=10)), 1).unwrap();

    // Verify final state matches.
    assert_eq!(recovered_engine.book.last_seq_no, engine.book.last_seq_no);
    assert_eq!(
        recovered_engine.book.orders.len(),
        engine.book.orders.len()
    );
    assert_eq!(book_text(&recovered_engine.book), book_text(&engine.book));
    assert_eq!(recovered_events, later_events);
}

#[test]
fn recovery_without_anything_gives_an_empty_book() {
    let (engine, events) = recover(None, None, 7).unwrap();
    assert_eq!(engine.book.symbol, 7);
    assert_eq!(engine.book.last_seq_no, 0);
    assert!(events.is_empty());
}

#[test]
fn replaying_twice_changes_nothing() {
    let mut engine = MatchingEngine::new(1);
    replay_wal(&mut engine, &log(1..=6)).unwrap();
    let before = book_text(&engine.book);
    let events = replay_wal(&mut engine, &log(1..=6)).unwrap();
    assert!(events.is_empty());
    assert_eq!(book_text(&engine.book), before);
}

#[test]
fn an_unreadable_entry_ends_the_replay() {
    let errors = vec![
        ReplayError::Io("disk".to_string()),
        ReplayError::Json("brace".to_string()),
        ReplayError::Bincode("bytes".to_string()),
        ReplayError::SequenceGap { expected: 3, got: 5 },
    ];
    for error in errors {
        let mut engine = MatchingEngine::new(1);
        let entries = vec![Ok(make_cmd(1)), Err(error.clone()), Ok(make_cmd(2))];
        assert_eq!(replay_wal(&mut engine, &entries).unwrap_err(), error);
        assert_eq!(engine.book.last_seq_no, 1);
        assert_eq!(recover(None, Some(entries), 1).err(), Some(error));
    }
}

#[test]
fn a_snapshot_is_loaded_as_it_is() {
    let mut engine = MatchingEngine::new(1);
    engine.process(&make_cmd(1));
    let mut book = engine.book.clone();
    book.asks.reduce_qty(100, 1);
    let loaded = load_snapshot(book.clone()).unwrap();
    assert_eq!(book_text(&loaded.book), book_text(&book));
    assert!(!loaded.book.is_consistent());
    // Nothing can be replayed onto such a book, but nothing need be.
    assert!(!has_room_for_all(&loaded, &log(1..=2)));
    assert!(has_room_for_all(&loaded, &log(1..=1)));
    for wal in [None, Some(log(1..=1))] {
        let (recovered, events) = recover(Some(book.clone()), wal, 1).unwrap();
        assert_eq!(book_text(&recovered.book), book_text(&book));
        assert!(events.is_empty());
    }
}

fn stop_cmd(seq_no: SeqNo, order_id: u64) -> Command {
    let mut cmd = make_cmd(seq_no);
    if let CommandPayload::New(order) = &mut cmd.payload {
        order.order_id = order_id;
        order.side = Side::Buy;
        order.condition = OrderCondition::Stop;
        order.stop_price = 100;
        order.price = 90;
    }
    cmd
}

#[test]
fn stop_orders_that_a_snapshot_does_not_list_wait_again() {
    let mut engine = MatchingEngine::new(1);
    engine.process(&make_cmd(1));
    engine.process(&stop_cmd(2, 50));
    engine.process(&stop_cmd(3, 30));
    engine.process(&stop_cmd(4, 40));
    assert_eq!(engine.book.waiting, vec![50, 30, 40]);

    let mut bare = engine.book.clone();
    bare.waiting.clear();
    assert!(!bare.is_consistent());
    let mut loaded = load_snapshot(bare.clone()).unwrap();
    assert!(loaded.book.is_consistent());
    assert_eq!(loaded.book.waiting, vec![30, 40, 50]);
    assert_eq!(loaded.book.orders, engine.book.orders);

    // What the snapshot lists stays ahead.
    bare.waiting.push(50);
    assert_eq!(load_snapshot(bare.clone()).unwrap().book.waiting, vec![50, 30, 40]);

    // A trade at the stop price lets them in, here and after recovery.
    let mut buy = make_cmd(6);
    if let CommandPayload::New(order) = &mut buy.payload {
        order.qty = 4;
    }
    let events = loaded.process(&buy).events;
    assert!(loaded.book.waiting.is_empty());
    assert_eq!(loaded.book.bids.total_qty(), 30);
    bare.waiting.clear();
    let (recovered, replayed) = recover(Some(bare), Some(vec![Ok(buy)]), 1).unwrap();
    assert_eq!(replayed, events);
    assert_eq!(book_text(&recovered.book), book_text(&loaded.book));
}

#[test]
fn only_open_stop_orders_wait_again() {
    let mut engine = MatchingEngine::new(1);
    engine.process(&stop_cmd(1, 7));
    engine.process(&stop_cmd(2, 8));
    let cancel = CommandPayload::Cancel(CancelOrder { order_id: 7, symbol: 1 });
    engine.process(&Command { seq_no: 3, timestamp: 0, payload: cancel });
    let mut bare = engine.book.clone();
    bare.waiting.clear();
    assert_eq!(load_snapshot(bare).unwrap().book.waiting, vec![8]);
}

#[test]
fn a_snapshot_keeps_waiting_orders() {
    let mut engine = MatchingEngine::new(1);
    engine.process(&make_cmd(1));
    let mut cmd = make_cmd(2);
    if let CommandPayload::New(order) = &mut cmd.payload {
        order.condition = OrderCondition::AON;
        order.qty = 15;
    }
    engine.process(&cmd);
    let mut restored = load_snapshot(engine.book.clone()).unwrap();
    assert_eq!(restored.book.waiting, vec![2]);
    let events = engine.process(&make_cmd(3)).events;
    assert_eq!(restored.process(&make_cmd(3)).events, events);
    assert!(restored.book.waiting.is_empty());
    assert_eq!(book_text(&restored.book), book_text(&engine.book));
}

#[test]
fn a_waiting_order_that_may_not_wait_makes_a_book_inconsistent() {
    let mut engine = MatchingEngine::new(1);
    engine.process(&make_cmd(1));
    for id in [1, 7] {
        let mut book = engine.book.clone();
        book.waiting.push(id);
        assert!(!book.is_consistent());
        let loaded = load_snapshot(book).unwrap();
        assert_eq!(loaded.book.waiting, vec![id]);
        assert!(!loaded.book.is_consistent());
    }
}

#[test]
fn a_log_fits_if_no_level_overflows() {
    let engine = MatchingEngine::new(1);
    let big = |seq_no: u64, qty: u64| {
        let mut cmd = make_cmd(seq_no);
        if let CommandPayload::New(order) = &mut cmd.payload {
            order.qty = qty;
        }
        Ok(cmd)
    };
    // Both rest among the asks at 100.
    assert!(has_room_for_all(&engine, &vec![big(1, u64::MAX - 1), big(3, 1)]));
    assert!(!has_room_for_all(&engine, &vec![big(1, u64::MAX), big(3, 1)]));
    // The second takes from the first, and the third finds room.
    let entries = vec![big(1, u64::MAX), big(2, 5), big(3, 5)];
    assert!(has_room_for_all(&engine, &entries));
    let mut replayed = MatchingEngine::new(1);
    replay_wal(&mut replayed, &entries).unwrap();
    assert_eq!(replayed.book.asks.total_qty(), u64::MAX);
    assert!(!has_room_for_all(&engine, &vec![big(1, u64::MAX), big(2, 5), big(3, 6)]));
    // What the engine has processed already is not replayed.
    assert!(has_room_for_all(&engine, &vec![big(1, u64::MAX), big(0, 1)]));
    // Nor is what follows an entry that could not be read.
    let broken = Err(ReplayError::Io("disk".to_string()));
    assert!(has_room_for_all(&engine, &vec![big(1, u64::MAX), broken, big(3, 1)]));
}

#[test]
fn lines_are_trimmed_and_blank_ones_skipped() {
    assert_eq!(entry_of("  {}\t\r\n"), Some("{}".to_string()));
    assert_eq!(entry_of("\u{a0}a b\u{3000}\n"), Some("a b".to_string()));
    assert_eq!(entry_of(" \t\u{2003}\n"), None);
    assert_eq!(entry_of(""), None);
    let texts: Vec<String> =
        entries_of(&b"a\n\n  \n b \nc".to_vec()).into_iter().flatten().collect();
    assert_eq!(texts, vec!["a", "b", "c"]);
    assert!(entries_of(&vec![]).is_empty());
}

#[test]
fn entries_are_text_in_utf_8() {
    let entry = "{\"name\":\"\u{e9}\u{20ac}\u{1f600}\"}";
    let bytes = line_of(entry).into_bytes();
    assert_eq!(entries_of(&bytes), vec![Some(entry.to_string())]);
}

#[test]
fn a_line_that_is_no_text_is_an_error_of_its_own() {
    // The second line is no text, the fourth is cut off inside a character.
    let bytes = b"a\n\xff\xfe\n b\n\xe2\x82".to_vec();
    assert_eq!(
        entries_of(&bytes),
        vec![Some("a".to_string()), None, Some("b".to_string()), None]
    );
    let broken = ReplayError::Io("stream did not contain valid UTF-8".to_string());
    let mut reader = WalReader::open(&bytes);
    assert_eq!(reader.next(), Some(Ok("a".to_string())));
    assert_eq!(reader.next(), Some(Err(broken.clone())));
    assert_eq!(reader.next(), Some(Ok("b".to_string())));
    assert_eq!(reader.next(), Some(Err(broken)));
    assert_eq!(reader.next(), None);
}

#[test]
fn overlong_and_surrogate_encodings_are_no_text() {
    for line in [&[0xc0u8, 0x80][..], &[0xed, 0xa0, 0x80], &[0xf4, 0x90, 0x80, 0x80], &[0x80]] {
        assert_eq!(entries_of(&line.to_vec()), vec![None]);
        assert!(std::str::from_utf8(line).is_err());
    }
}

#[test]
fn appending_adds_one_entry() {
    let mut bytes = b"a\nb\n".to_vec();
    let before = entries_of(&bytes);
    bytes.extend(line_of("c d").into_bytes());
    let after = entries_of(&bytes);
    assert_eq!(after[..2], before[..]);
    assert_eq!(after[2], Some("c d".to_string()));
    assert_eq!(after.len(), 3);
}

#[test]
fn white_space_is_that_of_the_standard_library() {
    for code in 0..=0x3100u32 {
        if let Some(c) = char::from_u32(code) {
            assert_eq!(entry_of(&c.to_string()).is_none(), c.is_whitespace(), "{:x}", code);
        }
    }
}

#[test]
fn a_line_is_the_entry_and_a_line_break() {
    assert_eq!(line_of("{\"a\":1}"), "{\"a\":1}\n");
    assert_eq!(entry_of(&line_of("x")), Some("x".to_string()));
}

#[test]
fn timestamps_do_not_matter() {
    let mut a = MatchingEngine::new(1);
    let mut b = MatchingEngine::new(1);
    for i in 1..=6 {
        let cmd = make_cmd(i);
        let events: Vec<EngineEvent> = a.process(&cmd).events;
        assert_eq!(events, b.process(&Command { timestamp: 77 - i, ..cmd }).events);
    }
    assert_eq!(book_text(&a.book), book_text(&b.book));
}
