use std::sync::mpsc::sync_channel;

use transacty::EventError;
use transacty::primitives::Amount;
use transacty::primitives::ClientId;
use transacty::primitives::Event;
use transacty::primitives::EventType;
use transacty::primitives::TransactionId;
use transacty::process_events;
use transacty::state::memory::MemoryState;

fn ev(event_type: EventType, client: u16, tx: u32, amount: u64) -> Event {
    Event {
        event_type,
        client: ClientId(client),
        tx: TransactionId(tx),
        amount: Amount(amount),
    }
}

#[test]
fn end_to_end_scenario() {
    // Client 1 deposits 10.0, withdraws 3.0, then tx 1 is disputed.  The
    // dispute asks to hold 10.0 against an available balance of 7.0; the
    // unsigned representation admits no negative balance, so the ledger
    // absorbs the dispute and the balances stay at 7.0 available, 0 held.
    let mut state = MemoryState::new();
    let events = vec![
        ev(EventType::Deposit, 1, 1, 100000),
        ev(EventType::Withdrawal, 1, 2, 30000),
        ev(EventType::Dispute, 1, 1, 0),
    ];
    process_events(&mut state, events, None);
    let cs = state.client(ClientId(1)).unwrap();
    assert_eq!(cs.available, Amount(70000));
    assert_eq!(cs.held, Amount(0));
    assert!(!cs.locked);
    assert!(!state.deposit_record(TransactionId(1)).unwrap().is_disputed);
}

#[test]
fn failures_without_sink_are_discarded_and_stream_continues() {
    let mut state = MemoryState::new();
    let events = vec![
        ev(EventType::Withdrawal, 1, 1, 10000), // unknown client: hard error
        ev(EventType::Deposit, 1, 2, 50000),    // still applied
    ];
    process_events(&mut state, events, None);
    assert_eq!(state.client(ClientId(1)).unwrap().available, Amount(50000));
}

#[test]
fn failures_are_forwarded_to_the_sink() {
    let mut state = MemoryState::new();
    let (tx, rx) = sync_channel(16);
    let events = vec![
        ev(EventType::Deposit, 1, 1, 50000),
        ev(EventType::Withdrawal, 1, 2, 90000), // insufficient funds
        ev(EventType::Withdrawal, 7, 3, 10000), // unknown client
        ev(EventType::Deposit, 1, 4, 20000),    // still applied
    ];
    process_events(&mut state, events, Some(tx));
    let errors: Vec<_> = rx.try_iter().collect();
    assert_eq!(errors.len(), 2);
    assert!(matches!(
        errors[0],
        EventError::InsufficientFunds(c, t) if c == ClientId(1) && t == TransactionId(2)
    ));
    assert!(matches!(errors[1], EventError::UnknownClient(c) if c == ClientId(7)));
    assert_eq!(state.client(ClientId(1)).unwrap().available, Amount(70000));
}

#[test]
fn closed_sink_stops_the_stream() {
    let mut state = MemoryState::new();
    let (tx, rx) = sync_channel(16);
    drop(rx);
    let events = vec![
        ev(EventType::Deposit, 1, 1, 50000),
        ev(EventType::Withdrawal, 1, 2, 90000), // fails; the send fails too
        ev(EventType::Deposit, 2, 3, 20000),    // never applied
    ];
    process_events(&mut state, events, Some(tx));
    assert_eq!(state.client(ClientId(1)).unwrap().available, Amount(50000));
    assert!(state.client(ClientId(2)).is_none());
}

#[test]
fn events_apply_strictly_in_input_order() {
    // The withdrawal precedes the deposit it would need, so it fails.
    let mut state = MemoryState::new();
    let events = vec![
        ev(EventType::Deposit, 1, 1, 10000),
        ev(EventType::Withdrawal, 1, 2, 30000), // insufficient at this point
        ev(EventType::Deposit, 1, 3, 50000),
    ];
    process_events(&mut state, events, None);
    assert_eq!(state.client(ClientId(1)).unwrap().available, Amount(60000));
}
