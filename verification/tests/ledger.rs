use transacty::EventError;
use transacty::primitives::Amount;
use transacty::primitives::ClientId;
use transacty::primitives::ClientState;
use transacty::primitives::Event;
use transacty::primitives::EventType;
use transacty::primitives::TransactionId;
use transacty::state::StateManager;
use transacty::state::memory::MemoryError;
use transacty::state::memory::MemoryState;

fn ev(event_type: EventType, client: u16, tx: u32, amount: u64) -> Event {
    Event {
        event_type,
        client: ClientId(client),
        tx: TransactionId(tx),
        amount: Amount(amount),
    }
}

#[test]
fn deposit_to_fresh_client() {
    let mut state = MemoryState::new();
    assert!(state.handle_event(ev(EventType::Deposit, 1, 1, 50000)).is_ok());
    let cs = state.client(ClientId(1)).unwrap();
    assert_eq!(cs.available, Amount(50000));
    assert_eq!(cs.held, Amount(0));
    assert!(!cs.locked);
    let rec = state.deposit_record(TransactionId(1)).unwrap();
    assert!(!rec.is_disputed);
    assert_eq!(rec.event, ev(EventType::Deposit, 1, 1, 50000));
}

#[test]
fn deposit_accumulates() {
    let mut state = MemoryState::new();
    assert!(state.handle_event(ev(EventType::Deposit, 1, 1, 50000)).is_ok());
    assert!(state.handle_event(ev(EventType::Deposit, 1, 2, 25000)).is_ok());
    assert_eq!(state.client(ClientId(1)).unwrap().available, Amount(75000));
}

#[test]
fn duplicate_transaction_id_rejected() {
    let mut state = MemoryState::new();
    assert!(state.handle_event(ev(EventType::Deposit, 1, 7, 50000)).is_ok());
    let r = state.handle_event(ev(EventType::Deposit, 1, 7, 30000));
    assert!(matches!(
        r,
        Err(EventError::DuplicateTransactionId(c, t)) if c == ClientId(1) && t == TransactionId(7)
    ));
    // Balances are exactly as after the first deposit: no partial credit.
    assert_eq!(state.client(ClientId(1)).unwrap().available, Amount(50000));
    assert_eq!(state.deposit_record(TransactionId(7)).unwrap().event.amount, Amount(50000));
}

#[test]
fn withdrawal_subtracts_exactly() {
    let mut state = MemoryState::new();
    assert!(state.handle_event(ev(EventType::Deposit, 1, 1, 100000)).is_ok());
    assert!(state.handle_event(ev(EventType::Withdrawal, 1, 2, 30000)).is_ok());
    let cs = state.client(ClientId(1)).unwrap();
    assert_eq!(cs.available, Amount(70000));
    assert_eq!(cs.held, Amount(0));
}

#[test]
fn withdrawal_insufficient_funds() {
    let mut state = MemoryState::new();
    assert!(state.handle_event(ev(EventType::Deposit, 1, 1, 10000)).is_ok());
    let r = state.handle_event(ev(EventType::Withdrawal, 1, 2, 10001));
    assert!(matches!(
        r,
        Err(EventError::InsufficientFunds(c, t)) if c == ClientId(1) && t == TransactionId(2)
    ));
    assert_eq!(state.client(ClientId(1)).unwrap().available, Amount(10000));
}

#[test]
fn withdrawal_unknown_client() {
    let mut state = MemoryState::new();
    let r = state.handle_event(ev(EventType::Withdrawal, 9, 1, 1));
    assert!(matches!(r, Err(EventError::UnknownClient(c)) if c == ClientId(9)));
}

#[test]
fn withdrawal_from_locked_account() {
    let mut state = MemoryState::new();
    assert!(state.handle_event(ev(EventType::Deposit, 1, 1, 100000)).is_ok());
    assert!(state.handle_event(ev(EventType::Deposit, 1, 2, 50000)).is_ok());
    assert!(state.handle_event(ev(EventType::Dispute, 1, 2, 0)).is_ok());
    assert!(state.handle_event(ev(EventType::Chargeback, 1, 2, 0)).is_ok());
    assert!(state.client(ClientId(1)).unwrap().locked);
    let r = state.handle_event(ev(EventType::Withdrawal, 1, 3, 10000));
    assert!(matches!(
        r,
        Err(EventError::AccountLocked(c, t)) if c == ClientId(1) && t == TransactionId(3)
    ));
    assert_eq!(state.client(ClientId(1)).unwrap().available, Amount(100000));
}

#[test]
fn deposit_to_locked_account_still_works() {
    let mut state = MemoryState::new();
    assert!(state.handle_event(ev(EventType::Deposit, 1, 1, 50000)).is_ok());
    assert!(state.handle_event(ev(EventType::Dispute, 1, 1, 0)).is_ok());
    assert!(state.handle_event(ev(EventType::Chargeback, 1, 1, 0)).is_ok());
    assert!(state.client(ClientId(1)).unwrap().locked);
    assert!(state.handle_event(ev(EventType::Deposit, 1, 2, 10000)).is_ok());
    assert_eq!(state.client(ClientId(1)).unwrap().available, Amount(10000));
}

#[test]
fn overdraw_on_locked_account_reports_insufficient_funds() {
    // Sufficiency is checked before the lock.
    let mut state = MemoryState::new();
    assert!(state.handle_event(ev(EventType::Deposit, 1, 1, 50000)).is_ok());
    assert!(state.handle_event(ev(EventType::Dispute, 1, 1, 0)).is_ok());
    assert!(state.handle_event(ev(EventType::Chargeback, 1, 1, 0)).is_ok());
    assert!(state.handle_event(ev(EventType::Deposit, 1, 2, 10000)).is_ok());
    let r = state.handle_event(ev(EventType::Withdrawal, 1, 3, 20000));
    assert!(matches!(
        r,
        Err(EventError::InsufficientFunds(c, t)) if c == ClientId(1) && t == TransactionId(3)
    ));
}

#[test]
fn dispute_moves_available_to_held() {
    let mut state = MemoryState::new();
    assert!(state.handle_event(ev(EventType::Deposit, 1, 1, 100000)).is_ok());
    assert!(state.handle_event(ev(EventType::Dispute, 2, 1, 0)).is_ok());
    let cs = state.client(ClientId(1)).unwrap();
    assert_eq!(cs.available, Amount(0));
    assert_eq!(cs.held, Amount(100000));
    assert!(state.deposit_record(TransactionId(1)).unwrap().is_disputed);
}

#[test]
fn dispute_then_resolve_restores_balances() {
    let mut state = MemoryState::new();
    assert!(state.handle_event(ev(EventType::Deposit, 1, 1, 100000)).is_ok());
    assert!(state.handle_event(ev(EventType::Deposit, 1, 2, 30000)).is_ok());
    assert!(state.handle_event(ev(EventType::Dispute, 1, 2, 0)).is_ok());
    assert!(state.handle_event(ev(EventType::Resolve, 1, 2, 0)).is_ok());
    let cs = state.client(ClientId(1)).unwrap();
    assert_eq!(cs.available, Amount(130000));
    assert_eq!(cs.held, Amount(0));
    assert!(!cs.locked);
    assert!(!state.deposit_record(TransactionId(2)).unwrap().is_disputed);
}

#[test]
fn dispute_then_chargeback_burns_held_and_locks() {
    let mut state = MemoryState::new();
    assert!(state.handle_event(ev(EventType::Deposit, 1, 1, 100000)).is_ok());
    assert!(state.handle_event(ev(EventType::Deposit, 1, 2, 30000)).is_ok());
    assert!(state.handle_event(ev(EventType::Dispute, 1, 2, 0)).is_ok());
    assert!(state.handle_event(ev(EventType::Chargeback, 1, 2, 0)).is_ok());
    let cs = state.client(ClientId(1)).unwrap();
    assert_eq!(cs.available, Amount(100000));
    assert_eq!(cs.held, Amount(0));
    assert!(cs.locked);
    assert!(!state.deposit_record(TransactionId(2)).unwrap().is_disputed);
}

#[test]
fn double_dispute_rejected() {
    let mut state = MemoryState::new();
    assert!(state.handle_event(ev(EventType::Deposit, 1, 1, 100000)).is_ok());
    assert!(state.handle_event(ev(EventType::Dispute, 1, 1, 0)).is_ok());
    let r = state.handle_event(ev(EventType::Dispute, 1, 1, 0));
    assert!(matches!(
        r,
        Err(EventError::DoubleDispute(c, t)) if c == ClientId(1) && t == TransactionId(1)
    ));
    assert_eq!(state.client(ClientId(1)).unwrap().held, Amount(100000));
}

#[test]
fn dispute_of_unknown_transaction_is_absorbed() {
    let mut state = MemoryState::new();
    assert!(state.handle_event(ev(EventType::Deposit, 1, 1, 100000)).is_ok());
    assert!(state.handle_event(ev(EventType::Dispute, 1, 999, 0)).is_ok());
    let cs = state.client(ClientId(1)).unwrap();
    assert_eq!(cs.available, Amount(100000));
    assert_eq!(cs.held, Amount(0));
}

#[test]
fn dispute_after_withdrawal_is_absorbed() {
    // The disputed deposit's funds were already withdrawn: the unsigned
    // balance cannot go negative, so the dispute is a no-op.
    let mut state = MemoryState::new();
    assert!(state.handle_event(ev(EventType::Deposit, 1, 1, 100000)).is_ok());
    assert!(state.handle_event(ev(EventType::Withdrawal, 1, 2, 30000)).is_ok());
    assert!(state.handle_event(ev(EventType::Dispute, 1, 1, 0)).is_ok());
    let cs = state.client(ClientId(1)).unwrap();
    assert_eq!(cs.available, Amount(70000));
    assert_eq!(cs.held, Amount(0));
    assert!(!state.deposit_record(TransactionId(1)).unwrap().is_disputed);
}

#[test]
fn resolve_of_undisputed_transaction_is_absorbed() {
    let mut state = MemoryState::new();
    assert!(state.handle_event(ev(EventType::Deposit, 1, 1, 100000)).is_ok());
    assert!(state.handle_event(ev(EventType::Resolve, 1, 1, 0)).is_ok());
    assert!(state.handle_event(ev(EventType::Resolve, 1, 999, 0)).is_ok());
    let cs = state.client(ClientId(1)).unwrap();
    assert_eq!(cs.available, Amount(100000));
    assert_eq!(cs.held, Amount(0));
}

#[test]
fn chargeback_of_undisputed_transaction_is_absorbed() {
    let mut state = MemoryState::new();
    assert!(state.handle_event(ev(EventType::Deposit, 1, 1, 100000)).is_ok());
    assert!(state.handle_event(ev(EventType::Chargeback, 1, 1, 0)).is_ok());
    assert!(state.handle_event(ev(EventType::Chargeback, 1, 999, 0)).is_ok());
    let cs = state.client(ClientId(1)).unwrap();
    assert_eq!(cs.available, Amount(100000));
    assert!(!cs.locked);
}

#[test]
fn deposit_overflowing_the_representation_is_refused() {
    let mut state = MemoryState::new();
    assert!(state.handle_event(ev(EventType::Deposit, 1, 1, u64::MAX)).is_ok());
    let r = state.handle_event(ev(EventType::Deposit, 1, 2, 1));
    assert!(matches!(r, Err(EventError::BackendError(MemoryError::BalanceOverflow))));
    assert_eq!(state.client(ClientId(1)).unwrap().available, Amount(u64::MAX));
    assert!(state.deposit_record(TransactionId(2)).is_none());
}

#[test]
fn emit_state_lists_clients_in_first_appearance_order() {
    let mut state = MemoryState::new();
    assert!(state.handle_event(ev(EventType::Deposit, 5, 1, 10000)).is_ok());
    assert!(state.handle_event(ev(EventType::Deposit, 2, 2, 20000)).is_ok());
    assert!(state.handle_event(ev(EventType::Deposit, 5, 3, 5000)).is_ok());
    assert!(state.handle_event(ev(EventType::Dispute, 2, 2, 0)).is_ok());
    let rows = state.emit_state();
    assert_eq!(rows.len(), 2);
    assert_eq!(rows[0].client, ClientId(5));
    assert_eq!(rows[0].available, Amount(15000));
    assert_eq!(rows[0].held, Amount(0));
    assert_eq!(rows[0].total, Amount(15000));
    assert!(!rows[0].locked);
    assert_eq!(rows[1].client, ClientId(2));
    assert_eq!(rows[1].available, Amount(0));
    assert_eq!(rows[1].held, Amount(20000));
    assert_eq!(rows[1].total, Amount(20000));
}

#[test]
fn to_serialize_derives_total() {
    let cs = ClientState { available: Amount(70000), held: Amount(30000), locked: true };
    let row = cs.to_serialize(ClientId(3));
    assert_eq!(row.client, ClientId(3));
    assert_eq!(row.available, Amount(70000));
    assert_eq!(row.held, Amount(30000));
    assert_eq!(row.total, Amount(100000));
    assert!(row.locked);
}

#[test]
fn has_amount_by_kind() {
    assert!(ev(EventType::Deposit, 1, 1, 0).has_amount());
    assert!(ev(EventType::Withdrawal, 1, 1, 0).has_amount());
    assert!(!ev(EventType::Dispute, 1, 1, 0).has_amount());
    assert!(!ev(EventType::Resolve, 1, 1, 0).has_amount());
    assert!(!ev(EventType::Chargeback, 1, 1, 0).has_amount());
}

#[test]
fn default_state_is_empty() {
    let state = MemoryState::default();
    assert!(state.client(ClientId(1)).is_none());
    assert!(state.deposit_record(TransactionId(1)).is_none());
    assert_eq!(state.emit_state().len(), 0);
    assert_eq!(ClientState::default(), ClientState {
        available: Amount(0),
        held: Amount(0),
        locked: false,
    });
}
