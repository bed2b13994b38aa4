//! The ledger state abstraction: a mathematical model of the ledger, the
//! event-application rules on that model, and the interface every storage
//! backing must satisfy.

use vstd::prelude::*;

pub mod memory;

verus! {

use crate::EventError;
use crate::primitives::Amount;
use crate::primitives::ClientState;
use crate::primitives::Event;
use crate::primitives::EventType;
use crate::primitives::fresh_client;

/// A deposit together with its dispute flag.
///
/// A record is created exactly once per accepted deposit, keyed by the
/// transaction id; disputes set the flag, resolutions and chargebacks clear
/// it; records are never deleted.
#[derive(Debug, Clone, Copy, PartialEq, Eq, Structural)]
pub struct DepositRecord {
    pub event: Event,
    pub is_disputed: bool,
}

/// The mathematical state of a ledger: the balances of every client that
/// has ever appeared, and the deposit records that adjudicate disputes.
#[verifier::ext_equal]
pub ghost struct Ledger {
    pub clients: Map<u16, ClientState>,
    pub deposits: Map<u32, DepositRecord>,
}

impl Ledger {
    /// The empty ledger: no clients, no deposit records.
    pub open spec fn empty() -> Ledger {
        Ledger { clients: Map::empty(), deposits: Map::empty() }
    }
}

/// The balances of a client, counting one that has never appeared as fresh.
pub open spec fn lookup_client(l: Ledger, c: u16) -> ClientState {
    if l.clients.dom().contains(c) {
        l.clients[c]
    } else {
        fresh_client()
    }
}

/// A deposit that a `u64`-scaled backing cannot take: the transaction id is
/// new, so the deposit would be accepted, but the owner's total balance
/// would pass the representable range.
pub open spec fn deposit_overflows(l: Ledger, e: Event) -> bool {
    &&& e.event_type is Deposit
    &&& !l.deposits.dom().contains(e.tx.0)
    &&& lookup_client(l, e.client.0).available.0 + lookup_client(l, e.client.0).held.0 + e.amount.0
        > u64::MAX
}

/// What applying `e` to ledger `l` returns: `Ok` on success and on the
/// benign no-op cases, the matching hard error otherwise.
///
/// A dispute, resolve or chargeback that names an unknown transaction, or a
/// resolve or chargeback of a transaction not under dispute, is absorbed as
/// an upstream data error, not reported.  A dispute of a deposit whose
/// amount no longer fits under the owner's available balance is likewise
/// absorbed: the unsigned representation admits no negative balance.
pub open spec fn step_result<E>(l: Ledger, e: Event) -> Result<(), EventError<E>> {
    match e.event_type {
        EventType::Deposit => {
            if l.deposits.dom().contains(e.tx.0) {
                Err(EventError::DuplicateTransactionId(e.client, e.tx))
            } else {
                Ok(())
            }
        },
        EventType::Withdrawal => {
            if !l.clients.dom().contains(e.client.0) {
                Err(EventError::UnknownClient(e.client))
            } else if l.clients[e.client.0].available.0 < e.amount.0 {
                Err(EventError::InsufficientFunds(e.client, e.tx))
            } else if l.clients[e.client.0].locked {
                Err(EventError::AccountLocked(e.client, e.tx))
            } else {
                Ok(())
            }
        },
        EventType::Dispute => {
            if !l.deposits.dom().contains(e.tx.0) {
                Ok(())
            } else if !(l.deposits[e.tx.0].event.event_type is Deposit) {
                Err(
                    EventError::IllegalDispute(
                        e.client,
                        e.tx,
                        l.deposits[e.tx.0].event.event_type,
                    ),
                )
            } else if l.deposits[e.tx.0].is_disputed {
                Err(EventError::DoubleDispute(e.client, e.tx))
            } else if !l.clients.dom().contains(l.deposits[e.tx.0].event.client.0) {
                Err(EventError::UnknownClient(e.client))
            } else {
                Ok(())
            }
        },
        EventType::Resolve | EventType::Chargeback => {
            if !l.deposits.dom().contains(e.tx.0) {
                Ok(())
            } else if !l.deposits[e.tx.0].is_disputed {
                Ok(())
            } else if !l.clients.dom().contains(l.deposits[e.tx.0].event.client.0) {
                Err(EventError::UnknownClient(e.client))
            } else {
                Ok(())
            }
        },
    }
}

/// Whether applying `e` to ledger `l` changes the ledger at all: the event
/// passes every check of its row of the transition table.
pub open spec fn step_effective(l: Ledger, e: Event) -> bool {
    match e.event_type {
        EventType::Deposit => !l.deposits.dom().contains(e.tx.0),
        EventType::Withdrawal => {
            &&& l.clients.dom().contains(e.client.0)
            &&& l.clients[e.client.0].available.0 >= e.amount.0
            &&& !l.clients[e.client.0].locked
        },
        EventType::Dispute => {
            &&& l.deposits.dom().contains(e.tx.0)
            &&& l.deposits[e.tx.0].event.event_type is Deposit
            &&& !l.deposits[e.tx.0].is_disputed
            &&& l.clients.dom().contains(l.deposits[e.tx.0].event.client.0)
            &&& lookup_client(l, l.deposits[e.tx.0].event.client.0).available.0
                >= l.deposits[e.tx.0].event.amount.0
        },
        EventType::Resolve | EventType::Chargeback => {
            &&& l.deposits.dom().contains(e.tx.0)
            &&& l.deposits[e.tx.0].is_disputed
            &&& l.clients.dom().contains(l.deposits[e.tx.0].event.client.0)
            &&& lookup_client(l, l.deposits[e.tx.0].event.client.0).held.0
                >= l.deposits[e.tx.0].event.amount.0
        },
    }
}

/// The ledger after applying `e` to `l`: every branch validates in full
/// before it mutates, so on any failed or absorbed event the ledger is
/// returned unchanged.
pub open spec fn step_state(l: Ledger, e: Event) -> Ledger {
    if !step_effective(l, e) {
        l
    } else {
        match e.event_type {
            EventType::Deposit => {
                let cs = lookup_client(l, e.client.0);
                Ledger {
                    clients: l.clients.insert(
                        e.client.0,
                        ClientState {
                            available: Amount((cs.available.0 + e.amount.0) as u64),
                            held: cs.held,
                            locked: cs.locked,
                        },
                    ),
                    deposits: l.deposits.insert(
                        e.tx.0,
                        DepositRecord { event: e, is_disputed: false },
                    ),
                }
            },
            EventType::Withdrawal => {
                let cs = l.clients[e.client.0];
                Ledger {
                    clients: l.clients.insert(
                        e.client.0,
                        ClientState {
                            available: Amount((cs.available.0 - e.amount.0) as u64),
                            held: cs.held,
                            locked: cs.locked,
                        },
                    ),
                    deposits: l.deposits,
                }
            },
            EventType::Dispute => {
                let rec = l.deposits[e.tx.0];
                let owner = rec.event.client.0;
                let cs = l.clients[owner];
                Ledger {
                    clients: l.clients.insert(
                        owner,
                        ClientState {
                            available: Amount((cs.available.0 - rec.event.amount.0) as u64),
                            held: Amount((cs.held.0 + rec.event.amount.0) as u64),
                            locked: cs.locked,
                        },
                    ),
                    deposits: l.deposits.insert(
                        e.tx.0,
                        DepositRecord { event: rec.event, is_disputed: true },
                    ),
                }
            },
            EventType::Resolve => {
                let rec = l.deposits[e.tx.0];
                let owner = rec.event.client.0;
                let cs = l.clients[owner];
                Ledger {
                    clients: l.clients.insert(
                        owner,
                        ClientState {
                            available: Amount((cs.available.0 + rec.event.amount.0) as u64),
                            held: Amount((cs.held.0 - rec.event.amount.0) as u64),
                            locked: cs.locked,
                        },
                    ),
                    deposits: l.deposits.insert(
                        e.tx.0,
                        DepositRecord { event: rec.event, is_disputed: false },
                    ),
                }
            },
            EventType::Chargeback => {
                let rec = l.deposits[e.tx.0];
                let owner = rec.event.client.0;
                let cs = l.clients[owner];
                Ledger {
                    clients: l.clients.insert(
                        owner,
                        ClientState {
                            available: cs.available,
                            held: Amount((cs.held.0 - rec.event.amount.0) as u64),
                            locked: true,
                        },
                    ),
                    deposits: l.deposits.insert(
                        e.tx.0,
                        DepositRecord { event: rec.event, is_disputed: false },
                    ),
                }
            },
        }
    }
}

/// Depositing into a fresh client account yields an available balance of
/// exactly the deposited amount, nothing held, an unlocked account, and a
/// single undisputed deposit record for the transaction.
pub proof fn lemma_deposit_fresh_client<E>(l: Ledger, e: Event)
    requires
        e.event_type is Deposit,
        !l.clients.dom().contains(e.client.0),
        !l.deposits.dom().contains(e.tx.0),
    ensures
        !deposit_overflows(l, e),
        step_result::<E>(l, e) == Ok::<(), EventError<E>>(()),
        step_state(l, e).clients.dom().contains(e.client.0),
        step_state(l, e).clients[e.client.0] == (ClientState {
            available: e.amount,
            held: Amount(0),
            locked: false,
        }),
        step_state(l, e).deposits.dom() == l.deposits.dom().insert(e.tx.0),
        step_state(l, e).deposits[e.tx.0] == (DepositRecord { event: e, is_disputed: false }),
{
    assert(lookup_client(l, e.client.0) == fresh_client());
    assert(step_effective(l, e));
}

/// Withdrawing at most the available balance from an unlocked account
/// subtracts exactly the amount; overdrawing or withdrawing from a locked
/// account changes nothing and reports the matching error.  An overdraw is
/// reported as such even on a locked account: sufficiency is checked before
/// the lock.
pub proof fn lemma_withdrawal<E>(l: Ledger, e: Event)
    requires
        e.event_type is Withdrawal,
        l.clients.dom().contains(e.client.0),
    ensures
        ({
            let cs = l.clients[e.client.0];
            &&& (!cs.locked && e.amount.0 <= cs.available.0) ==> step_result::<E>(l, e) == Ok::<
                (),
                EventError<E>,
            >(()) && step_state(l, e).clients[e.client.0] == (ClientState {
                available: Amount((cs.available.0 - e.amount.0) as u64),
                held: cs.held,
                locked: cs.locked,
            }) && step_state(l, e).deposits == l.deposits
            &&& e.amount.0 > cs.available.0 ==> step_result::<E>(l, e) == Err::<
                (),
                EventError<E>,
            >(EventError::InsufficientFunds(e.client, e.tx)) && step_state(l, e) == l
            &&& (cs.locked && e.amount.0 <= cs.available.0) ==> step_result::<E>(l, e) == Err::<
                (),
                EventError<E>,
            >(EventError::AccountLocked(e.client, e.tx)) && step_state(l, e) == l
        }),
{
}

/// Disputing a deposit and then resolving it restores the ledger exactly:
/// the owner's available and held balances, the record's flag, and
/// everything else return to their pre-dispute values.
pub proof fn lemma_dispute_resolve_inverse<E>(l: Ledger, dispute: Event, resolve: Event)
    requires
        dispute.event_type is Dispute,
        resolve.event_type is Resolve,
        dispute.tx == resolve.tx,
        l.deposits.dom().contains(dispute.tx.0),
        l.deposits[dispute.tx.0].event.event_type is Deposit,
        !l.deposits[dispute.tx.0].is_disputed,
        l.clients.dom().contains(l.deposits[dispute.tx.0].event.client.0),
        l.deposits[dispute.tx.0].event.amount.0 <= l.clients[l.deposits[dispute.tx.0].event.client.0].available.0,
        l.clients[l.deposits[dispute.tx.0].event.client.0].available.0
            + l.clients[l.deposits[dispute.tx.0].event.client.0].held.0 <= u64::MAX,
    ensures
        step_result::<E>(l, dispute) == Ok::<(), EventError<E>>(()),
        step_state(l, dispute).deposits[dispute.tx.0].is_disputed,
        step_result::<E>(step_state(l, dispute), resolve) == Ok::<(), EventError<E>>(()),
        step_state(step_state(l, dispute), resolve) == l,
{
    let rec = l.deposits[dispute.tx.0];
    let owner = rec.event.client.0;
    let cs = l.clients[owner];
    let d = rec.event.amount.0;
    assert(step_effective(l, dispute));
    let l1 = step_state(l, dispute);
    assert(l1.clients[owner].held.0 == cs.held.0 + d);
    assert(step_effective(l1, resolve));
    let l2 = step_state(l1, resolve);
    assert(l2.clients[owner] == cs);
    assert(l2.deposits[dispute.tx.0] == rec);
    assert(l2.clients =~= l.clients);
    assert(l2.deposits =~= l.deposits);
    assert(l2 == l);
}

/// Disputing a deposit and then charging it back burns the held funds and
/// locks the account: against the pre-dispute ledger, available is down by
/// the disputed amount, held is back to its old value, the account is
/// locked, and the record is no longer under dispute.
pub proof fn lemma_dispute_chargeback<E>(l: Ledger, dispute: Event, chargeback: Event)
    requires
        dispute.event_type is Dispute,
        chargeback.event_type is Chargeback,
        dispute.tx == chargeback.tx,
        l.deposits.dom().contains(dispute.tx.0),
        l.deposits[dispute.tx.0].event.event_type is Deposit,
        !l.deposits[dispute.tx.0].is_disputed,
        l.clients.dom().contains(l.deposits[dispute.tx.0].event.client.0),
        l.deposits[dispute.tx.0].event.amount.0 <= l.clients[l.deposits[dispute.tx.0].event.client.0].available.0,
        l.clients[l.deposits[dispute.tx.0].event.client.0].available.0
            + l.clients[l.deposits[dispute.tx.0].event.client.0].held.0 <= u64::MAX,
    ensures
        step_result::<E>(l, dispute) == Ok::<(), EventError<E>>(()),
        step_result::<E>(step_state(l, dispute), chargeback) == Ok::<(), EventError<E>>(()),
        ({
            let owner = l.deposits[dispute.tx.0].event.client.0;
            let cs = l.clients[owner];
            let l2 = step_state(step_state(l, dispute), chargeback);
            &&& l2.clients[owner].available.0 == cs.available.0
                - l.deposits[dispute.tx.0].event.amount.0
            &&& l2.clients[owner].held == cs.held
            &&& l2.clients[owner].locked
            &&& !l2.deposits[dispute.tx.0].is_disputed
        }),
{
    let rec = l.deposits[dispute.tx.0];
    let owner = rec.event.client.0;
    let d = rec.event.amount.0;
    assert(step_effective(l, dispute));
    let l1 = step_state(l, dispute);
    assert(l1.clients[owner].held.0 == l.clients[owner].held.0 + d);
    assert(step_effective(l1, chargeback));
}

/// Depositing the same transaction id twice is rejected on the second call
/// with `DuplicateTransactionId`, leaving the ledger exactly as after the
/// first deposit.
pub proof fn lemma_duplicate_deposit_rejected<E>(l: Ledger, first: Event, second: Event)
    requires
        first.event_type is Deposit,
        second.event_type is Deposit,
        first.tx == second.tx,
        !l.deposits.dom().contains(first.tx.0),
        !deposit_overflows(l, first),
    ensures
        step_result::<E>(l, first) == Ok::<(), EventError<E>>(()),
        step_result::<E>(step_state(l, first), second) == Err::<(), EventError<E>>(
            EventError::DuplicateTransactionId(second.client, second.tx),
        ),
        step_state(step_state(l, first), second) == step_state(l, first),
{
    assert(step_effective(l, first));
    assert(step_state(l, first).deposits.dom().contains(second.tx.0));
}

/// The interface every ledger backing satisfies: apply one event, return
/// success or a typed failure, atomically with respect to the exposed
/// state.
///
/// The rules of the ledger live in [`step_result`] and [`step_state`]; a
/// backing may refuse further events for reasons of its own (reported as
/// `BackendError`, leaving the ledger unchanged), but everything it accepts
/// must follow those rules exactly.
pub trait StateManager: Sized {
    /// The backend-specific error carried inside `EventError::BackendError`.
    type Err;

    /// The backing's internal consistency invariant.
    spec fn wf(&self) -> bool;

    /// The mathematical ledger this backing currently represents.
    spec fn model(&self) -> Ledger;

    /// The events this backing refuses for reasons of its own, as a
    /// function of the ledger it represents.
    spec fn backend_refuses(model: Ledger, event: Event) -> bool;

    /// Apply one event to the ledger.
    fn handle_event(&mut self, event: Event) -> (r: Result<(), EventError<Self::Err>>)
        requires
            old(self).wf(),
        ensures
            final(self).wf(),
            Self::backend_refuses(old(self).model(), event) ==> final(self).model() == old(
                self,
            ).model() && (r matches Err(e) && e is BackendError),
            !Self::backend_refuses(old(self).model(), event) ==> r == step_result::<Self::Err>(
                old(self).model(),
                event,
            ) && final(self).model() == step_state(old(self).model(), event),
    ;
}

} // verus!
