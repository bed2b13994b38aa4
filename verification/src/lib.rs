//! An event-driven ledger for per-client balances.
//!
//! Events (deposits, withdrawals, disputes, resolutions, chargebacks) arrive
//! as one ordered stream and are applied to a ledger backing; a final
//! snapshot of every client balance can then be emitted.  Monetary values
//! are fixed-point with four fractional digits.
//!
//! The rules of the ledger are stated as one mathematical transition system
//! in [`state`], and every backing is verified against it through the
//! [`state::StateManager`] interface.

use vstd::prelude::*;

pub mod primitives;
pub mod state;

verus! {

use crate::primitives::ClientId;
use crate::primitives::Event;
use crate::primitives::EventType;
use crate::primitives::TransactionId;
use crate::state::Ledger;
use crate::state::StateManager;
use crate::state::step_state;

/// The hard failures of event application.
///
/// Benign mismatches (a dispute, resolve or chargeback naming an unknown or
/// undisputed transaction) are absorbed by the ledger and never reach this
/// type.
#[derive(Debug)]
pub enum EventError<E> {
    /// A deposit reused an already-seen transaction id.
    DuplicateTransactionId(ClientId, TransactionId),
    /// A withdrawal asked for more than the client's available balance.
    InsufficientFunds(ClientId, TransactionId),
    /// A withdrawal was attempted against a locked account.
    AccountLocked(ClientId, TransactionId),
    /// A dispute referenced a transaction that exists but is not a deposit.
    IllegalDispute(ClientId, TransactionId, EventType),
    /// A dispute referenced a transaction already under dispute.
    DoubleDispute(ClientId, TransactionId),
    /// An operation referenced a client with no prior record where one was
    /// required.
    UnknownClient(ClientId),
    /// A failure of the storage backing itself, opaque to the core.
    BackendError(E),
}

/// Declares std::sync::mpsc::SyncSender, the sending half of std's bounded
/// channel, so that it can appear in signatures.  The type stays opaque to
/// the verifier; the one operation used on it is wrapped below.
#[verifier::external_type_specification]
#[verifier::external_body]
#[verifier::reject_recursive_types(T)]
pub struct ExSyncSender<T>(std::sync::mpsc::SyncSender<T>);

/// Relies on std::sync::mpsc::SyncSender::send: it blocks until the bounded
/// channel has room and returns an error exactly when the receiving end has
/// been dropped.  Nothing is promised of the result: whether the consumer is
/// still there is outside this library.
#[verifier::external_body]
fn send_to_sink<T>(sink: &std::sync::mpsc::SyncSender<T>, value: T) -> (delivered: bool) {
    sink.send(value).is_ok()
}

/// One possible ledger history over an event stream: `trace[k]` is the
/// ledger before event `k`, and each event either took its full effect per
/// [`step_state`] or — only where the backing refuses it — was refused
/// atomically, leaving the ledger unchanged.
pub open spec fn driver_trace_ok<State: StateManager>(
    trace: Seq<Ledger>,
    events: Seq<Event>,
) -> bool {
    &&& trace.len() == events.len() + 1
    &&& forall|k: int|
        0 <= k < events.len() ==> #[trigger] trace[k + 1] == step_state(trace[k], events[k]) || (
        State::backend_refuses(trace[k], events[k]) && trace[k + 1] == trace[k])
}

/// Process a stream of events, updating ledger state appropriately.
///
/// Events are applied strictly in input order, one at a time.  A hard
/// failure does not stop the stream: if an error sink is configured the
/// failure is handed to it, and only when that hand-off fails — the consumer
/// has dropped the receiving end of the bounded channel — does processing
/// stop before the remaining events.  Without a sink, failures are observed
/// and discarded.
pub fn process_events<State, E>(
    state: &mut State,
    events: Vec<Event>,
    errors: Option<std::sync::mpsc::SyncSender<EventError<E>>>,
) where State: StateManager<Err = E>
    requires
        old(state).wf(),
    ensures
        final(state).wf(),
        exists|k: int, trace: Seq<Ledger>|
            0 <= k <= events@.len() && #[trigger] driver_trace_ok::<State>(
                trace,
                events@.take(k),
            ) && trace.first() == old(state).model() && trace.last() == final(state).model() && (
            errors is None ==> k == events@.len()),
{
    let ghost pre = state.model();
    let ghost mut trace: Seq<Ledger> = seq![pre];
    let mut i: usize = 0;
    loop
        invariant_except_break
            old(state).wf(),
        invariant
            0 <= i <= events@.len(),
            state.wf(),
            pre == old(state).model(),
            trace.len() == i + 1,
            trace.first() == pre,
            trace.last() == state.model(),
            driver_trace_ok::<State>(trace, events@.take(i as int)),
        ensures
            i == events@.len() || !(errors is None),
        decreases events@.len() - i,
    {
        if i == events.len() {
            break ;
        }
        let event = events[i];
        let ghost before = state.model();
        let r = state.handle_event(event);
        proof {
            trace = trace.push(state.model());
            assert forall|k: int| 0 <= k < i + 1 implies #[trigger] trace[k + 1] == step_state(
                trace[k],
                events@.take(i + 1)[k],
            ) || (State::backend_refuses(trace[k], events@.take(i + 1)[k]) && trace[k + 1]
                == trace[k]) by {
                if k < i {
                    assert(trace[k + 1] == step_state(trace[k], events@.take(i as int)[k]) || (
                    State::backend_refuses(trace[k], events@.take(i as int)[k]) && trace[k + 1]
                        == trace[k]));
                }
            }
        }
        i += 1;
        if let Err(err) = r {
            if let Some(sink) = &errors {
                if !send_to_sink(sink, err) {
                    // The consumer has gone away: deliberate early
                    // termination, so the remaining events stay unapplied.
                    break ;
                }
            }
        }
    }
    proof {
        if i == events@.len() {
            assert(events@.take(i as int) =~= events@);
        }
        assert(0 <= i as int <= events@.len() && driver_trace_ok::<State>(
            trace,
            events@.take(i as int),
        ) && trace.first() == pre && trace.last() == state.model());
    }
}

} // verus!
