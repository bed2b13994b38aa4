//! The in-memory ledger backing: everything resident in two hash maps.

use vstd::prelude::*;

verus! {

broadcast use vstd::std_specs::hash::group_hash_axioms;

use std::collections::HashMap;

use crate::EventError;
use crate::primitives::Amount;
use crate::primitives::ClientId;
use crate::primitives::ClientState;
use crate::primitives::Event;
use crate::primitives::EventType;
use crate::primitives::SerializeClientState;
use crate::primitives::TransactionId;
use crate::state::DepositRecord;
use crate::state::Ledger;
use crate::state::StateManager;
use crate::state::deposit_overflows;
use crate::state::step_state;

/// The failures specific to the in-memory backing.
#[derive(Debug, Clone, Copy, PartialEq, Eq, Structural)]
pub enum MemoryError {
    /// A deposit was otherwise acceptable, but the owner's total balance
    /// would no longer fit the `u64`-scaled representation.
    BalanceOverflow,
}

/// A ledger backing that keeps everything resident in local memory.
///
/// It is simple and fast, but unsuitable for production; production stores
/// would want persistence and a bounded working set.
pub struct MemoryState {
    clients: HashMap<u16, ClientState>,
    /// Client ids in order of first appearance, for the final snapshot.
    order: Vec<u16>,
    deposits: HashMap<u32, DepositRecord>,
}

impl MemoryState {
    /// The clients of the ledger, in order of first appearance.
    pub closed spec fn client_ids_in_order(&self) -> Seq<u16> {
        self.order@
    }

    /// An empty ledger: no clients, no deposit records.
    pub fn new() -> (r: MemoryState)
        ensures
            r.wf(),
            r.model() == Ledger::empty(),
            r.client_ids_in_order() == Seq::<u16>::empty(),
    {
        let r = MemoryState { clients: HashMap::new(), order: Vec::new(), deposits: HashMap::new() };
        proof {
            assert(r.order@.to_set() =~= r.clients@.dom());
        }
        r
    }

    /// The balances of one client, or `None` for a client that has never
    /// appeared.
    pub fn client(&self, id: ClientId) -> (r: Option<ClientState>)
        ensures
            r == if self.model().clients.dom().contains(id.0) {
                Some(self.model().clients[id.0])
            } else {
                None::<ClientState>
            },
    {
        match self.clients.get(&id.0) {
            Some(cs) => Some(*cs),
            None => None,
        }
    }

    /// The deposit record for one transaction, or `None` for a transaction
    /// that never deposited.
    pub fn deposit_record(&self, id: TransactionId) -> (r: Option<DepositRecord>)
        ensures
            r == if self.model().deposits.dom().contains(id.0) {
                Some(self.model().deposits[id.0])
            } else {
                None::<DepositRecord>
            },
    {
        match self.deposits.get(&id.0) {
            Some(rec) => Some(*rec),
            None => None,
        }
    }

    /// The final snapshot: one row per client that has ever appeared, in
    /// order of first appearance, with the total derived on the spot.
    pub fn emit_state(&self) -> (r: Vec<SerializeClientState>)
        requires
            self.wf(),
        ensures
            r@.len() == self.client_ids_in_order().len(),
            forall|i: int|
                0 <= i < r@.len() ==> {
                    let c = self.client_ids_in_order()[i];
                    &&& (#[trigger] r@[i]).client.0 == c
                    &&& self.model().clients.dom().contains(c)
                    &&& r@[i].available == self.model().clients[c].available
                    &&& r@[i].held == self.model().clients[c].held
                    &&& r@[i].total.0 == self.model().clients[c].available.0
                        + self.model().clients[c].held.0
                    &&& r@[i].locked == self.model().clients[c].locked
                },
            self.client_ids_in_order().no_duplicates(),
            self.client_ids_in_order().to_set() == self.model().clients.dom(),
    {
        let mut out: Vec<SerializeClientState> = Vec::new();
        let mut i: usize = 0;
        while i < self.order.len()
            invariant
                self.wf(),
                0 <= i <= self.order@.len(),
                out@.len() == i,
                forall|k: int|
                    0 <= k < i ==> {
                        let c = self.client_ids_in_order()[k];
                        &&& (#[trigger] out@[k]).client.0 == c
                        &&& self.model().clients.dom().contains(c)
                        &&& out@[k].available == self.model().clients[c].available
                        &&& out@[k].held == self.model().clients[c].held
                        &&& out@[k].total.0 == self.model().clients[c].available.0
                            + self.model().clients[c].held.0
                        &&& out@[k].locked == self.model().clients[c].locked
                    },
            decreases self.order@.len() - i,
        {
            let id = self.order[i];
            proof {
                assert(self.order@.to_set().contains(id));
            }
            let cs = match self.clients.get(&id) {
                Some(cs) => *cs,
                None => {
                    proof {
                        assert(false);
                    }
                    ClientState::default()
                },
            };
            out.push(cs.to_serialize(ClientId(id)));
            i += 1;
        }
        out
    }
}

impl Default for MemoryState {
    /// An empty ledger, exactly as [`MemoryState::new`] builds it.
    fn default() -> (r: MemoryState)
        ensures
            r.wf(),
            r.model() == Ledger::empty(),
            r.client_ids_in_order() == Seq::<u16>::empty(),
    {
        MemoryState::new()
    }
}

impl StateManager for MemoryState {
    type Err = MemoryError;

    /// Every stored client can derive its total without overflow, and the
    /// first-appearance list holds exactly the stored clients, once each.
    closed spec fn wf(&self) -> bool {
        &&& forall|c: u16|
            self.clients@.dom().contains(c) ==> (#[trigger] self.clients@[c]).available.0
                + self.clients@[c].held.0 <= u64::MAX
        &&& self.order@.no_duplicates()
        &&& self.order@.to_set() == self.clients@.dom()
    }

    closed spec fn model(&self) -> Ledger {
        Ledger { clients: self.clients@, deposits: self.deposits@ }
    }

    /// The in-memory backing refuses exactly the deposits whose owner's
    /// total balance would pass the `u64`-scaled range.
    open spec fn backend_refuses(model: Ledger, event: Event) -> bool {
        deposit_overflows(model, event)
    }

    fn handle_event(&mut self, event: Event) -> (r: Result<(), EventError<MemoryError>>) {
        let ghost pre = self.model();
        match event.event_type {
            EventType::Deposit => {
                if self.deposits.contains_key(&event.tx.0) {
                    return Err(EventError::DuplicateTransactionId(event.client, event.tx));
                }
                let (cs, present) = match self.clients.get(&event.client.0) {
                    Some(c) => (*c, true),
                    None => (ClientState::default(), false),
                };
                if event.amount.0 > u64::MAX - cs.available.0 - cs.held.0 {
                    return Err(EventError::BackendError(MemoryError::BalanceOverflow));
                }
                self.clients.insert(
                    event.client.0,
                    ClientState {
                        available: Amount(cs.available.0 + event.amount.0),
                        held: cs.held,
                        locked: cs.locked,
                    },
                );
                if !present {
                    proof {
                        lemma_push_keeps_order(self.order@, pre.clients.dom(), event.client.0);
                    }
                    self.order.push(event.client.0);
                }
                self.deposits.insert(
                    event.tx.0,
                    DepositRecord { event, is_disputed: false },
                );
                proof {
                    if present {
                        assert(self.order@.to_set() =~= self.clients@.dom());
                    }
                    assert(self.model() == step_state(pre, event));
                }
                Ok(())
            },
            EventType::Withdrawal => {
                let cs = match self.clients.get(&event.client.0) {
                    Some(c) => *c,
                    None => {
                        return Err(EventError::UnknownClient(event.client));
                    },
                };
                if cs.available.0 < event.amount.0 {
                    return Err(EventError::InsufficientFunds(event.client, event.tx));
                }
                if cs.locked {
                    return Err(EventError::AccountLocked(event.client, event.tx));
                }
                self.clients.insert(
                    event.client.0,
                    ClientState {
                        available: Amount(cs.available.0 - event.amount.0),
                        held: cs.held,
                        locked: cs.locked,
                    },
                );
                proof {
                    assert(self.order@.to_set() =~= self.clients@.dom());
                    assert(self.model() == step_state(pre, event));
                }
                Ok(())
            },
            EventType::Dispute => {
                let rec = match self.deposits.get(&event.tx.0) {
                    Some(r) => *r,
                    None => {
                        // Unknown transaction: an upstream data error,
                        // absorbed without a report.
                        return Ok(());
                    },
                };
                if !matches!(rec.event.event_type, EventType::Deposit) {
                    return Err(
                        EventError::IllegalDispute(event.client, event.tx, rec.event.event_type),
                    );
                }
                if rec.is_disputed {
                    return Err(EventError::DoubleDispute(event.client, event.tx));
                }
                let owner = rec.event.client.0;
                let cs = match self.clients.get(&owner) {
                    Some(c) => *c,
                    None => {
                        return Err(EventError::UnknownClient(event.client));
                    },
                };
                if cs.available.0 < rec.event.amount.0 {
                    // The disputed funds were already withdrawn: an unsigned
                    // balance cannot go negative, so the dispute is absorbed
                    // like any other upstream mismatch.
                    return Ok(());
                }
                self.clients.insert(
                    owner,
                    ClientState {
                        available: Amount(cs.available.0 - rec.event.amount.0),
                        held: Amount(cs.held.0 + rec.event.amount.0),
                        locked: cs.locked,
                    },
                );
                self.deposits.insert(
                    event.tx.0,
                    DepositRecord { event: rec.event, is_disputed: true },
                );
                proof {
                    assert(self.order@.to_set() =~= self.clients@.dom());
                    assert(self.model() == step_state(pre, event));
                }
                Ok(())
            },
            EventType::Resolve => {
                let rec = match self.deposits.get(&event.tx.0) {
                    Some(r) => *r,
                    None => {
                        return Ok(());
                    },
                };
                if !rec.is_disputed {
                    // Not under dispute: absorbed as an upstream mismatch.
                    return Ok(());
                }
                let owner = rec.event.client.0;
                let cs = match self.clients.get(&owner) {
                    Some(c) => *c,
                    None => {
                        return Err(EventError::UnknownClient(event.client));
                    },
                };
                if cs.held.0 < rec.event.amount.0 {
                    // No reachable ledger holds less than the disputed sum,
                    // but the unsigned representation demands the check.
                    return Ok(());
                }
                self.clients.insert(
                    owner,
                    ClientState {
                        available: Amount(cs.available.0 + rec.event.amount.0),
                        held: Amount(cs.held.0 - rec.event.amount.0),
                        locked: cs.locked,
                    },
                );
                self.deposits.insert(
                    event.tx.0,
                    DepositRecord { event: rec.event, is_disputed: false },
                );
                proof {
                    assert(self.order@.to_set() =~= self.clients@.dom());
                    assert(self.model() == step_state(pre, event));
                }
                Ok(())
            },
            EventType::Chargeback => {
                let rec = match self.deposits.get(&event.tx.0) {
                    Some(r) => *r,
                    None => {
                        return Ok(());
                    },
                };
                if !rec.is_disputed {
                    return Ok(());
                }
                let owner = rec.event.client.0;
                let cs = match self.clients.get(&owner) {
                    Some(c) => *c,
                    None => {
                        return Err(EventError::UnknownClient(event.client));
                    },
                };
                if cs.held.0 < rec.event.amount.0 {
                    return Ok(());
                }
                self.clients.insert(
                    owner,
                    ClientState {
                        available: cs.available,
                        held: Amount(cs.held.0 - rec.event.amount.0),
                        locked: true,
                    },
                );
                self.deposits.insert(
                    event.tx.0,
                    DepositRecord { event: rec.event, is_disputed: false },
                );
                proof {
                    assert(self.order@.to_set() =~= self.clients@.dom());
                    assert(self.model() == step_state(pre, event));
                }
                Ok(())
            },
        }
    }
}

/// Pushing a client id that the ledger does not hold yet keeps the
/// first-appearance list duplicate-free and tracking the key set.
proof fn lemma_push_keeps_order(order: Seq<u16>, dom: Set<u16>, c: u16)
    requires
        order.no_duplicates(),
        order.to_set() == dom,
        !dom.contains(c),
    ensures
        order.push(c).no_duplicates(),
        order.push(c).to_set() == dom.insert(c),
{
    assert(!order.contains(c));
    assert forall|i: int, j: int|
        0 <= i < order.push(c).len() && 0 <= j < order.push(c).len() && i != j implies order.push(
        c,
    )[i] != order.push(c)[j] by {
        if i < order.len() && j < order.len() {
            assert(order[i] == order.push(c)[i]);
            assert(order[j] == order.push(c)[j]);
        } else if i < order.len() {
            assert(order.push(c)[i] == order[i]);
            assert(!order.to_set().contains(c));
        } else if j < order.len() {
            assert(order.push(c)[j] == order[j]);
            assert(!order.to_set().contains(c));
        }
    }
    assert forall|x: u16| order.push(c).to_set().contains(x) implies dom.insert(c).contains(
        x,
    ) by {
        let w = choose|w: int| 0 <= w < order.push(c).len() && order.push(c)[w] == x;
        if w < order.len() {
            assert(order[w] == x);
            assert(order.to_set().contains(x));
        }
    }
    assert forall|x: u16| dom.insert(c).contains(x) implies order.push(c).to_set().contains(
        x,
    ) by {
        if x == c {
            assert(order.push(c)[order.len() as int] == x);
        } else {
            assert(order.to_set().contains(x));
            let w = choose|w: int| 0 <= w < order.len() && order[w] == x;
            assert(order.push(c)[w] == x);
        }
    }
    assert(order.push(c).to_set() =~= dom.insert(c));
}

} // verus!
