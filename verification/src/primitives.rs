//! The primitive data types of the ledger: identifiers, monetary amounts,
//! events, and per-client balances.

use vstd::prelude::*;

pub mod amount;

pub use amount::Amount;
pub use amount::ParseAmountError;
pub use amount::AmountFromF64Error;

verus! {

use crate::primitives::amount::all_digits;
use crate::primitives::amount::dec_digits;
use crate::primitives::amount::digits_val;
use crate::primitives::amount::lemma_digits_val_nonneg;
use crate::primitives::amount::parse_decimal_u64;
use crate::primitives::amount::render_decimal_u64;

/// A client identifier.  Identifiers carry no arithmetic; they are only
/// compared, hashed and looked up.
#[derive(Debug, Clone, Copy, PartialEq, Eq, PartialOrd, Ord, Hash, Structural)]
pub struct ClientId(pub u16);

/// A transaction identifier.  Identifiers carry no arithmetic; they are only
/// compared, hashed and looked up.
#[derive(Debug, Clone, Copy, PartialEq, Eq, PartialOrd, Ord, Hash, Structural)]
pub struct TransactionId(pub u32);

impl ClientId {
    /// Parse an identifier from decimal text: a nonempty run of digits
    /// denoting a value in the sixteen-bit range; anything else is `None`.
    pub fn parse(s: &str) -> (r: Option<ClientId>)
        ensures
            (s@.len() > 0 && all_digits(s@) && digits_val(s@) <= u16::MAX) ==> r == Some(
                ClientId(digits_val(s@) as u16),
            ),
            !(s@.len() > 0 && all_digits(s@) && digits_val(s@) <= u16::MAX) ==> r is None,
    {
        proof {
            lemma_digits_val_nonneg(s@);
        }
        match parse_decimal_u64(s) {
            Some(v) if v <= u16::MAX as u64 => Some(ClientId(v as u16)),
            _ => None,
        }
    }

    /// Render the identifier as decimal text.
    pub fn to_text(&self) -> (r: String)
        ensures
            r@ == dec_digits(self.0 as nat),
    {
        render_decimal_u64(self.0 as u64)
    }
}

impl TransactionId {
    /// Parse an identifier from decimal text: a nonempty run of digits
    /// denoting a value in the thirty-two-bit range; anything else is `None`.
    pub fn parse(s: &str) -> (r: Option<TransactionId>)
        ensures
            (s@.len() > 0 && all_digits(s@) && digits_val(s@) <= u32::MAX) ==> r == Some(
                TransactionId(digits_val(s@) as u32),
            ),
            !(s@.len() > 0 && all_digits(s@) && digits_val(s@) <= u32::MAX) ==> r is None,
    {
        proof {
            lemma_digits_val_nonneg(s@);
        }
        match parse_decimal_u64(s) {
            Some(v) if v <= u32::MAX as u64 => Some(TransactionId(v as u32)),
            _ => None,
        }
    }

    /// Render the identifier as decimal text.
    pub fn to_text(&self) -> (r: String)
        ensures
            r@ == dec_digits(self.0 as nat),
    {
        render_decimal_u64(self.0 as u64)
    }
}

/// The nature of an event in the stream.
#[derive(Debug, Clone, Copy, PartialEq, Eq, Structural)]
pub enum EventType {
    Deposit,
    Withdrawal,
    Dispute,
    Resolve,
    Chargeback,
}

/// An event is the fundamental unit of data flowing through the system: an
/// atomic unit of state change.
///
/// For disputes, resolutions and chargebacks the amount is semantically
/// absent; decoders hand over zero there and the ledger ignores the field.
#[derive(Debug, Clone, Copy, PartialEq, Eq, Structural)]
pub struct Event {
    pub event_type: EventType,
    pub client: ClientId,
    pub tx: TransactionId,
    pub amount: Amount,
}

impl Event {
    /// Whether this kind of event carries a meaningful amount; any amount on
    /// the other kinds is junk from the wire and is ignored.
    pub fn has_amount(&self) -> (r: bool)
        ensures
            r == (self.event_type is Deposit || self.event_type is Withdrawal),
    {
        match self.event_type {
            EventType::Deposit | EventType::Withdrawal => true,
            EventType::Dispute | EventType::Resolve | EventType::Chargeback => false,
        }
    }
}

/// The balances of one client.  The total is never stored: it is always
/// derived as available plus held, so it cannot drift out of sync.
#[derive(Debug, Clone, Copy, PartialEq, Eq, Structural)]
pub struct ClientState {
    pub available: Amount,
    pub held: Amount,
    pub locked: bool,
}

/// The state of a client that has never been touched: zero balances,
/// unlocked.
pub open spec fn fresh_client() -> ClientState {
    ClientState { available: Amount(0), held: Amount(0), locked: false }
}

impl Default for ClientState {
    /// A fresh client: zero balances, unlocked.
    fn default() -> (r: ClientState)
        ensures
            r == fresh_client(),
    {
        ClientState { available: Amount(0), held: Amount(0), locked: false }
    }
}

impl ClientState {
    /// The snapshot row for this client, with the total derived on the spot.
    pub fn to_serialize(&self, client: ClientId) -> (r: SerializeClientState)
        requires
            self.available.0 + self.held.0 <= u64::MAX,
        ensures
            r.client == client,
            r.available == self.available,
            r.held == self.held,
            r.total.0 == self.available.0 + self.held.0,
            r.locked == self.locked,
    {
        SerializeClientState {
            client,
            available: self.available,
            held: self.held,
            total: self.available.add(self.held),
            locked: self.locked,
        }
    }
}

/// One row of the final snapshot: a client and its balances, with the total
/// spelled out for the encoder.
#[derive(Debug, Clone, Copy, PartialEq, Eq, Structural)]
pub struct SerializeClientState {
    pub client: ClientId,
    pub available: Amount,
    pub held: Amount,
    pub total: Amount,
    pub locked: bool,
}

} // verus!
