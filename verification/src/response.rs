use vstd::prelude::*;

use crate::error::OrderError;
use crate::trade::Trade;

verus! {

/// The engine's answer to a request.
pub enum Response {
    Ack { engine_seq: u64, client_seq: u64 },
    Fills { engine_seq: u64, trades: Vec<Trade> },
    Reject { engine_seq: u64, client_seq: u64, reason: OrderError },
}

} // verus!
