//! Processing a command under the engine's sequence numbers.
use vstd::prelude::*;

use crate::command::Command;
use crate::error::OrderError;
use crate::exchange::Exchange;
use crate::market_data::{cancel_events, modify_events, submit_events, MarketDataEvent};
use crate::matching::BookView;
use crate::order::OrderType;
use crate::price_level::level_of_price;
use crate::response::Response;
use crate::trade::Trade;

verus! {

/// No resting total that `cmd` adds to leaves the range of `u64`.
pub open spec fn command_fits(ex: &Exchange, cmd: &Command) -> bool {
    match *cmd {
        Command::AddOrder { order, .. } => order.order_type == OrderType::GTC && ex.book_or_empty(order.asset_id).accepts(
            order,
        ) ==> ex.book_or_empty(order.asset_id).room_to_rest(order),
        Command::CancelOrder { .. } => true,
        Command::ModifyOrder { asset_id, order_id, new_price, new_qty, .. } => ex.view().contains_key(asset_id)
            ==> {
            let v = ex.view()[asset_id];
            v.holds(order_id) && new_qty > 0 && level_of_price(new_price) is Some ==> v.without(
                order_id,
            ).room_for(v.amended(order_id, new_price, new_qty))
        },
    }
}

/// The exchange after `cmd`, and the outcome: the fills of an added order,
/// or the reason for a refusal.
pub open spec fn command_effect(books: Map<u64, BookView>, cmd: Command) -> (Map<u64, BookView>, Result<Seq<Trade>, OrderError>) {
    match cmd {
        Command::AddOrder { order, .. } => {
            let b = if books.contains_key(order.asset_id) {
                books[order.asset_id]
            } else {
                BookView::empty()
            };
            let (v, res) = b.submit(order);
            (books.insert(order.asset_id, v), res)
        },
        Command::CancelOrder { asset_id, order_id, .. } => {
            if books.contains_key(asset_id) {
                let (v, res) = books[asset_id].cancel(order_id);
                (books.insert(asset_id, v), match res {
                    Ok(()) => Ok(Seq::empty()),
                    Err(e) => Err(e),
                })
            } else {
                (books, Err(OrderError::AssetNotFound))
            }
        },
        Command::ModifyOrder { asset_id, order_id, new_price, new_qty, .. } => {
            if books.contains_key(asset_id) {
                let (v, res) = books[asset_id].modify(order_id, new_price, new_qty);
                (books.insert(asset_id, v), match res {
                    Ok(()) => Ok(Seq::empty()),
                    Err(e) => Err(e),
                })
            } else {
                (books, Err(OrderError::AssetNotFound))
            }
        },
    }
}

/// The asset a command is about.
pub open spec fn asset_of(cmd: Command) -> u64 {
    match cmd {
        Command::AddOrder { order, .. } => order.asset_id,
        Command::CancelOrder { asset_id, .. } => asset_id,
        Command::ModifyOrder { asset_id, .. } => asset_id,
    }
}

/// What the book of the command's asset publishes for `cmd`.
pub open spec fn command_events(books: Map<u64, BookView>, cmd: Command) -> Seq<MarketDataEvent> {
    match cmd {
        Command::AddOrder { order, .. } => submit_events(
            if books.contains_key(order.asset_id) {
                books[order.asset_id]
            } else {
                BookView::empty()
            },
            order,
        ),
        Command::CancelOrder { asset_id, order_id, .. } => if books.contains_key(asset_id) {
            cancel_events(books[asset_id], order_id)
        } else {
            Seq::empty()
        },
        Command::ModifyOrder { asset_id, order_id, new_price, new_qty, .. } => if books.contains_key(asset_id) {
            modify_events(books[asset_id], order_id, new_price, new_qty)
        } else {
            Seq::empty()
        },
    }
}

/// The client's sequence number carried by a command.
pub open spec fn client_seq_of(cmd: Command) -> u64 {
    match cmd {
        Command::AddOrder { client_seq, .. } => client_seq,
        Command::CancelOrder { client_seq, .. } => client_seq,
        Command::ModifyOrder { client_seq, .. } => client_seq,
    }
}

/// The response owed for `cmd` with outcome `res`, stamped `engine_seq`.
pub open spec fn response_matches(r: Response, cmd: Command, res: Result<Seq<Trade>, OrderError>, engine_seq: u64) -> bool {
    match res {
        Err(e) => r == Response::Reject { engine_seq, client_seq: client_seq_of(cmd), reason: e },
        Ok(t) => match cmd {
            Command::AddOrder { .. } => match r {
                Response::Fills { engine_seq: s, trades } => s == engine_seq && trades@ == t,
                _ => false,
            },
            _ => r == Response::Ack { engine_seq, client_seq: client_seq_of(cmd) },
        },
    }
}

/// Applies `cmd` to the exchange under the next engine sequence number.
pub fn process(exchange: &mut Exchange, seq: &mut u64, cmd: Command) -> (r: Response)
    requires
        old(exchange).wf(),
        *old(seq) < u64::MAX,
        command_fits(old(exchange), &cmd),
    ensures
        final(exchange).wf(),
        *final(seq) == *old(seq) + 1,
        ({
            let (books, res) = command_effect(old(exchange).view(), cmd);
            &&& final(exchange).view() == books
            &&& response_matches(r, cmd, res, *final(seq))
        }),
        final(exchange).pending(asset_of(cmd)) == old(exchange).pending(asset_of(cmd)) + command_events(
            old(exchange).view(),
            cmd,
        ),
        forall|a: u64| a != asset_of(cmd) ==> #[trigger] final(exchange).pending(a) == old(exchange).pending(a),
{
    *seq += 1;
    match cmd {
        Command::AddOrder { client_seq, order } => match exchange.add_order(order) {
            Ok(trades) => Response::Fills { engine_seq: *seq, trades },
            Err(e) => Response::Reject { engine_seq: *seq, client_seq, reason: e },
        },
        Command::CancelOrder { client_seq, asset_id, order_id } => match exchange.cancel_order(asset_id, order_id) {
            Ok(()) => Response::Ack { engine_seq: *seq, client_seq },
            Err(e) => Response::Reject { engine_seq: *seq, client_seq, reason: e },
        },
        Command::ModifyOrder { client_seq, asset_id, order_id, new_price, new_qty } => match exchange.modify_order(
            asset_id,
            order_id,
            new_price,
            new_qty,
        ) {
            Ok(()) => Response::Ack { engine_seq: *seq, client_seq },
            Err(e) => Response::Reject { engine_seq: *seq, client_seq, reason: e },
        },
    }
}

} // verus!
