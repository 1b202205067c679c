//! The decisions of the event loop that the application drives.
use vstd::prelude::*;

use vstd::slice::slice_subrange;

use crate::codec::{codes_valid, decode_command, decode_spec, encode_response, frame, has_valid_codes, response_bytes, side_code, write_frame};
use crate::command::Command;
use crate::engine::{asset_of, command_effect, command_events, command_fits, process, response_matches};
use crate::exchange::Exchange;
use crate::market_data::MarketDataEvent;
use crate::matching::BookView;
use crate::protocol::{BboUpdateMsg, HEADER_SIZE, MSG_BBO_UPDATE};
use crate::response::Response;

verus! {

/// Operation tags carried in a completion token.
pub const OP_ACCEPT: u8 = 0;

pub const OP_READ: u8 = 1;

pub const OP_WRITE: u8 = 2;

pub const OP_JOURNAL_WRITE: u8 = 3;

/// The token of an operation on descriptor `fd`: the descriptor above the
/// low byte, the operation in it.
pub open spec fn token_of(fd: i32, op: u8) -> u64 {
    ((fd as u64) << 8u64) | (op as u64)
}

/// Packs a descriptor and an operation into a completion token.
pub fn encode_token(fd: i32, op: u8) -> (t: u64)
    ensures
        t == token_of(fd, op),
{
    ((fd as u64) << 8) | (op as u64)
}

/// Unpacks a completion token into its descriptor and operation.
pub fn decode_token(token: u64) -> (r: (i32, u8))
    ensures
        r == ((token >> 8u64) as i32, (token & 0xFFu64) as u8),
{
    ((token >> 8) as i32, (token & 0xFF) as u8)
}

/// Decoding a token gives back the descriptor and the operation that made
/// it, for every descriptor that is not negative.
pub proof fn law_token_round_trip(fd: i32, op: u8)
    requires
        fd >= 0,
    ensures
        ((token_of(fd, op) >> 8u64) as i32, (token_of(fd, op) & 0xFFu64) as u8) == (fd, op),
{
    let x = fd as u64;
    let o = op as u64;
    assert(x < 0x8000_0000u64);
    assert(((x << 8u64) | o) >> 8u64 == x && ((x << 8u64) | o) & 0xFFu64 == o) by (bit_vector)
        requires
            x < 0x8000_0000u64,
            o < 256u64,
    ;
}

/// The payload of a frame: what follows its length field and type byte.
pub open spec fn frame_payload(f: Seq<u8>) -> Seq<u8> {
    f.subrange(HEADER_SIZE as int, f.len() as int)
}

/// A frame that holds a type byte, and whose new-order message, if it is
/// one, names a side and a type.
pub open spec fn frame_well_formed(f: Seq<u8>) -> bool {
    f.len() >= HEADER_SIZE && codes_valid(f[4], frame_payload(f))
}

/// The command a frame carries, a new order stamped `ts`.
pub open spec fn frame_command(f: Seq<u8>, ts: u64) -> Option<Command> {
    decode_spec(f[4], frame_payload(f), ts)
}

/// What became of a frame handed to the engine.
pub enum Applied {
    /// It carries no command: an unknown type, or a payload shorter than its
    /// message.
    Ignored,
    /// The command was processed: the response owed to the client, and what
    /// the book of the command's asset published, drained from it.
    Answered { response: Response, asset_id: u64, events: Vec<MarketDataEvent> },
    /// It is shorter than a header, or a new order names no side or no type.
    Malformed,
    /// The engine sequence number is exhausted, or processing the command
    /// would take a level total past the range of `u64`.
    Overflow,
}

/// What applying the frame `f` to the exchange `ex` under sequence number
/// `seq` may give: outcome `a`, the books `books` and the sequence number
/// `seq2` after. A command is applied only when it fits and the sequence
/// number can grow; then the response is the one owed, and the events are
/// what the asset's book had pending plus what it published for the command.
/// Otherwise nothing changes.
pub open spec fn frame_outcome(ex: &Exchange, seq: u64, books: Map<u64, BookView>, seq2: u64, f: Seq<u8>, a: Applied) -> bool {
    match a {
        Applied::Answered { response, asset_id, events } => exists|ts: u64|
            #[trigger] frame_command(f, ts) matches Some(cmd) && frame_well_formed(f) && seq < u64::MAX && command_fits(ex, &cmd)
                && seq2 == seq + 1 && asset_id == asset_of(cmd) && events@ == ex.pending(asset_id) + command_events(
                ex.view(),
                cmd,
            ) && ({
                let (b, res) = command_effect(ex.view(), cmd);
                books == b && response_matches(response, cmd, res, seq2)
            }),
        Applied::Malformed => !frame_well_formed(f) && books == ex.view() && seq2 == seq,
        Applied::Ignored => frame_well_formed(f) && (forall|ts: u64| #[trigger] frame_command(f, ts) is None) && books
            == ex.view() && seq2 == seq,
        Applied::Overflow => frame_well_formed(f) && (exists|ts: u64|
            #[trigger] frame_command(f, ts) matches Some(cmd) && (seq == u64::MAX || !command_fits(ex, &cmd))) && books
            == ex.view() && seq2 == seq,
    }
}

/// Decodes the frame `frame` (length field, type byte, payload) and, when it
/// carries a command, processes it under the next engine sequence number. A
/// new order is stamped with the wall clock.
pub fn apply_frame(exchange: &mut Exchange, seq: &mut u64, frame: &[u8]) -> (a: Applied)
    requires
        old(exchange).wf(),
    ensures
        final(exchange).wf(),
        frame_outcome(old(exchange), *old(seq), final(exchange).view(), *final(seq), frame@, a),
        forall|x: u64|
            #[trigger] final(exchange).pending(x) == (if a matches Applied::Answered { asset_id, .. } && x == asset_id {
                Seq::<MarketDataEvent>::empty()
            } else {
                old(exchange).pending(x)
            }),
{
    if frame.len() < HEADER_SIZE {
        return Applied::Malformed;
    }
    let msg_type = frame[4];
    let payload = slice_subrange(frame, HEADER_SIZE, frame.len());
    if !has_valid_codes(msg_type, payload) {
        return Applied::Malformed;
    }
    let cmd = match decode_command(msg_type, payload) {
        Some(c) => c,
        None => {
            proof {
                assert forall|ts: u64| #[trigger] frame_command(frame@, ts) is None by {
                    let t0 = choose|t: u64| decode_spec(msg_type, payload@, t) is None;
                    assert(decode_spec(msg_type, payload@, t0) is None);
                }
            }
            return Applied::Ignored;
        },
    };
    let ghost ts = choose|t: u64| Some(cmd) == decode_spec(msg_type, payload@, t);
    if *seq == u64::MAX || !exchange.has_room_for(&cmd) {
        proof {
            assert(frame_command(frame@, ts) == Some(cmd));
        }
        return Applied::Overflow;
    }
    let asset_id = match &cmd {
        Command::AddOrder { order, .. } => order.asset_id,
        Command::CancelOrder { asset_id, .. } => *asset_id,
        Command::ModifyOrder { asset_id, .. } => *asset_id,
    };
    let ghost c = cmd;
    let response = process(exchange, seq, cmd);
    let events = exchange.drain_market_data(asset_id);
    proof {
        assert(frame_command(frame@, ts) == Some(c));
    }
    Applied::Answered { response, asset_id, events }
}

/// Handles one frame from a client: when its command is processed, the
/// response is appended to `out`, the level updates that the asset's book
/// published to `broadcast` (for every client), and the frame itself to
/// `journal`, the log of applied commands.
pub fn handle_frame(
    exchange: &mut Exchange,
    seq: &mut u64,
    frame: &Vec<u8>,
    out: &mut Vec<u8>,
    broadcast: &mut Vec<u8>,
    journal: &mut Vec<u8>,
) -> (a: Applied)
    requires
        old(exchange).wf(),
    ensures
        final(exchange).wf(),
        frame_outcome(old(exchange), *old(seq), final(exchange).view(), *final(seq), frame@, a),
        forall|x: u64|
            #[trigger] final(exchange).pending(x) == (if a matches Applied::Answered { asset_id, .. } && x == asset_id {
                Seq::<MarketDataEvent>::empty()
            } else {
                old(exchange).pending(x)
            }),
        match a {
            Applied::Answered { response, asset_id, events } => final(out)@ == old(out)@ + response_bytes(response)
                && final(broadcast)@ == old(broadcast)@ + broadcast_bytes(*final(seq), asset_id, events@)
                && final(journal)@ == old(journal)@ + frame@,
            _ => final(out)@ == old(out)@ && final(broadcast)@ == old(broadcast)@ && final(journal)@ == old(journal)@,
        },
{
    let a = apply_frame(exchange, seq, frame.as_slice());
    if let Applied::Answered { response, asset_id, events } = &a {
        encode_response(response, out);
        let mut fan_out = encode_broadcast(*seq, *asset_id, events);
        broadcast.append(&mut fan_out);
        let mut copy = vstd::slice::slice_to_vec(frame.as_slice());
        journal.append(&mut copy);
    }
    a
}

/// The level update that `ev` announces, under `engine_seq` for `asset_id`;
/// other events announce none.
pub open spec fn bbo_of(engine_seq: u64, asset_id: u64, ev: MarketDataEvent) -> Option<BboUpdateMsg> {
    match ev {
        MarketDataEvent::LevelUpdated { price, side, total_qty } => Some(
            BboUpdateMsg { engine_seq, asset_id, price: price.0, quantity: total_qty, side: side_code(side) },
        ),
        _ => None,
    }
}

/// One level-update frame per level update among `events`, in order.
pub open spec fn broadcast_bytes(engine_seq: u64, asset_id: u64, events: Seq<MarketDataEvent>) -> Seq<u8>
    decreases events.len(),
{
    if events.len() == 0 {
        Seq::empty()
    } else {
        broadcast_bytes(engine_seq, asset_id, events.drop_last()) + match bbo_of(engine_seq, asset_id, events.last()) {
            Some(m) => frame(MSG_BBO_UPDATE, m.spec_bytes()),
            None => Seq::empty(),
        }
    }
}

/// The bytes sent to every client after a command on `asset_id`: a
/// level-update frame for each level update among `events`, the others left
/// out.
pub fn encode_broadcast(engine_seq: u64, asset_id: u64, events: &Vec<MarketDataEvent>) -> (b: Vec<u8>)
    ensures
        b@ == broadcast_bytes(engine_seq, asset_id, events@),
{
    let mut buf: Vec<u8> = Vec::new();
    let mut i: usize = 0;
    while i < events.len()
        invariant
            0 <= i <= events.len(),
            buf@ == broadcast_bytes(engine_seq, asset_id, events@.subrange(0, i as int)),
        decreases events.len() - i,
    {
        let ev = events[i];
        proof {
            let s = events@.subrange(0, i + 1);
            assert(s.drop_last() =~= events@.subrange(0, i as int));
            assert(s.last() == ev);
        }
        match ev {
            MarketDataEvent::LevelUpdated { price, side, total_qty } => {
                let side_byte: u8 = match side {
                    crate::order::OrderSide::Buy => 0,
                    crate::order::OrderSide::Sell => 1,
                };
                let msg = BboUpdateMsg { engine_seq, asset_id, price: price.0, quantity: total_qty, side: side_byte };
                let p = msg.to_bytes();
                proof {
                    vstd::bytes::lemma_auto_spec_u64_to_from_le_bytes();
                    assert(p@.len() == 33);
                }
                write_frame(&mut buf, MSG_BBO_UPDATE, &p);
            },
            _ => {
                proof {
                    assert(buf@ =~= buf@ + Seq::<u8>::empty());
                }
            },
        }
        i = i + 1;
    }
    proof {
        assert(events@.subrange(0, events@.len() as int) =~= events@);
    }
    buf
}

} // verus!
