//! The books of every asset, created on an asset's first order.
use vstd::prelude::*;

use rustc_hash::FxHashMap;

use crate::command::Command;
use crate::error::OrderError;
use crate::fx_map::{fx_contains_key, fx_get, fx_insert, fx_remove};
use crate::market_data::{cancel_events, modify_events, submit_events, MarketDataEvent};
use crate::matching::BookView;
use crate::order::Order;
use crate::order_book::OrderBook;
use crate::price::Price;
use crate::trade::Trade;

verus! {

/// The books of every asset, keyed by asset id.
pub struct Exchange {
    books: FxHashMap<u64, OrderBook>,
    capacity: usize,
}

impl Exchange {
    /// Every book is consistent.
    pub closed spec fn wf(&self) -> bool {
        forall|a: u64| #[trigger] self.books@.contains_key(a) ==> self.books@[a].wf()
    }

    /// The resting orders of each asset's book.
    pub closed spec fn view(&self) -> Map<u64, BookView> {
        self.books@.map_values(|b: OrderBook| b.view())
    }

    /// What the book of `asset_id` has published and nobody has drained yet.
    pub closed spec fn pending(&self, asset_id: u64) -> Seq<MarketDataEvent> {
        if self.books@.contains_key(asset_id) {
            self.books@[asset_id].market_data@
        } else {
            Seq::empty()
        }
    }

    /// The pool capacity a new book starts with.
    pub closed spec fn book_capacity(&self) -> usize {
        self.capacity
    }

    /// The book of `asset_id`, or an empty one where there is none yet.
    pub open spec fn book_or_empty(&self, asset_id: u64) -> BookView {
        if self.view().contains_key(asset_id) {
            self.view()[asset_id]
        } else {
            BookView::empty()
        }
    }

    /// An exchange with no book.
    pub fn new(capacity: usize) -> (ex: Self)
        ensures
            ex.wf(),
            ex.view() == Map::<u64, BookView>::empty(),
            ex.book_capacity() == capacity,
            forall|a: u64| #[trigger] ex.pending(a) == Seq::<MarketDataEvent>::empty(),
    {
        let ex = Self { books: FxHashMap::default(), capacity };
        proof {
            assert(ex.view() =~= Map::<u64, BookView>::empty());
        }
        ex
    }

    /// The book of `asset_id`, if it has one.
    pub fn get_book(&self, asset_id: u64) -> (r: Option<&OrderBook>)
        requires
            self.wf(),
        ensures
            match r {
                Some(b) => self.view().contains_key(asset_id) && b.view() == self.view()[asset_id] && b.wf(),
                None => !self.view().contains_key(asset_id),
            },
    {
        fx_get(&self.books, asset_id)
    }

    /// Tests `command_fits`: whether `cmd` can be processed without a level
    /// total leaving the range of `u64`.
    pub fn has_room_for(&self, cmd: &Command) -> (r: bool)
        requires
            self.wf(),
        ensures
            r == crate::engine::command_fits(self, cmd),
    {
        match cmd {
            Command::AddOrder { order, .. } => {
                if order.order_type != crate::order::OrderType::GTC {
                    return true;
                }
                match fx_get(&self.books, order.asset_id) {
                    Some(book) => {
                        proof {
                            book.law_book_consistent();
                        }
                        if order.quantity == 0 || crate::price_level::PriceLevel::get_index_from_price(order.price).is_none()
                            || fx_contains_key(&book.id_to_index, order.id) {
                            true
                        } else {
                            book.has_room_for(order)
                        }
                    },
                    None => {
                        proof {
                            let e = BookView::empty();
                            let o = *order;
                            crate::matching::lemma_cross_up_shrinks(e.asks, 0, o, o.quantity);
                            crate::matching::lemma_cross_down_shrinks(e.bids, crate::price_level::MAX_LEVEL - 1, o, o.quantity);
                            match crate::price_level::level_of_price(o.price) {
                                Some(i) => {
                                    assert(e.levels(o.side)[i as int] == Seq::<Order>::empty());
                                },
                                None => {},
                            }
                        }
                        true
                    },
                }
            },
            Command::CancelOrder { .. } => true,
            Command::ModifyOrder { asset_id, order_id, new_price, new_qty, .. } => match fx_get(&self.books, *asset_id) {
                Some(book) => book.has_room_to_modify(*order_id, *new_price, *new_qty),
                None => true,
            },
        }
    }

    /// Submits `order` to the book of its asset, which is created empty when
    /// the asset has none yet.
    pub fn add_order(&mut self, order: Order) -> (r: Result<Vec<Trade>, OrderError>)
        requires
            old(self).wf(),
            order.order_type == crate::order::OrderType::GTC && old(self).book_or_empty(order.asset_id).accepts(order)
                ==> old(self).book_or_empty(order.asset_id).room_to_rest(order),
        ensures
            final(self).wf(),
            ({
                let (v, res) = old(self).book_or_empty(order.asset_id).submit(order);
                &&& final(self).view() == old(self).view().insert(order.asset_id, v)
                &&& match r {
                    Ok(t) => res == Ok::<Seq<Trade>, OrderError>(t@),
                    Err(e) => res == Err::<Seq<Trade>, OrderError>(e),
                }
            }),
            final(self).book_capacity() == old(self).book_capacity(),
            final(self).pending(order.asset_id) == old(self).pending(order.asset_id) + submit_events(
                old(self).book_or_empty(order.asset_id),
                order,
            ),
            forall|a: u64| a != order.asset_id ==> #[trigger] final(self).pending(a) == old(self).pending(a),
    {
        let ghost v0 = self.view();
        let mut book = match fx_remove(&mut self.books, order.asset_id) {
            Some(b) => b,
            None => OrderBook::new(self.capacity),
        };
        let r = book.add_order(order);
        fx_insert(&mut self.books, order.asset_id, book);
        proof {
            assert(self.view() =~= v0.insert(order.asset_id, book.view()));
        }
        r
    }

    /// Withdraws order `order_id` from the book of `asset_id`.
    pub fn cancel_order(&mut self, asset_id: u64, order_id: u64) -> (r: Result<(), OrderError>)
        requires
            old(self).wf(),
        ensures
            final(self).wf(),
            final(self).book_capacity() == old(self).book_capacity(),
            if old(self).view().contains_key(asset_id) {
                let (v, res) = old(self).view()[asset_id].cancel(order_id);
                final(self).view() == old(self).view().insert(asset_id, v) && r == res
            } else {
                final(self).view() == old(self).view() && r == Err::<(), OrderError>(OrderError::AssetNotFound)
            },
            old(self).view().contains_key(asset_id) ==> final(self).pending(asset_id) == old(self).pending(asset_id)
                + cancel_events(old(self).view()[asset_id], order_id),
            forall|a: u64|
                a != asset_id || !old(self).view().contains_key(asset_id) ==> #[trigger] final(self).pending(a) == old(
                    self,
                ).pending(a),
    {
        let ghost v0 = self.view();
        match fx_remove(&mut self.books, asset_id) {
            Some(b) => {
                let mut book = b;
                let r = book.cancel_order(order_id);
                fx_insert(&mut self.books, asset_id, book);
                proof {
                    assert(self.view() =~= v0.insert(asset_id, book.view()));
                }
                r
            },
            None => Err(OrderError::AssetNotFound),
        }
    }

    /// Gives order `order_id` of the book of `asset_id` a new price and
    /// quantity.
    pub fn modify_order(&mut self, asset_id: u64, order_id: u64, new_price: Price, new_qty: u64) -> (r: Result<
        (),
        OrderError,
    >)
        requires
            old(self).wf(),
            old(self).view().contains_key(asset_id) ==> {
                let v = old(self).view()[asset_id];
                v.holds(order_id) && new_qty > 0 && crate::price_level::level_of_price(new_price) is Some
                    ==> v.without(order_id).room_for(v.amended(order_id, new_price, new_qty))
            },
        ensures
            final(self).wf(),
            final(self).book_capacity() == old(self).book_capacity(),
            if old(self).view().contains_key(asset_id) {
                let (v, res) = old(self).view()[asset_id].modify(order_id, new_price, new_qty);
                final(self).view() == old(self).view().insert(asset_id, v) && r == res
            } else {
                final(self).view() == old(self).view() && r == Err::<(), OrderError>(OrderError::AssetNotFound)
            },
            old(self).view().contains_key(asset_id) ==> final(self).pending(asset_id) == old(self).pending(asset_id)
                + modify_events(old(self).view()[asset_id], order_id, new_price, new_qty),
            forall|a: u64|
                a != asset_id || !old(self).view().contains_key(asset_id) ==> #[trigger] final(self).pending(a) == old(
                    self,
                ).pending(a),
    {
        let ghost v0 = self.view();
        match fx_remove(&mut self.books, asset_id) {
            Some(b) => {
                let mut book = b;
                let r = book.modify_order(order_id, new_price, new_qty);
                fx_insert(&mut self.books, asset_id, book);
                proof {
                    assert(self.view() =~= v0.insert(asset_id, book.view()));
                }
                r
            },
            None => Err(OrderError::AssetNotFound),
        }
    }

    /// Hands out what the book of `asset_id` has published, oldest first,
    /// and forgets it; nothing for an asset without a book.
    pub fn drain_market_data(&mut self, asset_id: u64) -> (events: Vec<MarketDataEvent>)
        requires
            old(self).wf(),
        ensures
            final(self).wf(),
            final(self).view() == old(self).view(),
            final(self).book_capacity() == old(self).book_capacity(),
            events@ == old(self).pending(asset_id),
            final(self).pending(asset_id) == Seq::<MarketDataEvent>::empty(),
            forall|a: u64| a != asset_id ==> #[trigger] final(self).pending(a) == old(self).pending(a),
    {
        let ghost v0 = self.view();
        match fx_remove(&mut self.books, asset_id) {
            Some(b) => {
                let mut book = b;
                let events = book.drain_market_data();
                fx_insert(&mut self.books, asset_id, book);
                proof {
                    assert(self.view() =~= v0);
                }
                events
            },
            None => {
                proof {
                    assert(self.books@ =~= old(self).books@);
                }
                Vec::new()
            },
        }
    }
}

} // verus!
