use vstd::prelude::*;
use crate::types::{opposite_spec, Event, OrderType, Quote, Side};
use crate::order::{OrderView, RecordView};
use crate::ledger::{
    has_key, index_of_key, insert_pos, lemma_index_of_key, lemma_match_trades, ledger_wf,
    level_sum, match_spec, sorted, top_spec,
};
use crate::book::{
    accepted, apply_cancel, apply_flush, apply_new, apply_record, best_events, book_has_key,
    book_wf, incoming, keys_disjoint, lemma_apply_record_wf, lemma_remove_keeps_ledger,
    with_event, BookView,
};

verus! {

/// The total remaining quantity of the orders of `s`.
pub open spec fn total_quantity(s: Seq<OrderView>) -> int
    decreases s.len(),
{
    if s.len() == 0 {
        0
    } else {
        s[0].quantity + total_quantity(s.drop_first())
    }
}

/// The total quantity of the trades among `s`.
pub open spec fn traded(s: Seq<Event>) -> int
    decreases s.len(),
{
    if s.len() == 0 {
        0
    } else {
        (match s[0] {
            Event::Trade { quantity, .. } => quantity as int,
            _ => 0,
        }) + traded(s.drop_first())
    }
}

/// Whether `e` reports the top of `side`.
pub open spec fn is_best_of(e: Event, side: Side) -> bool {
    e is Best && e->Best_side == side
}

/// The events that the step from `b` to `b1` emitted.
pub open spec fn emitted(b: BookView, b1: BookView) -> Seq<Event> {
    b1.events.subrange(b.events.len() as int, b1.events.len() as int)
}

/// A step only appends events.
pub open spec fn extends(b: BookView, b1: BookView) -> bool {
    b.events.len() <= b1.events.len() && b1.events.subrange(0, b.events.len() as int) == b.events
}

/// An accepted new order is acknowledged by the first event it causes, and every
/// later event it causes is a trade or a top-of-book change: exactly one
/// acknowledgement, ahead of all of its trades.
pub proof fn lemma_ack_before_trades(b: BookView, o: OrderView)
    requires
        book_wf(b),
        accepted(b, o),
    ensures
        ({
            let b1 = apply_new(b, o);
            let e = emitted(b, b1);
            &&& extends(b, b1)
            &&& e.len() >= 1
            &&& e[0] == (Event::Ack { client: o.client, order_id: o.order_id })
            &&& forall|i: int| 1 <= i < e.len() ==> (#[trigger] e[i]) is Trade || e[i] is Best
        }),
{
    let inc = incoming(b, o);
    let b1 = apply_new(b, o);
    let ack = Event::Ack { client: o.client, order_id: o.order_id };
    let opp = match o.side {
        Side::BUY => b.asks,
        Side::SELL => b.bids,
    };
    let m = match_spec(inc, opp);
    lemma_match_trades(inc, opp);
    let best = best_events(b.best_bid, b1.bids, b.best_ask, b1.asks);
    assert(b1.events == b.events + (seq![ack] + m.2) + best);
    let e = emitted(b, b1);
    assert(e =~= seq![ack] + m.2 + best);
    assert(b1.events.subrange(0, b.events.len() as int) =~= b.events);
    assert forall|i: int| 1 <= i < e.len() implies (#[trigger] e[i]) is Trade || e[i] is Best by {
        if i < 1 + m.2.len() {
            assert(e[i] == m.2[i - 1]);
        } else {
            assert(e[i] == best[i - 1 - m.2.len()]);
        }
    }
}

/// Matching takes from the incoming order exactly what it takes from the resting
/// orders, and both equal the traded quantity. Per resting order: the `k`-th
/// trade is with the `k`-th order of the opposite ledger; each of the first `d`
/// orders, which leave the ledger, is traded in full; where one more trade
/// follows, it takes from the order that stays at the front exactly what that
/// order lost. Every trade is of a positive quantity when the resting orders are.
pub proof fn lemma_conservation(inc: OrderView, opp: Seq<OrderView>)
    ensures
        ({
            let m = match_spec(inc, opp);
            let d = opp.len() - m.1.len();
            &&& inc.quantity - m.0 == traded(m.2)
            &&& total_quantity(opp) - total_quantity(m.1) == traded(m.2)
            &&& 0 <= d <= m.2.len() <= d + 1
            &&& forall|k: int|
                0 <= k < d ==> {
                    &&& (#[trigger] m.2[k]) is Trade
                    &&& m.2[k]->resting_client == opp[k].client
                    &&& m.2[k]->resting_order_id == opp[k].order_id
                    &&& m.2[k]->Trade_quantity == opp[k].quantity
                }
            &&& m.2.len() == d + 1 ==> {
                &&& m.2[d] is Trade
                &&& m.2[d]->resting_client == opp[d].client
                &&& m.2[d]->resting_order_id == opp[d].order_id
                &&& m.1.len() > 0
                &&& m.1[0].quantity + m.2[d]->Trade_quantity == opp[d].quantity
            }
            &&& (forall|i: int| 0 <= i < opp.len() ==> (#[trigger] opp[i]).quantity > 0) ==> forall|
                k: int,
            |
                0 <= k < m.2.len() ==> (#[trigger] m.2[k])->Trade_quantity > 0
        }),
    decreases opp.len(),
{
    if inc.quantity == 0 || opp.len() == 0 || !crate::ledger::crosses(inc, opp[0]) {
    } else {
        let rest = opp[0];
        let q = crate::ledger::min_u64(inc.quantity, rest.quantity);
        let m = match_spec(inc, opp);
        let t = crate::ledger::trade_event(rest, inc, q);
        assert(m.2[0] == t);
        assert(traded(m.2) == q + traded(m.2.drop_first()));
        assert(total_quantity(opp) == rest.quantity + total_quantity(opp.drop_first()));
        if q == rest.quantity {
            let inc2 = OrderView { quantity: (inc.quantity - q) as u64, ..inc };
            lemma_conservation(inc2, opp.drop_first());
            let sub = match_spec(inc2, opp.drop_first());
            assert(m.2.drop_first() =~= sub.2);
            assert(forall|k: int| 1 <= k < m.2.len() ==> #[trigger] m.2[k] == sub.2[k - 1] && opp[k] == opp.drop_first()[k - 1]);
            if forall|i: int| 0 <= i < opp.len() ==> (#[trigger] opp[i]).quantity > 0 {
                assert(forall|i: int| 0 <= i < opp.drop_first().len() ==> (#[trigger] opp.drop_first()[i]).quantity > 0) by {
                    assert(forall|i: int| 0 <= i < opp.drop_first().len() ==> opp.drop_first()[i] == opp[i + 1]);
                }
            }
        } else {
            assert(m.1.drop_first() =~= opp.drop_first());
            assert(m.1[0].quantity == rest.quantity - q);
            assert(m.2.drop_first() =~= Seq::<Event>::empty());
            assert(traded(Seq::<Event>::empty()) == 0);
            assert(total_quantity(m.1) == m.1[0].quantity + total_quantity(m.1.drop_first()));
        }
    }
}

/// Every trade of an incoming order is with an order of the opposite ledger, the
/// `k`-th trade with its `k`-th order, never with an order of the incoming side.
pub proof fn lemma_no_self_cross(inc: OrderView, opp: Seq<OrderView>)
    requires
        ledger_wf(opposite_spec(inc.side), opp),
    ensures
        ({
            let m = match_spec(inc, opp);
            forall|k: int|
                0 <= k < m.2.len() ==> {
                    &&& (#[trigger] m.2[k]) is Trade
                    &&& m.2[k]->resting_client == opp[k].client
                    &&& m.2[k]->resting_order_id == opp[k].order_id
                    &&& m.2[k]->incoming_client == inc.client
                    &&& m.2[k]->incoming_order_id == inc.order_id
                    &&& opp[k].side != inc.side
                }
        }),
{
    lemma_match_trades(inc, opp);
    let m = match_spec(inc, opp);
    assert forall|k: int| 0 <= k < m.2.len() implies opp[k].side != inc.side by {
        assert(opp[k].side == opposite_spec(inc.side));
    }
}

/// Trades follow the priority order of the ledger: the `k`-th trade is with its
/// `k`-th order, and a resting order at the same price that arrived earlier than
/// a traded one was traded before it.
pub proof fn lemma_price_time_priority(side: Side, inc: OrderView, opp: Seq<OrderView>)
    requires
        sorted(side, opp),
    ensures
        ({
            let m = match_spec(inc, opp);
            &&& forall|k: int|
                0 <= k < m.2.len() ==> {
                    &&& (#[trigger] m.2[k]) is Trade
                    &&& m.2[k]->resting_client == opp[k].client
                    &&& m.2[k]->resting_order_id == opp[k].order_id
                }
            &&& forall|k: int, j: int|
                0 <= k < m.2.len() && 0 <= j < opp.len() && #[trigger] opp[j].price
                    == #[trigger] opp[k].price && opp[j].sequence < opp[k].sequence ==> j < k
        }),
{
    lemma_match_trades(inc, opp);
    let m = match_spec(inc, opp);
    assert forall|k: int, j: int|
        0 <= k < m.2.len() && 0 <= j < opp.len() && #[trigger] opp[j].price == #[trigger] opp[k].price
            && opp[j].sequence < opp[k].sequence implies j < k by {
        if k < j {
            assert(crate::ledger::ahead(side, opp[k], opp[j]));
        }
    }
}

/// Cancelling a key that rests in the book acknowledges it and removes exactly
/// that order from its ledger, and cancelling the same key again is rejected.
pub proof fn lemma_cancel_sound(b: BookView, client: u64, order_id: u64)
    requires
        book_wf(b),
        book_has_key(b, client, order_id),
    ensures
        ({
            let b1 = apply_cancel(b, client, order_id);
            &&& extends(b, b1)
            &&& emitted(b, b1)[0] == (Event::Ack { client, order_id })
            &&& (has_key(b.bids, client, order_id) && b1.bids == b.bids.remove(
                index_of_key(b.bids, client, order_id),
            ) && b1.asks == b.asks) || (has_key(b.asks, client, order_id) && b1.asks
                == b.asks.remove(index_of_key(b.asks, client, order_id)) && b1.bids == b.bids)
            &&& !book_has_key(b1, client, order_id)
            &&& apply_cancel(b1, client, order_id) == with_event(
                b1,
                Event::Rej { client, order_id },
            )
        }),
{
    lemma_index_of_key(b.bids, client, order_id);
    lemma_index_of_key(b.asks, client, order_id);
    let ib = index_of_key(b.bids, client, order_id);
    let ia = index_of_key(b.asks, client, order_id);
    let b1 = apply_cancel(b, client, order_id);
    let ack = Event::Ack { client, order_id };
    if ib >= 0 {
        lemma_remove_keeps_ledger(Side::BUY, b.bids, ib);
        if ia >= 0 {
            assert(keys_disjoint(b.bids, b.asks));
            assert(!crate::book::same_key(b.bids[ib], b.asks[ia]));
        }
    } else {
        lemma_remove_keeps_ledger(Side::SELL, b.asks, ia);
    }
    assert(!book_has_key(b1, client, order_id));
    let best = best_events(b.best_bid, b1.bids, b.best_ask, b1.asks);
    assert(b1.events == b.events + seq![ack] + best);
    assert(emitted(b, b1) =~= seq![ack] + best);
    assert(b1.events.subrange(0, b.events.len() as int) =~= b.events);
    lemma_index_of_key(b1.bids, client, order_id);
    lemma_index_of_key(b1.asks, client, order_id);
}

/// A flush leaves both ledgers empty and both tops at no quote, so the next
/// change of either side is reported against no quote.
pub proof fn lemma_flush_total(b: BookView)
    requires
        book_wf(b),
    ensures
        ({
            let b1 = apply_flush(b);
            &&& book_wf(b1)
            &&& b1.bids.len() == 0
            &&& b1.asks.len() == 0
            &&& b1.best_bid is None
            &&& b1.best_ask is None
            &&& emitted(b, b1) == seq![Event::Flushed]
        }),
{
    let b1 = apply_flush(b);
    assert(emitted(b, b1) =~= seq![Event::Flushed]);
}

/// A record emits at most one top-of-book event per side, and none for a side
/// whose top it leaves as it was.
pub proof fn lemma_best_only_on_change(b: BookView, r: RecordView)
    requires
        book_wf(b),
    ensures
        ({
            let b1 = apply_record(b, r);
            let e = emitted(b, b1);
            &&& book_wf(b1)
            &&& extends(b, b1)
            &&& forall|i: int, j: int|
                0 <= i < j < e.len() && is_best_of(#[trigger] e[i], Side::BUY) ==> !is_best_of(
                    #[trigger] e[j],
                    Side::BUY,
                )
            &&& forall|i: int, j: int|
                0 <= i < j < e.len() && is_best_of(#[trigger] e[i], Side::SELL) ==> !is_best_of(
                    #[trigger] e[j],
                    Side::SELL,
                )
            &&& top_spec(b1.bids) == top_spec(b.bids) ==> forall|i: int|
                0 <= i < e.len() ==> !is_best_of(#[trigger] e[i], Side::BUY)
            &&& top_spec(b1.asks) == top_spec(b.asks) ==> forall|i: int|
                0 <= i < e.len() ==> !is_best_of(#[trigger] e[i], Side::SELL)
        }),
{
    lemma_apply_record_wf(b, r);
    lemma_events_grow(b, r);
    let b1 = apply_record(b, r);
    let e = emitted(b, b1);
    match r {
        RecordView::New(o) => {
            if accepted(b, o) {
                let inc = incoming(b, o);
                let opp = match o.side {
                    Side::BUY => b.asks,
                    Side::SELL => b.bids,
                };
                let m = match_spec(inc, opp);
                lemma_match_trades(inc, opp);
                let ack = Event::Ack { client: o.client, order_id: o.order_id };
                assert(e =~= (seq![ack] + m.2) + best_events(b.best_bid, b1.bids, b.best_ask, b1.asks));
                lemma_best_part(seq![ack] + m.2, b.best_bid, b1.bids, b.best_ask, b1.asks);
            } else {
                assert(e =~= seq![Event::Rej { client: o.client, order_id: o.order_id }]);
            }
        },
        RecordView::Cancel { client, order_id } => {
            let ack = Event::Ack { client, order_id };
            if index_of_key(b.bids, client, order_id) >= 0 || index_of_key(b.asks, client, order_id) >= 0 {
                assert(e =~= seq![ack] + best_events(b.best_bid, b1.bids, b.best_ask, b1.asks));
                lemma_best_part(seq![ack], b.best_bid, b1.bids, b.best_ask, b1.asks);
            } else {
                assert(e =~= seq![Event::Rej { client, order_id }]);
            }
        },
        RecordView::Malformed { client, order_id } => {
            assert(e =~= seq![Event::Rej { client, order_id }]);
        },
        RecordView::Flush => {
            assert(e =~= seq![Event::Flushed]);
        },
        RecordView::Skip => {
            assert(e =~= Seq::<Event>::empty());
        },
    }
}

/// Events without top-of-book reports, then the reports of new ledgers against
/// the last reported tops: at most one per side, and none for a side whose top
/// is as reported.
proof fn lemma_best_part(
    own: Seq<Event>,
    old_bid: Option<crate::types::Quote>,
    bids: Seq<OrderView>,
    old_ask: Option<crate::types::Quote>,
    asks: Seq<OrderView>,
)
    requires
        forall|i: int| 0 <= i < own.len() ==> !((#[trigger] own[i]) is Best),
    ensures
        ({
            let e = own + best_events(old_bid, bids, old_ask, asks);
            &&& forall|i: int, j: int|
                0 <= i < j < e.len() && is_best_of(#[trigger] e[i], Side::BUY) ==> !is_best_of(
                    #[trigger] e[j],
                    Side::BUY,
                )
            &&& forall|i: int, j: int|
                0 <= i < j < e.len() && is_best_of(#[trigger] e[i], Side::SELL) ==> !is_best_of(
                    #[trigger] e[j],
                    Side::SELL,
                )
            &&& top_spec(bids) == old_bid ==> forall|i: int|
                0 <= i < e.len() ==> !is_best_of(#[trigger] e[i], Side::BUY)
            &&& top_spec(asks) == old_ask ==> forall|i: int|
                0 <= i < e.len() ==> !is_best_of(#[trigger] e[i], Side::SELL)
        }),
{
    let best = best_events(old_bid, bids, old_ask, asks);
    let e = own + best;
    assert(forall|i: int| 0 <= i < own.len() ==> #[trigger] e[i] == own[i]);
    assert(forall|i: int| own.len() <= i < e.len() ==> #[trigger] e[i] == best[i - own.len()]);
}

proof fn lemma_events_grow(b: BookView, r: RecordView)
    requires
        book_wf(b),
    ensures
        b.events.len() <= apply_record(b, r).events.len(),
        apply_record(b, r).events.subrange(0, b.events.len() as int) == b.events,
{
    let b1 = apply_record(b, r);
    assert(b1.events.subrange(0, b.events.len() as int) =~= b.events);
}

/// Of two consecutive records, the second reports no top of a side whose top it
/// leaves as the first one left it.
pub proof fn lemma_consecutive_best(b: BookView, r1: RecordView, r2: RecordView)
    requires
        book_wf(b),
    ensures
        ({
            let b1 = apply_record(b, r1);
            let b2 = apply_record(b1, r2);
            let e = emitted(b1, b2);
            &&& top_spec(b2.bids) == top_spec(b1.bids) ==> forall|i: int|
                0 <= i < e.len() ==> !is_best_of(#[trigger] e[i], Side::BUY)
            &&& top_spec(b2.asks) == top_spec(b1.asks) ==> forall|i: int|
                0 <= i < e.len() ==> !is_best_of(#[trigger] e[i], Side::SELL)
        }),
{
    lemma_best_only_on_change(b, r1);
    lemma_best_only_on_change(apply_record(b, r1), r2);
}

/// The book is never crossed: after any record, when both sides hold orders,
/// the best bid is below the best ask.
pub proof fn lemma_never_crossed(b: BookView, r: RecordView)
    requires
        book_wf(b),
    ensures
        ({
            let b1 = apply_record(b, r);
            b1.bids.len() > 0 && b1.asks.len() > 0 ==> b1.bids[0].price < b1.asks[0].price
        }),
{
    lemma_apply_record_wf(b, r);
}

/// After a flush, an accepted limit order is quoted against no quote: it is
/// acknowledged and its own price and quantity are reported as the new top of
/// its side, whatever the top was before the flush.
pub proof fn lemma_first_quote_after_flush(b: BookView, o: OrderView)
    requires
        book_wf(b),
        accepted(apply_flush(b), o),
        o.order_type == OrderType::LIMIT_ORDER,
    ensures
        ({
            let b1 = apply_flush(b);
            emitted(b1, apply_new(b1, o)) == seq![
                Event::Ack { client: o.client, order_id: o.order_id },
                Event::Best {
                    side: o.side,
                    quote: Some(Quote { price: o.price, quantity: o.quantity as u128 }),
                },
            ]
        }),
{
    let b1 = apply_flush(b);
    let b2 = apply_new(b1, o);
    let inc = incoming(b1, o);
    let x = OrderView { quantity: o.quantity, ..inc };
    let empty = Seq::<OrderView>::empty();
    assert(match_spec(inc, empty) == (o.quantity, empty, Seq::<Event>::empty()));
    assert(insert_pos(o.side, empty, x) == 0);
    assert(empty.insert(0, x) =~= seq![x]);
    assert(seq![x].drop_last() =~= empty);
    assert(level_sum(empty, o.price) == 0);
    assert(seq![x].last() == x && x.price == o.price);
    assert(level_sum(seq![x], o.price) == o.quantity);
    assert(emitted(b1, b2) =~= b2.events.subrange(b1.events.len() as int, b2.events.len() as int));
    assert(b2.events =~= b1.events + seq![
        Event::Ack { client: o.client, order_id: o.order_id },
        Event::Best {
            side: o.side,
            quote: Some(Quote { price: o.price, quantity: o.quantity as u128 }),
        },
    ]);
    assert(emitted(b1, b2) =~= seq![
        Event::Ack { client: o.client, order_id: o.order_id },
        Event::Best {
            side: o.side,
            quote: Some(Quote { price: o.price, quantity: o.quantity as u128 }),
        },
    ]);
}

} // verus!
