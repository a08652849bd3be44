use vstd::prelude::*;
use crate::types::{opposite_spec, Event, OrderPrimaryKey, OrderType, Quote, Side, TransactionType};
use crate::order::{parse_record, parse_record_spec, Order, OrderView, Record, RecordView};
use crate::render::{output_text, render};
use crate::ledger::{
    ahead, find_key, has_key, index_of_key, insert_order, insert_pos, insert_sorted,
    lemma_index_of_key, lemma_insert_pos, lemma_match_suffix, ledger_wf, like, lview,
    lemma_match_stop, positive_like_suffix, sorted,
    match_order, match_spec, top_quote, top_spec,
};

verus! {

/// The mathematical value of an [`OrderBook`].
pub struct BookView {
    pub bids: Seq<OrderView>,
    pub asks: Seq<OrderView>,
    /// The last reported top of the bid side.
    pub best_bid: Option<Quote>,
    /// The last reported top of the ask side.
    pub best_ask: Option<Quote>,
    /// The arrival sequence that the next accepted order gets.
    pub next_sequence: u64,
    /// Every event emitted so far, in order.
    pub events: Seq<Event>,
}

pub open spec fn same_key(a: OrderView, b: OrderView) -> bool {
    a.client == b.client && a.order_id == b.order_id
}

pub open spec fn keys_unique(s: Seq<OrderView>) -> bool {
    forall|i: int, j: int|
        0 <= i < s.len() && 0 <= j < s.len() && i != j ==> !same_key(#[trigger] s[i], #[trigger] s[j])
}

pub open spec fn keys_disjoint(s: Seq<OrderView>, t: Seq<OrderView>) -> bool {
    forall|i: int, j: int|
        0 <= i < s.len() && 0 <= j < t.len() ==> !same_key(#[trigger] s[i], #[trigger] t[j])
}

pub open spec fn sequences_below(s: Seq<OrderView>, n: u64) -> bool {
    forall|i: int| 0 <= i < s.len() ==> (#[trigger] s[i]).sequence < n
}

/// The book is not crossed: when both sides hold orders, the best bid is below
/// the best ask.
pub open spec fn uncrossed(bids: Seq<OrderView>, asks: Seq<OrderView>) -> bool {
    bids.len() > 0 && asks.len() > 0 ==> bids[0].price < asks[0].price
}

/// The ledger `own` of `side` and the opposite ledger `opp` do not cross.
pub open spec fn apart(side: Side, own: Seq<OrderView>, opp: Seq<OrderView>) -> bool {
    match side {
        Side::BUY => uncrossed(own, opp),
        Side::SELL => uncrossed(opp, own),
    }
}

/// A well-formed book: both ledgers well formed, every primary key held at most
/// once in the whole book, every arrival sequence already handed out, the book
/// not crossed, and the last reported tops equal to the ledgers' tops.
pub open spec fn book_wf(b: BookView) -> bool {
    &&& ledger_wf(Side::BUY, b.bids)
    &&& ledger_wf(Side::SELL, b.asks)
    &&& keys_unique(b.bids)
    &&& keys_unique(b.asks)
    &&& keys_disjoint(b.bids, b.asks)
    &&& sequences_below(b.bids, b.next_sequence)
    &&& sequences_below(b.asks, b.next_sequence)
    &&& uncrossed(b.bids, b.asks)
    &&& b.best_bid == top_spec(b.bids)
    &&& b.best_ask == top_spec(b.asks)
}

pub open spec fn empty_book() -> BookView {
    BookView {
        bids: Seq::empty(),
        asks: Seq::empty(),
        best_bid: None,
        best_ask: None,
        next_sequence: 0,
        events: Seq::empty(),
    }
}

pub open spec fn book_has_key(b: BookView, client: u64, order_id: u64) -> bool {
    has_key(b.bids, client, order_id) || has_key(b.asks, client, order_id)
}

/// The top-of-book events after a change of the ledgers to `bids` and `asks`: one
/// per side whose top differs from the last reported one, bids first.
pub open spec fn best_events(
    old_bid: Option<Quote>,
    bids: Seq<OrderView>,
    old_ask: Option<Quote>,
    asks: Seq<OrderView>,
) -> Seq<Event> {
    let b = top_spec(bids);
    let a = top_spec(asks);
    (if b != old_bid {
        seq![Event::Best { side: Side::BUY, quote: b }]
    } else {
        Seq::empty()
    }) + (if a != old_ask {
        seq![Event::Best { side: Side::SELL, quote: a }]
    } else {
        Seq::empty()
    })
}

/// `b` with new ledgers, after `events`, followed by the top-of-book events.
pub open spec fn with_ledgers(
    b: BookView,
    bids: Seq<OrderView>,
    asks: Seq<OrderView>,
    next_sequence: u64,
    events: Seq<Event>,
) -> BookView {
    BookView {
        bids,
        asks,
        best_bid: top_spec(bids),
        best_ask: top_spec(asks),
        next_sequence,
        events: b.events + events + best_events(b.best_bid, bids, b.best_ask, asks),
    }
}

/// `b` with one more event and nothing else changed.
pub open spec fn with_event(b: BookView, e: Event) -> BookView {
    BookView { events: b.events.push(e), ..b }
}

/// Whether the book takes the new order `o`: its key is not in the book, its
/// quantity is positive and an arrival sequence is left for it.
pub open spec fn accepted(b: BookView, o: OrderView) -> bool {
    !book_has_key(b, o.client, o.order_id) && o.quantity > 0 && b.next_sequence < u64::MAX
}

/// The order `o` as the book takes it in: new, with the next arrival sequence.
pub open spec fn incoming(b: BookView, o: OrderView) -> OrderView {
    OrderView { status: TransactionType::NEW, sequence: b.next_sequence, ..o }
}

/// The own ledger after an incoming order `inc` has matched down to `left`: a
/// limit order rests with what is left, a market order never rests.
pub open spec fn rest_left(side: Side, own: Seq<OrderView>, inc: OrderView, left: u64) -> Seq<
    OrderView,
> {
    if left > 0 && inc.order_type == OrderType::LIMIT_ORDER {
        insert_sorted(side, own, OrderView { quantity: left, ..inc })
    } else {
        own
    }
}

/// A new order: rejected, or acknowledged, matched against the opposite side and
/// the rest put in its own ledger.
pub open spec fn apply_new(b: BookView, o: OrderView) -> BookView {
    if !accepted(b, o) {
        with_event(b, Event::Rej { client: o.client, order_id: o.order_id })
    } else {
        let inc = incoming(b, o);
        let ack = Event::Ack { client: o.client, order_id: o.order_id };
        let next = (b.next_sequence + 1) as u64;
        match o.side {
            Side::BUY => {
                let m = match_spec(inc, b.asks);
                with_ledgers(b, rest_left(Side::BUY, b.bids, inc, m.0), m.1, next, seq![ack] + m.2)
            },
            Side::SELL => {
                let m = match_spec(inc, b.bids);
                with_ledgers(b, m.1, rest_left(Side::SELL, b.asks, inc, m.0), next, seq![ack] + m.2)
            },
        }
    }
}

/// A cancellation: the order with the key leaves its ledger, or the request is rejected.
pub open spec fn apply_cancel(b: BookView, client: u64, order_id: u64) -> BookView {
    let ib = index_of_key(b.bids, client, order_id);
    let ia = index_of_key(b.asks, client, order_id);
    let ack = Event::Ack { client, order_id };
    if ib >= 0 {
        with_ledgers(b, b.bids.remove(ib), b.asks, b.next_sequence, seq![ack])
    } else if ia >= 0 {
        with_ledgers(b, b.bids, b.asks.remove(ia), b.next_sequence, seq![ack])
    } else {
        with_event(b, Event::Rej { client, order_id })
    }
}

/// A flush: both ledgers emptied, both tops reset to no quote.
pub open spec fn apply_flush(b: BookView) -> BookView {
    BookView {
        bids: Seq::empty(),
        asks: Seq::empty(),
        best_bid: None,
        best_ask: None,
        next_sequence: b.next_sequence,
        events: b.events.push(Event::Flushed),
    }
}

/// The book after one record.
pub open spec fn apply_record(b: BookView, r: RecordView) -> BookView {
    match r {
        RecordView::Skip => b,
        RecordView::Malformed { client, order_id } => with_event(b, Event::Rej { client, order_id }),
        RecordView::New(o) => apply_new(b, o),
        RecordView::Cancel { client, order_id } => apply_cancel(b, client, order_id),
        RecordView::Flush => apply_flush(b),
    }
}

/// A suffix of a well-formed ledger, where orders may have lost some quantity
/// but kept some, is well formed and holds no key that was not there before.
proof fn lemma_like_suffix(side: Side, opp: Seq<OrderView>, t: Seq<OrderView>, d: int)
    requires
        ledger_wf(side, opp),
        keys_unique(opp),
        positive_like_suffix(opp, t),
        d == opp.len() - t.len(),
    ensures
        ledger_wf(side, t),
        keys_unique(t),
        forall|s: Seq<OrderView>| keys_disjoint(s, opp) ==> keys_disjoint(s, t),
        forall|n: u64| sequences_below(opp, n) ==> sequences_below(t, n),
        forall|c: u64, id: u64| !has_key(opp, c, id) ==> !has_key(t, c, id),
{
    reveal(positive_like_suffix);
    assert forall|i: int, j: int| 0 <= i < j < t.len() implies ahead(
        side,
        #[trigger] t[i],
        #[trigger] t[j],
    ) by {
        assert(like(t[i], opp[i + d]) && like(t[j], opp[j + d]));
        assert(ahead(side, opp[i + d], opp[j + d]));
    }
    assert forall|i: int| 0 <= i < t.len() implies {
        &&& (#[trigger] t[i]).side == side
        &&& t[i].quantity > 0
        &&& t[i].order_type == OrderType::LIMIT_ORDER
        &&& t[i].status == TransactionType::NEW
    } by {
        assert(like(t[i], opp[i + d]));
    }
    assert forall|i: int, j: int|
        0 <= i < t.len() && 0 <= j < t.len() && i != j implies !same_key(
        #[trigger] t[i],
        #[trigger] t[j],
    ) by {
        assert(like(t[i], opp[i + d]) && like(t[j], opp[j + d]));
        assert(!same_key(opp[i + d], opp[j + d]));
    }
    assert forall|s: Seq<OrderView>| keys_disjoint(s, opp) implies keys_disjoint(s, t) by {
        assert forall|i: int, j: int| 0 <= i < s.len() && 0 <= j < t.len() implies !same_key(
            #[trigger] s[i],
            #[trigger] t[j],
        ) by {
            assert(like(t[j], opp[j + d]));
            assert(!same_key(s[i], opp[j + d]));
        }
    }
    assert forall|n: u64| sequences_below(opp, n) implies sequences_below(t, n) by {
        assert forall|i: int| 0 <= i < t.len() implies (#[trigger] t[i]).sequence < n by {
            assert(like(t[i], opp[i + d]));
            assert(opp[i + d].sequence < n);
        }
    }
    assert forall|c: u64, id: u64| !has_key(opp, c, id) implies !has_key(t, c, id) by {
        if has_key(t, c, id) {
            let i = choose|i: int| 0 <= i < t.len() && (#[trigger] t[i]).client == c && t[i].order_id == id;
            assert(like(t[i], opp[i + d]));
            assert(opp[i + d].client == c && opp[i + d].order_id == id);
        }
    }
}

/// What is left of the opposite ledger after matching is well formed and holds
/// no key that was not there before.
proof fn lemma_match_keeps_ledger(side: Side, inc: OrderView, opp: Seq<OrderView>)
    requires
        ledger_wf(side, opp),
        keys_unique(opp),
    ensures
        ({
            let m = match_spec(inc, opp);
            &&& ledger_wf(side, m.1)
            &&& keys_unique(m.1)
            &&& forall|s: Seq<OrderView>| keys_disjoint(s, opp) ==> keys_disjoint(s, m.1)
            &&& forall|n: u64| sequences_below(opp, n) ==> sequences_below(m.1, n)
            &&& forall|c: u64, id: u64| !has_key(opp, c, id) ==> !has_key(m.1, c, id)
        }),
{
    assert(forall|i: int| 0 <= i < opp.len() ==> (#[trigger] opp[i]).quantity > 0);
    lemma_match_suffix(inc, opp);
    let m = match_spec(inc, opp);
    lemma_like_suffix(side, opp, m.1, opp.len() - m.1.len());
}

/// Putting a fresh order into a well-formed ledger keeps it well formed.
proof fn lemma_insert_keeps_ledger(side: Side, own: Seq<OrderView>, x: OrderView)
    requires
        ledger_wf(side, own),
        keys_unique(own),
        forall|j: int| 0 <= j < own.len() ==> (#[trigger] own[j]).sequence < x.sequence,
        !has_key(own, x.client, x.order_id),
        x.side == side,
        x.quantity > 0,
        x.order_type == OrderType::LIMIT_ORDER,
        x.status == TransactionType::NEW,
    ensures
        ({
            let t = insert_sorted(side, own, x);
            &&& ledger_wf(side, t)
            &&& keys_unique(t)
            &&& forall|s: Seq<OrderView>|
                keys_disjoint(s, own) && !has_key(s, x.client, x.order_id) ==> keys_disjoint(s, t)
            &&& forall|n: u64| sequences_below(own, n) && x.sequence < n ==> sequences_below(t, n)
        }),
{
    lemma_insert_pos(side, own, x);
    let p = insert_pos(side, own, x);
    let t = insert_sorted(side, own, x);
    assert(forall|k: int| 0 <= k < p ==> t[k] == own[k]);
    assert(forall|k: int| p < k < t.len() ==> t[k] == own[k - 1]);
    assert(t[p] == x);
    assert forall|i: int, j: int| 0 <= i < j < t.len() implies ahead(side, #[trigger] t[i], #[trigger] t[j]) by {
        if j < p {
            assert(ahead(side, own[i], own[j]));
        } else if j == p {
        } else if i < p {
            assert(ahead(side, own[i], x));
            assert(ahead(side, x, own[j - 1]));
        } else if i == p {
        } else {
            assert(ahead(side, own[i - 1], own[j - 1]));
        }
    }
    assert forall|i: int, j: int|
        0 <= i < t.len() && 0 <= j < t.len() && i != j implies !same_key(#[trigger] t[i], #[trigger] t[j]) by {
        let ii = if i < p { i } else { i - 1 };
        let jj = if j < p { j } else { j - 1 };
        if i == p {
            assert(!(own[jj].client == x.client && own[jj].order_id == x.order_id));
        } else if j == p {
            assert(!(own[ii].client == x.client && own[ii].order_id == x.order_id));
        } else {
            assert(!same_key(own[ii], own[jj]));
        }
    }
    assert forall|s: Seq<OrderView>|
        keys_disjoint(s, own) && !has_key(s, x.client, x.order_id) implies keys_disjoint(s, t) by {
        assert forall|i: int, j: int| 0 <= i < s.len() && 0 <= j < t.len() implies !same_key(
            #[trigger] s[i],
            #[trigger] t[j],
        ) by {
            if j < p {
                assert(!same_key(s[i], own[j]));
            } else if j == p {
                assert(!(s[i].client == x.client && s[i].order_id == x.order_id));
            } else {
                assert(!same_key(s[i], own[j - 1]));
            }
        }
    }
}

pub proof fn lemma_keys_disjoint_sym(s: Seq<OrderView>, t: Seq<OrderView>)
    ensures
        keys_disjoint(s, t) == keys_disjoint(t, s),
{
    if keys_disjoint(s, t) {
        assert forall|i: int, j: int| 0 <= i < t.len() && 0 <= j < s.len() implies !same_key(
            #[trigger] t[i],
            #[trigger] s[j],
        ) by {
            assert(!same_key(s[j], t[i]));
        }
    }
    if keys_disjoint(t, s) {
        assert forall|i: int, j: int| 0 <= i < s.len() && 0 <= j < t.len() implies !same_key(
            #[trigger] s[i],
            #[trigger] t[j],
        ) by {
            assert(!same_key(t[j], s[i]));
        }
    }
}

/// Removing one order keeps a ledger well formed.
pub proof fn lemma_remove_keeps_ledger(side: Side, s: Seq<OrderView>, k: int)
    requires
        ledger_wf(side, s),
        keys_unique(s),
        0 <= k < s.len(),
    ensures
        ledger_wf(side, s.remove(k)),
        keys_unique(s.remove(k)),
        forall|t: Seq<OrderView>| keys_disjoint(t, s) ==> keys_disjoint(t, s.remove(k)),
        forall|n: u64| sequences_below(s, n) ==> sequences_below(s.remove(k), n),
        !has_key(s.remove(k), s[k].client, s[k].order_id),
{
    let r = s.remove(k);
    assert(forall|i: int| 0 <= i < r.len() ==> #[trigger] r[i] == s[if i < k { i } else { i + 1 }]);
    assert forall|i: int, j: int| 0 <= i < j < r.len() implies ahead(side, #[trigger] r[i], #[trigger] r[j]) by {
        let ii = if i < k { i } else { i + 1 };
        let jj = if j < k { j } else { j + 1 };
        assert(ahead(side, s[ii], s[jj]));
    }
    assert forall|i: int, j: int|
        0 <= i < r.len() && 0 <= j < r.len() && i != j implies !same_key(#[trigger] r[i], #[trigger] r[j]) by {
        let ii = if i < k { i } else { i + 1 };
        let jj = if j < k { j } else { j + 1 };
        assert(!same_key(s[ii], s[jj]));
    }
    assert forall|t: Seq<OrderView>| keys_disjoint(t, s) implies keys_disjoint(t, r) by {
        assert forall|i: int, j: int| 0 <= i < t.len() && 0 <= j < r.len() implies !same_key(
            #[trigger] t[i],
            #[trigger] r[j],
        ) by {
            let jj = if j < k { j } else { j + 1 };
            assert(!same_key(t[i], s[jj]));
        }
    }
    if has_key(r, s[k].client, s[k].order_id) {
        let i = choose|i: int|
            0 <= i < r.len() && (#[trigger] r[i]).client == s[k].client && r[i].order_id
                == s[k].order_id;
        let ii = if i < k { i } else { i + 1 };
        assert(!same_key(s[ii], s[k]));
    }
}

/// Matching an incoming order on one side and resting what is left keeps both
/// ledgers well formed and their keys apart.
proof fn lemma_new_on_side(side: Side, own: Seq<OrderView>, opp: Seq<OrderView>, inc: OrderView)
    requires
        ledger_wf(side, own),
        ledger_wf(opposite_spec(side), opp),
        keys_unique(own),
        keys_unique(opp),
        keys_disjoint(own, opp),
        sequences_below(own, inc.sequence),
        sequences_below(opp, inc.sequence),
        inc.sequence < u64::MAX,
        !has_key(own, inc.client, inc.order_id),
        !has_key(opp, inc.client, inc.order_id),
        inc.side == side,
        inc.status == TransactionType::NEW,
        apart(side, own, opp),
    ensures
        ({
            let m = match_spec(inc, opp);
            let own2 = rest_left(side, own, inc, m.0);
            let n = (inc.sequence + 1) as u64;
            &&& ledger_wf(side, own2)
            &&& ledger_wf(opposite_spec(side), m.1)
            &&& keys_unique(own2)
            &&& keys_unique(m.1)
            &&& keys_disjoint(own2, m.1)
            &&& sequences_below(own2, n)
            &&& sequences_below(m.1, n)
            &&& apart(side, own2, m.1)
        }),
{
    let m = match_spec(inc, opp);
    let n = (inc.sequence + 1) as u64;
    lemma_match_keeps_ledger(opposite_spec(side), inc, opp);
    assert(sequences_below(opp, n));
    assert(sequences_below(own, n));
    lemma_keys_disjoint_sym(own, opp);
    lemma_keys_disjoint_sym(own, m.1);
    if m.0 > 0 && inc.order_type == OrderType::LIMIT_ORDER {
        let x = OrderView { quantity: m.0, ..inc };
        lemma_insert_keeps_ledger(side, own, x);
        assert(!has_key(m.1, x.client, x.order_id));
        lemma_keys_disjoint_sym(m.1, insert_sorted(side, own, x));
    }
    lemma_new_apart(side, own, opp, inc);
}

/// An incoming order that matched and rested leaves the two sides apart.
proof fn lemma_new_apart(side: Side, own: Seq<OrderView>, opp: Seq<OrderView>, inc: OrderView)
    requires
        ledger_wf(side, own),
        ledger_wf(opposite_spec(side), opp),
        sequences_below(own, inc.sequence),
        inc.side == side,
        apart(side, own, opp),
    ensures
        ({
            let m = match_spec(inc, opp);
            apart(side, rest_left(side, own, inc, m.0), m.1)
        }),
{
    let m = match_spec(inc, opp);
    lemma_match_stop(inc, opp);
    assert(forall|i: int| 0 <= i < opp.len() ==> (#[trigger] opp[i]).quantity > 0);
    lemma_match_suffix(inc, opp);
    reveal(positive_like_suffix);
    let d = opp.len() - m.1.len();
    let own2 = rest_left(side, own, inc, m.0);
    if own2.len() > 0 && m.1.len() > 0 {
        assert(like(m.1[0], opp[0 + d]));
        if d > 0 {
            assert(ahead(opposite_spec(side), opp[0], opp[d]));
        }
        if m.0 > 0 && inc.order_type == OrderType::LIMIT_ORDER {
            let x = OrderView { quantity: m.0, ..inc };
            lemma_insert_pos(side, own, x);
            let p = insert_pos(side, own, x);
            if p == 0 {
                assert(own2[0] == x);
            } else {
                assert(own2[0] == own[0]);
            }
        }
    }
}

/// Removing an order never makes the top of a ledger better.
proof fn lemma_remove_top(side: Side, s: Seq<OrderView>, k: int)
    requires
        sorted(side, s),
        0 <= k < s.len(),
        s.len() > 1,
    ensures
        match side {
            Side::BUY => s.remove(k)[0].price <= s[0].price,
            Side::SELL => s.remove(k)[0].price >= s[0].price,
        },
{
    if k == 0 {
        assert(s.remove(k)[0] == s[1]);
        assert(ahead(side, s[0], s[1]));
    } else {
        assert(s.remove(k)[0] == s[0]);
    }
}

/// A new order keeps the book well formed.
pub proof fn lemma_apply_new_wf(b: BookView, o: OrderView)
    requires
        book_wf(b),
    ensures
        book_wf(apply_new(b, o)),
{
    if accepted(b, o) {
        let inc = incoming(b, o);
        match o.side {
            Side::BUY => {
                lemma_new_on_side(Side::BUY, b.bids, b.asks, inc);
            },
            Side::SELL => {
                lemma_keys_disjoint_sym(b.bids, b.asks);
                lemma_new_on_side(Side::SELL, b.asks, b.bids, inc);
                let m = match_spec(inc, b.bids);
                lemma_keys_disjoint_sym(m.1, rest_left(Side::SELL, b.asks, inc, m.0));
            },
        }
    }
}

/// A cancellation keeps the book well formed.
pub proof fn lemma_apply_cancel_wf(b: BookView, client: u64, order_id: u64)
    requires
        book_wf(b),
    ensures
        book_wf(apply_cancel(b, client, order_id)),
{
    lemma_index_of_key(b.bids, client, order_id);
    lemma_index_of_key(b.asks, client, order_id);
    let ib = index_of_key(b.bids, client, order_id);
    let ia = index_of_key(b.asks, client, order_id);
    if ib >= 0 {
        lemma_keys_disjoint_sym(b.bids, b.asks);
        lemma_remove_keeps_ledger(Side::BUY, b.bids, ib);
        lemma_keys_disjoint_sym(b.bids.remove(ib), b.asks);
        if b.bids.len() > 1 {
            lemma_remove_top(Side::BUY, b.bids, ib);
        }
    } else if ia >= 0 {
        lemma_remove_keeps_ledger(Side::SELL, b.asks, ia);
        if b.asks.len() > 1 {
            lemma_remove_top(Side::SELL, b.asks, ia);
        }
    }
}

/// Every record keeps the book well formed.
pub proof fn lemma_apply_record_wf(b: BookView, r: RecordView)
    requires
        book_wf(b),
    ensures
        book_wf(apply_record(b, r)),
{
    match r {
        RecordView::New(o) => lemma_apply_new_wf(b, o),
        RecordView::Cancel { client, order_id } => lemma_apply_cancel_wf(b, client, order_id),
        _ => {},
    }
}

/// A two-sided limit order book for one instrument, with the events it emitted.
pub struct OrderBook {
    bids: Vec<Order>,
    asks: Vec<Order>,
    best_bid: Option<Quote>,
    best_ask: Option<Quote>,
    next_sequence: u64,
    events: Vec<Event>,
}

impl View for OrderBook {
    type V = BookView;

    closed spec fn view(&self) -> BookView {
        BookView {
            bids: lview(self.bids@),
            asks: lview(self.asks@),
            best_bid: self.best_bid,
            best_ask: self.best_ask,
            next_sequence: self.next_sequence,
            events: self.events@,
        }
    }
}

fn quote_eq(a: &Option<Quote>, b: &Option<Quote>) -> (r: bool)
    ensures
        r == (*a == *b),
{
    match (a, b) {
        (Some(x), Some(y)) => x.price == y.price && x.quantity == y.quantity,
        (None, None) => true,
        _ => false,
    }
}

impl OrderBook {
    pub open spec fn wf(&self) -> bool {
        book_wf(self@)
    }

    /// An empty book: no orders, no quotes, no events.
    pub fn new() -> (r: Self)
        ensures
            r@ == empty_book(),
            r.wf(),
    {
        let r = OrderBook {
            bids: Vec::new(),
            asks: Vec::new(),
            best_bid: None,
            best_ask: None,
            next_sequence: 0,
            events: Vec::new(),
        };
        assert(r@.bids =~= Seq::empty());
        assert(r@.asks =~= Seq::empty());
        r
    }

    /// Reports each side whose top differs from the last reported one.
    fn refresh_best(&mut self)
        ensures
            final(self)@ == (BookView {
                best_bid: top_spec(old(self)@.bids),
                best_ask: top_spec(old(self)@.asks),
                events: old(self)@.events + best_events(
                    old(self)@.best_bid,
                    old(self)@.bids,
                    old(self)@.best_ask,
                    old(self)@.asks,
                ),
                ..old(self)@
            }),
    {
        let ghost b0 = self@;
        let b = top_quote(&self.bids);
        if !quote_eq(&b, &self.best_bid) {
            self.events.push(Event::Best { side: Side::BUY, quote: b });
        }
        self.best_bid = b;
        let a = top_quote(&self.asks);
        if !quote_eq(&a, &self.best_ask) {
            self.events.push(Event::Best { side: Side::SELL, quote: a });
        }
        self.best_ask = a;
        assert(self@.events =~= b0.events + best_events(b0.best_bid, b0.bids, b0.best_ask, b0.asks));
        assert(self@.bids == b0.bids && self@.asks == b0.asks);
    }

    fn accept_new(&mut self, o: Order)
        requires
            book_wf(old(self)@),
        ensures
            final(self)@ == apply_new(old(self)@, o@),
    {
        let ghost b0 = self@;
        let client = o.client;
        let order_id = o.order_id;
        let fb = find_key(&self.bids, client, order_id);
        let fa = find_key(&self.asks, client, order_id);
        proof {
            lemma_index_of_key(b0.bids, client, order_id);
            lemma_index_of_key(b0.asks, client, order_id);
        }
        if fb.is_some() || fa.is_some() || o.quantity == 0 || self.next_sequence == u64::MAX {
            self.events.push(Event::Rej { client, order_id });
            assert(self@ == with_event(b0, Event::Rej { client, order_id }));
            return;
        }
        let ghost inc0 = incoming(b0, o@);
        let mut inc = o;
        inc.status = TransactionType::NEW;
        inc.sequence = self.next_sequence;
        assert(inc@ == inc0);
        self.next_sequence = self.next_sequence + 1;
        let ack = Event::Ack { client, order_id };
        self.events.push(ack);
        match inc.side {
            Side::BUY => {
                let ghost m = match_spec(inc0, b0.asks);
                match_order(&mut inc, &mut self.asks, &mut self.events);
                if inc.quantity > 0 && inc.order_type == OrderType::LIMIT_ORDER {
                    insert_order(Side::BUY, &mut self.bids, inc);
                }
                assert(self@.bids == rest_left(Side::BUY, b0.bids, inc0, m.0));
                assert(self@.events =~= b0.events + (seq![ack] + m.2));
            },
            Side::SELL => {
                let ghost m = match_spec(inc0, b0.bids);
                match_order(&mut inc, &mut self.bids, &mut self.events);
                if inc.quantity > 0 && inc.order_type == OrderType::LIMIT_ORDER {
                    insert_order(Side::SELL, &mut self.asks, inc);
                }
                assert(self@.asks == rest_left(Side::SELL, b0.asks, inc0, m.0));
                assert(self@.events =~= b0.events + (seq![ack] + m.2));
            },
        }
        self.refresh_best();
    }

    /// Cancels the order with primary key `pk`: acknowledged and removed if it
    /// rests in the book, rejected otherwise.
    pub fn cancel_order(&mut self, pk: OrderPrimaryKey)
        requires
            old(self).wf(),
        ensures
            final(self).wf(),
            final(self)@ == apply_cancel(old(self)@, pk.0, pk.1),
    {
        let ghost b0 = self@;
        proof {
            lemma_apply_cancel_wf(b0, pk.0, pk.1);
            lemma_index_of_key(b0.bids, pk.0, pk.1);
            lemma_index_of_key(b0.asks, pk.0, pk.1);
        }
        let (client, order_id) = pk;
        let ack = Event::Ack { client, order_id };
        match find_key(&self.bids, client, order_id) {
            Some(i) => {
                self.bids.remove(i);
                assert(self@.bids =~= b0.bids.remove(i as int));
                self.events.push(ack);
                self.refresh_best();
                assert(self@.events =~= b0.events + seq![ack] + best_events(
                    b0.best_bid,
                    self@.bids,
                    b0.best_ask,
                    self@.asks,
                ));
            },
            None => match find_key(&self.asks, client, order_id) {
                Some(i) => {
                    self.asks.remove(i);
                    assert(self@.asks =~= b0.asks.remove(i as int));
                    self.events.push(ack);
                    self.refresh_best();
                    assert(self@.events =~= b0.events + seq![ack] + best_events(
                        b0.best_bid,
                        self@.bids,
                        b0.best_ask,
                        self@.asks,
                    ));
                },
                None => {
                    self.events.push(Event::Rej { client, order_id });
                    assert(self@ == with_event(b0, Event::Rej { client, order_id }));
                },
            },
        }
    }

    /// Flushes the book: both ledgers emptied, both tops reset to no quote, and
    /// the flush acknowledged.
    pub fn reformat(&mut self)
        requires
            old(self).wf(),
        ensures
            final(self).wf(),
            final(self)@ == apply_flush(old(self)@),
    {
        self.bids.clear();
        self.asks.clear();
        self.best_bid = None;
        self.best_ask = None;
        self.events.push(Event::Flushed);
        assert(self@.bids =~= Seq::empty());
        assert(self@.asks =~= Seq::empty());
    }

    /// Applies one interpreted record.
    pub fn apply(&mut self, record: Record)
        requires
            old(self).wf(),
        ensures
            final(self).wf(),
            final(self)@ == apply_record(old(self)@, record@),
    {
        proof {
            lemma_apply_record_wf(self@, record@);
        }
        match record {
            Record::Skip => {},
            Record::Malformed { client, order_id } => {
                self.events.push(Event::Rej { client, order_id });
            },
            Record::New(o) => self.accept_new(o),
            Record::Cancel { client, order_id } => self.cancel_order((client, order_id)),
            Record::Flush => self.reformat(),
        }
    }

    /// Reads one input record and applies it.
    pub fn build(&mut self, csv_line: &String)
        requires
            old(self).wf(),
        ensures
            final(self).wf(),
            final(self)@ == apply_record(old(self)@, parse_record_spec(csv_line@)),
    {
        let record = parse_record(csv_line);
        self.apply(record);
    }

    /// The output of every event so far.
    pub fn std_output(&self) -> (r: String)
        ensures
            r@ == output_text(self@.events),
    {
        render(&self.events)
    }

    /// Every event so far, in order.
    pub fn events(&self) -> (r: &Vec<Event>)
        ensures
            r@ == self@.events,
    {
        &self.events
    }

    /// The last reported top of the bid side.
    pub fn best_bid(&self) -> (r: Option<Quote>)
        ensures
            r == self@.best_bid,
    {
        self.best_bid
    }

    /// The last reported top of the ask side.
    pub fn best_ask(&self) -> (r: Option<Quote>)
        ensures
            r == self@.best_ask,
    {
        self.best_ask
    }
}

} // verus!
