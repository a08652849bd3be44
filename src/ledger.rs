use vstd::prelude::*;
use crate::types::{Event, OrderType, Quote, Side, TransactionType};
use crate::order::{Order, OrderView};

verus! {

/// The orders of a ledger as values.
pub open spec fn lview(v: Seq<Order>) -> Seq<OrderView> {
    v.map_values(|o: Order| o@)
}

/// Whether `a` comes before `b` in the priority order of a `side` ledger: better
/// price first (higher for bids, lower for asks), then earlier arrival.
pub open spec fn ahead(side: Side, a: OrderView, b: OrderView) -> bool {
    match side {
        Side::BUY => a.price > b.price || (a.price == b.price && a.sequence < b.sequence),
        Side::SELL => a.price < b.price || (a.price == b.price && a.sequence < b.sequence),
    }
}

/// Whether `s` is strictly in price-time priority order.
pub open spec fn sorted(side: Side, s: Seq<OrderView>) -> bool {
    forall|i: int, j: int| 0 <= i < j < s.len() ==> ahead(side, #[trigger] s[i], #[trigger] s[j])
}

/// Whether `a` is `b` with possibly another remaining quantity.
pub open spec fn like(a: OrderView, b: OrderView) -> bool {
    a == (OrderView { quantity: a.quantity, ..b })
}

/// A well-formed ledger of `side`: in priority order, and every order a resting
/// limit order of that side with a positive quantity.
pub open spec fn ledger_wf(side: Side, s: Seq<OrderView>) -> bool {
    &&& sorted(side, s)
    &&& forall|i: int|
        0 <= i < s.len() ==> {
            &&& (#[trigger] s[i]).side == side
            &&& s[i].quantity > 0
            &&& s[i].order_type == OrderType::LIMIT_ORDER
            &&& s[i].status == TransactionType::NEW
        }
}

pub open spec fn has_key(s: Seq<OrderView>, client: u64, order_id: u64) -> bool {
    exists|i: int| 0 <= i < s.len() && (#[trigger] s[i]).client == client && s[i].order_id == order_id
}

/// The index of the first order of `s` with the key `(client, order_id)`, or -1.
pub open spec fn index_of_key(s: Seq<OrderView>, client: u64, order_id: u64) -> int
    decreases s.len(),
{
    if s.len() == 0 {
        -1
    } else {
        let p = index_of_key(s.drop_last(), client, order_id);
        if p >= 0 {
            p
        } else if s.last().client == client && s.last().order_id == order_id {
            s.len() - 1
        } else {
            -1
        }
    }
}

/// Whether a resting order `rest` can trade with the incoming order `inc`.
pub open spec fn crosses(inc: OrderView, rest: OrderView) -> bool {
    inc.order_type == OrderType::MARKET_ORDER || match inc.side {
        Side::BUY => rest.price <= inc.price,
        Side::SELL => rest.price >= inc.price,
    }
}

pub open spec fn min_u64(a: u64, b: u64) -> u64 {
    if a <= b {
        a
    } else {
        b
    }
}

/// The trade of `quantity` between `rest` and `inc`, at the resting price.
pub open spec fn trade_event(rest: OrderView, inc: OrderView, quantity: u64) -> Event {
    Event::Trade {
        resting_client: rest.client,
        resting_order_id: rest.order_id,
        incoming_client: inc.client,
        incoming_order_id: inc.order_id,
        price: rest.price,
        quantity,
    }
}

/// Matching of `inc` against the opposite ledger `opp`: the quantity of `inc`
/// left, the opposite ledger afterwards and the trades, in order.
pub open spec fn match_spec(inc: OrderView, opp: Seq<OrderView>) -> (u64, Seq<OrderView>, Seq<Event>)
    decreases opp.len(),
{
    if inc.quantity == 0 || opp.len() == 0 || !crosses(inc, opp[0]) {
        (inc.quantity, opp, Seq::empty())
    } else {
        let rest = opp[0];
        let q = min_u64(inc.quantity, rest.quantity);
        let t = trade_event(rest, inc, q);
        if q == rest.quantity {
            let sub = match_spec(
                OrderView { quantity: (inc.quantity - q) as u64, ..inc },
                opp.drop_first(),
            );
            (sub.0, sub.1, seq![t] + sub.2)
        } else {
            (
                (inc.quantity - q) as u64,
                opp.update(0, OrderView { quantity: (rest.quantity - q) as u64, ..rest }),
                seq![t],
            )
        }
    }
}

/// Where `o` goes in the `side` ledger `s`: after every order it is not ahead of.
pub open spec fn insert_pos(side: Side, s: Seq<OrderView>, o: OrderView) -> int
    decreases s.len(),
{
    if s.len() > 0 && ahead(side, o, s.last()) {
        insert_pos(side, s.drop_last(), o)
    } else {
        s.len() as int
    }
}

/// `s` with `o` inserted at its priority position.
pub open spec fn insert_sorted(side: Side, s: Seq<OrderView>, o: OrderView) -> Seq<OrderView> {
    s.insert(insert_pos(side, s, o), o)
}

/// The total quantity of the orders of `s` at `price`.
pub open spec fn level_sum(s: Seq<OrderView>, price: u64) -> int
    decreases s.len(),
{
    if s.len() == 0 {
        0
    } else {
        level_sum(s.drop_last(), price) + if s.last().price == price {
            s.last().quantity as int
        } else {
            0
        }
    }
}

/// The top of a ledger: the price of its first order and the total quantity at
/// that price, or `None` when it is empty.
pub open spec fn top_spec(s: Seq<OrderView>) -> Option<Quote> {
    if s.len() == 0 {
        None
    } else {
        Some(Quote { price: s[0].price, quantity: level_sum(s, s[0].price) as u128 })
    }
}

pub proof fn lemma_level_sum_bound(s: Seq<OrderView>, price: u64)
    ensures
        0 <= level_sum(s, price) <= s.len() * (u64::MAX as int),
    decreases s.len(),
{
    if s.len() > 0 {
        lemma_level_sum_bound(s.drop_last(), price);
    }
}

/// `t` is a suffix of `s` whose orders have kept some positive quantity.
#[verifier::opaque]
pub open spec fn positive_like_suffix(s: Seq<OrderView>, t: Seq<OrderView>) -> bool {
    let d = s.len() - t.len();
    &&& 0 <= d
    &&& forall|i: int| 0 <= i < t.len() ==> like(#[trigger] t[i], s[i + d])
    &&& forall|i: int| 0 <= i < t.len() ==> (#[trigger] t[i]).quantity > 0
}

/// What matching leaves of the opposite ledger is a suffix of it, where orders
/// may have lost quantity but kept some.
pub proof fn lemma_match_suffix(inc: OrderView, opp: Seq<OrderView>)
    requires
        forall|i: int| 0 <= i < opp.len() ==> (#[trigger] opp[i]).quantity > 0,
    ensures
        positive_like_suffix(opp, match_spec(inc, opp).1),
    decreases opp.len(),
{
    reveal(positive_like_suffix);
    if inc.quantity == 0 || opp.len() == 0 || !crosses(inc, opp[0]) {
        assert(forall|i: int| 0 <= i < opp.len() ==> like(#[trigger] opp[i], opp[i]));
    } else {
        let rest = opp[0];
        let q = min_u64(inc.quantity, rest.quantity);
        if q == rest.quantity {
            let inc2 = OrderView { quantity: (inc.quantity - q) as u64, ..inc };
            let t = opp.drop_first();
            assert(forall|i: int| 0 <= i < t.len() ==> #[trigger] t[i] == opp[i + 1]);
            lemma_match_suffix(inc2, t);
        } else {
            let t = match_spec(inc, opp).1;
            assert(forall|i: int| 0 < i < t.len() ==> #[trigger] t[i] == opp[i]);
            assert(like(t[0], opp[0]));
        }
    }
}

/// Matching stops with quantity left only when the opposite ledger is used up or
/// its best order no longer crosses.
pub proof fn lemma_match_stop(inc: OrderView, opp: Seq<OrderView>)
    ensures
        ({
            let m = match_spec(inc, opp);
            m.0 > 0 ==> m.1.len() == 0 || !crosses(inc, m.1[0])
        }),
    decreases opp.len(),
{
    if inc.quantity == 0 || opp.len() == 0 || !crosses(inc, opp[0]) {
    } else {
        let q = min_u64(inc.quantity, opp[0].quantity);
        if q == opp[0].quantity {
            let inc2 = OrderView { quantity: (inc.quantity - q) as u64, ..inc };
            lemma_match_stop(inc2, opp.drop_first());
            let m2 = match_spec(inc2, opp.drop_first());
            if m2.0 > 0 && m2.1.len() > 0 {
                assert(crosses(inc2, m2.1[0]) == crosses(inc, m2.1[0]));
            }
        }
    }
}

/// Every event of a match is a trade between the `k`-th order of the opposite
/// ledger and the incoming order, at the resting price.
pub proof fn lemma_match_trades(inc: OrderView, opp: Seq<OrderView>)
    ensures
        ({
            let m = match_spec(inc, opp);
            &&& m.2.len() <= opp.len()
            &&& forall|k: int|
                0 <= k < m.2.len() ==> {
                    &&& (#[trigger] m.2[k]) is Trade
                    &&& m.2[k]->resting_client == opp[k].client
                    &&& m.2[k]->resting_order_id == opp[k].order_id
                    &&& m.2[k]->incoming_client == inc.client
                    &&& m.2[k]->incoming_order_id == inc.order_id
                    &&& m.2[k]->price == opp[k].price
                    &&& crosses(inc, opp[k])
                }
        }),
    decreases opp.len(),
{
    if inc.quantity == 0 || opp.len() == 0 || !crosses(inc, opp[0]) {
    } else {
        let rest = opp[0];
        let q = min_u64(inc.quantity, rest.quantity);
        if q == rest.quantity {
            let inc2 = OrderView { quantity: (inc.quantity - q) as u64, ..inc };
            lemma_match_trades(inc2, opp.drop_first());
            let m2 = match_spec(inc2, opp.drop_first());
            let t = trade_event(rest, inc, q);
            assert forall|k: int| 1 <= k < m2.2.len() + 1 implies (seq![t] + m2.2)[k] == m2.2[k - 1]
                && opp[k] == opp.drop_first()[k - 1] by {}
            assert(forall|k: int| 1 <= k < m2.2.len() + 1 ==> crosses(inc2, #[trigger] opp[k]) ==> crosses(inc, opp[k]));
        }
    }
}

/// `insert_pos` splits a sorted ledger into the orders ahead of `o` and those behind it.
pub proof fn lemma_insert_pos(side: Side, s: Seq<OrderView>, o: OrderView)
    requires
        sorted(side, s),
        forall|j: int| 0 <= j < s.len() ==> (#[trigger] s[j]).sequence < o.sequence,
    ensures
        0 <= insert_pos(side, s, o) <= s.len(),
        forall|j: int| 0 <= j < insert_pos(side, s, o) ==> ahead(side, #[trigger] s[j], o),
        forall|j: int| insert_pos(side, s, o) <= j < s.len() ==> ahead(side, o, #[trigger] s[j]),
    decreases s.len(),
{
    if s.len() > 0 {
        let t = s.drop_last();
        assert(forall|j: int| 0 <= j < t.len() ==> t[j] == s[j]);
        if ahead(side, o, s.last()) {
            lemma_insert_pos(side, t, o);
        } else {
            assert(ahead(side, s.last(), o));
            assert forall|j: int| 0 <= j < s.len() implies ahead(side, #[trigger] s[j], o) by {
                if j < s.len() - 1 {
                    assert(ahead(side, s[j], s[s.len() - 1]));
                }
            }
        }
    }
}

/// `index_of_key` finds a key exactly when `s` holds it, and points at an order with it.
pub proof fn lemma_index_of_key(s: Seq<OrderView>, client: u64, order_id: u64)
    ensures
        -1 <= index_of_key(s, client, order_id) < s.len(),
        index_of_key(s, client, order_id) >= 0 <==> has_key(s, client, order_id),
        index_of_key(s, client, order_id) >= 0 ==> s[index_of_key(s, client, order_id)].client
            == client && s[index_of_key(s, client, order_id)].order_id == order_id,
    decreases s.len(),
{
    if s.len() > 0 {
        let t = s.drop_last();
        lemma_index_of_key(t, client, order_id);
        assert(forall|j: int| 0 <= j < t.len() ==> t[j] == s[j]);
        if has_key(s, client, order_id) {
            let j = choose|j: int|
                0 <= j < s.len() && (#[trigger] s[j]).client == client && s[j].order_id == order_id;
            if j < t.len() {
                assert(t[j] == s[j]);
            }
        }
    }
}

/// Whether `inc` can trade with `rest`.
pub fn crosses_exec(inc: &Order, rest: &Order) -> (r: bool)
    ensures
        r == crosses(inc@, rest@),
{
    match inc.order_type {
        OrderType::MARKET_ORDER => true,
        OrderType::LIMIT_ORDER => match inc.side {
            Side::BUY => rest.price <= inc.price,
            Side::SELL => rest.price >= inc.price,
        },
    }
}

/// Matches `inc` against the opposite ledger `opp`, best order first, and appends
/// the trades to `events`.
pub fn match_order(inc: &mut Order, opp: &mut Vec<Order>, events: &mut Vec<Event>)
    ensures
        ({
            let m = match_spec(old(inc)@, lview(old(opp)@));
            &&& final(inc)@ == (OrderView { quantity: m.0, ..old(inc)@ })
            &&& lview(final(opp)@) == m.1
            &&& final(events)@ == old(events)@ + m.2
        }),
{
    let ghost inc0 = inc@;
    let ghost opp0 = lview(opp@);
    let ghost ev0 = events@;
    while inc.quantity > 0 && opp.len() > 0 && crosses_exec(inc, &opp[0])
        invariant
            inc@ == (OrderView { quantity: inc.quantity, ..inc0 }),
            match_spec(inc0, opp0).0 == match_spec(inc@, lview(opp@)).0,
            match_spec(inc0, opp0).1 == match_spec(inc@, lview(opp@)).1,
            ev0 + match_spec(inc0, opp0).2 == events@ + match_spec(inc@, lview(opp@)).2,
        decreases opp@.len() + if inc.quantity > 0 {
            1int
        } else {
            0int
        },
    {
        let ghost before = lview(opp@);
        let ghost inc_before = inc@;
        let rq = opp[0].quantity;
        let q = if inc.quantity <= rq {
            inc.quantity
        } else {
            rq
        };
        events.push(
            Event::Trade {
                resting_client: opp[0].client,
                resting_order_id: opp[0].order_id,
                incoming_client: inc.client,
                incoming_order_id: inc.order_id,
                price: opp[0].price,
                quantity: q,
            },
        );
        assert(before[0] == opp@[0]@);
        let mut rest = opp.remove(0);
        inc.quantity = inc.quantity - q;
        if q == rq {
            assert(lview(opp@) =~= before.drop_first());
        } else {
            rest.quantity = rq - q;
            opp.insert(0, rest);
            assert(lview(opp@) =~= before.update(
                0,
                OrderView { quantity: (before[0].quantity - q) as u64, ..before[0] },
            ));
        }
        assert(ev0 + match_spec(inc0, opp0).2 == events@ + match_spec(inc@, lview(opp@)).2) by {
            let t = trade_event(before[0], inc_before, q);
            assert(match_spec(inc_before, before).2 == seq![t] + match_spec(inc@, lview(opp@)).2);
            assert(events@ == events@.drop_last().push(t));
            assert(events@.drop_last() + (seq![t] + match_spec(inc@, lview(opp@)).2) =~= events@
                + match_spec(inc@, lview(opp@)).2);
        }
    }
}

/// Inserts `o` into the `side` ledger `v` at its priority position.
pub fn insert_order(side: Side, v: &mut Vec<Order>, o: Order)
    ensures
        lview(final(v)@) == insert_sorted(side, lview(old(v)@), o@),
{
    let ghost s = lview(v@);
    let mut i = v.len();
    assert(s.take(i as int) =~= s);
    while i > 0 && ahead_exec(side, &o, &v[i - 1])
        invariant
            i <= v@.len(),
            s == lview(v@),
            insert_pos(side, s, o@) == insert_pos(side, s.take(i as int), o@),
        decreases i,
    {
        assert(s.take(i as int).drop_last() =~= s.take(i - 1));
        i -= 1;
    }
    v.insert(i, o);
    assert(lview(v@) =~= s.insert(i as int, o@));
}

/// Whether `a` comes before `b` in the `side` ledger.
pub fn ahead_exec(side: Side, a: &Order, b: &Order) -> (r: bool)
    ensures
        r == ahead(side, a@, b@),
{
    match side {
        Side::BUY => a.price > b.price || (a.price == b.price && a.sequence < b.sequence),
        Side::SELL => a.price < b.price || (a.price == b.price && a.sequence < b.sequence),
    }
}

/// The index of the first order of `v` with key `(client, order_id)`.
pub fn find_key(v: &Vec<Order>, client: u64, order_id: u64) -> (r: Option<usize>)
    ensures
        match r {
            Some(i) => i as int == index_of_key(lview(v@), client, order_id),
            None => index_of_key(lview(v@), client, order_id) == -1,
        },
{
    let ghost s = lview(v@);
    let mut i: usize = 0;
    while i < v.len()
        invariant
            i <= v@.len(),
            s == lview(v@),
            index_of_key(s.take(i as int), client, order_id) == -1,
        decreases v@.len() - i,
    {
        assert(s.take(i + 1).drop_last() =~= s.take(i as int));
        if v[i].client == client && v[i].order_id == order_id {
            proof {
                lemma_index_of_key(s.take(i + 1), client, order_id);
                lemma_prefix_index(s, i + 1, client, order_id);
            }
            return Some(i);
        }
        i += 1;
    }
    assert(s.take(i as int) =~= s);
    None
}

/// A key found in a prefix is found at the same index in the whole ledger.
proof fn lemma_prefix_index(s: Seq<OrderView>, n: int, client: u64, order_id: u64)
    requires
        0 <= n <= s.len(),
        index_of_key(s.take(n), client, order_id) >= 0,
    ensures
        index_of_key(s, client, order_id) == index_of_key(s.take(n), client, order_id),
    decreases s.len() - n,
{
    if n < s.len() {
        assert(s.take(n + 1).drop_last() =~= s.take(n));
        lemma_prefix_index(s, n + 1, client, order_id);
    } else {
        assert(s.take(n) =~= s);
    }
}

/// The top of the ledger `v`.
pub fn top_quote(v: &Vec<Order>) -> (r: Option<Quote>)
    ensures
        r == top_spec(lview(v@)),
{
    let ghost s = lview(v@);
    if v.len() == 0 {
        return None;
    }
    let price = v[0].price;
    let mut total: u128 = 0;
    let mut i: usize = 0;
    while i < v.len()
        invariant
            i <= v@.len(),
            s == lview(v@),
            price == s[0].price,
            total as int == level_sum(s.take(i as int), price),
        decreases v@.len() - i,
    {
        assert(s.take(i + 1).drop_last() =~= s.take(i as int));
        proof {
            lemma_level_sum_bound(s.take(i as int), price);
            let n = i as int;
            assert(n * (u64::MAX as int) + (u64::MAX as int) <= u128::MAX) by (nonlinear_arith)
                requires
                    0 <= n < 0x1_0000_0000_0000_0000int,
            ;
        }
        if v[i].price == price {
            total = total + v[i].quantity as u128;
        }
        i += 1;
    }
    assert(s.take(i as int) =~= s);
    Some(Quote { price, quantity: total })
}

} // verus!
