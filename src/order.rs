use vstd::prelude::*;
use vstd::string::{StrSliceExecFns, StringExecFns};
use crate::types::{OrderPrimaryKey, OrderType, Side, TransactionType};
use crate::parse::{
    field, line_chars, lemma_split_nonempty, parse_kind_span, parse_kind_spec, parse_price_span,
    parse_price_spec, parse_side_span, parse_side_spec, parse_u64_span, parse_u64_spec,
    split_fields, split_spans, trim_span, CANCEL_COLUMN_COUNT, FLUSH_COLUMN_COUNT,
    NEW_ORDER_COLUMN_COUNT, SKIP_LINE_CHAR,
};

verus! {

/// One resting or incoming order.
#[derive(Debug)]
pub struct Order {
    /// Lifecycle status.
    pub status: TransactionType,
    pub client: u64,
    /// Instrument symbol.
    pub ticker: String,
    /// Limit price; informational only for a market order.
    pub price: u64,
    pub order_type: OrderType,
    /// Remaining quantity.
    pub quantity: u64,
    pub side: Side,
    pub order_id: u64,
    /// Arrival sequence, assigned by the book on acceptance; breaks ties in price.
    pub sequence: u64,
}

/// The mathematical value of an [`Order`].
pub struct OrderView {
    pub status: TransactionType,
    pub client: u64,
    pub ticker: Seq<char>,
    pub price: u64,
    pub order_type: OrderType,
    pub quantity: u64,
    pub side: Side,
    pub order_id: u64,
    pub sequence: u64,
}

impl View for Order {
    type V = OrderView;

    open spec fn view(&self) -> OrderView {
        OrderView {
            status: self.status,
            client: self.client,
            ticker: self.ticker@,
            price: self.price,
            order_type: self.order_type,
            quantity: self.quantity,
            side: self.side,
            order_id: self.order_id,
            sequence: self.sequence,
        }
    }
}

/// The columns of a new-order record, each parsed on its own; `None` where a column
/// did not parse.
pub type SerializedColumns = (
    Option<TransactionType>,
    Option<u64>,
    Option<String>,
    Option<(OrderType, u64)>,
    Option<u64>,
    Option<Side>,
    Option<u64>,
);

/// The order that complete columns describe, or `None` if a column is missing.
pub open spec fn columns_order(c: SerializedColumns) -> Option<OrderView> {
    if c.0 is Some && c.1 is Some && c.2 is Some && c.3 is Some && c.4 is Some && c.5 is Some
        && c.6 is Some {
        Some(
            OrderView {
                status: c.0->0,
                client: c.1->0,
                ticker: (c.2->0)@,
                price: (c.3->0).1,
                order_type: (c.3->0).0,
                quantity: c.4->0,
                side: c.5->0,
                order_id: c.6->0,
                sequence: 0,
            },
        )
    } else {
        None
    }
}

/// One input record, interpreted.
#[derive(Debug)]
pub enum Record {
    /// A comment, or a record that names no order: no event.
    Skip,
    /// A new order that names its key but is otherwise invalid: rejected.
    Malformed { client: u64, order_id: u64 },
    /// A valid new order.
    New(Order),
    /// A cancellation of the order with this key.
    Cancel { client: u64, order_id: u64 },
    /// A flush of the whole book.
    Flush,
}

pub enum RecordView {
    Skip,
    Malformed { client: u64, order_id: u64 },
    New(OrderView),
    Cancel { client: u64, order_id: u64 },
    Flush,
}

impl View for Record {
    type V = RecordView;

    open spec fn view(&self) -> RecordView {
        match self {
            Record::Skip => RecordView::Skip,
            Record::Malformed { client, order_id } => RecordView::Malformed {
                client: *client,
                order_id: *order_id,
            },
            Record::New(o) => RecordView::New(o@),
            Record::Cancel { client, order_id } => RecordView::Cancel {
                client: *client,
                order_id: *order_id,
            },
            Record::Flush => RecordView::Flush,
        }
    }
}

/// What a new-order record `s` (of seven fields) means, once its key parsed.
pub open spec fn new_record_spec(s: Seq<char>, client: u64, order_id: u64) -> RecordView {
    let price = parse_price_spec(field(s, 3));
    let qty = parse_u64_spec(field(s, 4));
    let side = parse_side_spec(field(s, 5));
    if price is Some && qty is Some && side is Some {
        RecordView::New(
            OrderView {
                status: TransactionType::NEW,
                client,
                ticker: field(s, 2),
                price: (price->0).1,
                order_type: (price->0).0,
                quantity: qty->0,
                side: side->0,
                order_id,
                sequence: 0,
            },
        )
    } else {
        RecordView::Malformed { client, order_id }
    }
}

/// The key that fields `i` and `j` of `s` name, if both parse.
pub open spec fn key_spec(s: Seq<char>, i: int, j: int) -> Option<(u64, u64)> {
    let c = parse_u64_spec(field(s, i));
    let id = parse_u64_spec(field(s, j));
    if c is Some && id is Some {
        Some((c->0, id->0))
    } else {
        None
    }
}

/// A record that cannot be read: rejected if fields `i` and `j` name an order,
/// dropped otherwise.
pub open spec fn reject_keyed_spec(s: Seq<char>, i: int, j: int) -> RecordView {
    match key_spec(s, i, j) {
        Some(k) => RecordView::Malformed { client: k.0, order_id: k.1 },
        None => RecordView::Skip,
    }
}

/// What the record `s` means. A new order or a cancellation with too many
/// fields, and a seven-field record of an unknown kind, are malformed: rejected
/// when they name an order.
pub open spec fn parse_record_spec(s: Seq<char>) -> RecordView {
    let n = split_fields(s).len();
    if s.len() > 0 && s[0] == SKIP_LINE_CHAR {
        RecordView::Skip
    } else {
        match parse_kind_spec(field(s, 0)) {
            Some(TransactionType::NEW) => {
                if n == NEW_ORDER_COLUMN_COUNT {
                    match key_spec(s, 1, 6) {
                        Some(k) => new_record_spec(s, k.0, k.1),
                        None => RecordView::Skip,
                    }
                } else if n > NEW_ORDER_COLUMN_COUNT {
                    reject_keyed_spec(s, 1, 6)
                } else {
                    RecordView::Skip
                }
            },
            Some(TransactionType::CAN) => {
                if n == CANCEL_COLUMN_COUNT {
                    match key_spec(s, 1, 2) {
                        Some(k) => RecordView::Cancel { client: k.0, order_id: k.1 },
                        None => RecordView::Skip,
                    }
                } else if n > CANCEL_COLUMN_COUNT {
                    reject_keyed_spec(s, 1, 2)
                } else {
                    RecordView::Skip
                }
            },
            Some(TransactionType::FLU) => {
                if n == FLUSH_COLUMN_COUNT {
                    RecordView::Flush
                } else {
                    RecordView::Skip
                }
            },
            None => {
                if n == NEW_ORDER_COLUMN_COUNT {
                    reject_keyed_spec(s, 1, 6)
                } else {
                    RecordView::Skip
                }
            },
        }
    }
}

/// The trimmed span of field `k` of `cs`, given the spans of its fields.
fn field_span(cs: &Vec<char>, spans: &Vec<(usize, usize)>, k: usize) -> (r: (usize, usize))
    requires
        k < spans@.len(),
        spans@.len() == split_fields(cs@).len(),
        forall|j: int| 0 <= j < spans@.len() ==> #[trigger] spans@[j].0 <= spans@[j].1 <= cs@.len(),
        forall|j: int|
            0 <= j < spans@.len() ==> cs@.subrange(spans@[j].0 as int, spans@[j].1 as int)
                == #[trigger] split_fields(cs@)[j],
    ensures
        r.0 <= r.1 <= cs@.len(),
        cs@.subrange(r.0 as int, r.1 as int) == field(cs@, k as int),
{
    let (a, b) = spans[k];
    assert(spans@[k as int].0 <= spans@[k as int].1 <= cs@.len());
    assert(cs@.subrange(a as int, b as int) == split_fields(cs@)[k as int]);
    trim_span(cs, a, b)
}

/// The key that fields `i` and `j` of `cs` name, if both parse.
fn field_key(cs: &Vec<char>, spans: &Vec<(usize, usize)>, i: usize, j: usize) -> (r: Option<(u64, u64)>)
    requires
        i < spans@.len(),
        j < spans@.len(),
        spans@.len() == split_fields(cs@).len(),
        forall|k: int| 0 <= k < spans@.len() ==> #[trigger] spans@[k].0 <= spans@[k].1 <= cs@.len(),
        forall|k: int|
            0 <= k < spans@.len() ==> cs@.subrange(spans@[k].0 as int, spans@[k].1 as int)
                == #[trigger] split_fields(cs@)[k],
    ensures
        r == key_spec(cs@, i as int, j as int),
{
    let (c0, c1) = field_span(cs, spans, i);
    let (i0, i1) = field_span(cs, spans, j);
    match (parse_u64_span(cs, c0, c1), parse_u64_span(cs, i0, i1)) {
        (Some(client), Some(order_id)) => Some((client, order_id)),
        _ => None,
    }
}

/// A record that cannot be read, rejected if fields `i` and `j` name an order.
fn reject_keyed(cs: &Vec<char>, spans: &Vec<(usize, usize)>, i: usize, j: usize) -> (r: Record)
    requires
        i < spans@.len(),
        j < spans@.len(),
        spans@.len() == split_fields(cs@).len(),
        forall|k: int| 0 <= k < spans@.len() ==> #[trigger] spans@[k].0 <= spans@[k].1 <= cs@.len(),
        forall|k: int|
            0 <= k < spans@.len() ==> cs@.subrange(spans@[k].0 as int, spans@[k].1 as int)
                == #[trigger] split_fields(cs@)[k],
    ensures
        r@ == reject_keyed_spec(cs@, i as int, j as int),
{
    match field_key(cs, spans, i, j) {
        Some((client, order_id)) => Record::Malformed { client, order_id },
        None => Record::Skip,
    }
}

/// Interprets one input record.
pub fn parse_record(line: &String) -> (r: Record)
    ensures
        r@ == parse_record_spec(line@),
{
    let cs = line_chars(line);
    if cs.len() > 0 && cs[0] == SKIP_LINE_CHAR {
        return Record::Skip;
    }
    let spans = split_spans(&cs);
    proof {
        lemma_split_nonempty(cs@);
    }
    let n = spans.len();
    let (k0, k1) = field_span(&cs, &spans, 0);
    match parse_kind_span(&cs, k0, k1) {
        Some(TransactionType::NEW) => {
            if n > NEW_ORDER_COLUMN_COUNT {
                return reject_keyed(&cs, &spans, 1, 6);
            }
            if n < NEW_ORDER_COLUMN_COUNT {
                return Record::Skip;
            }
            match field_key(&cs, &spans, 1, 6) {
                Some((client, order_id)) => {
                    let (t0, t1) = field_span(&cs, &spans, 2);
                    let (p0, p1) = field_span(&cs, &spans, 3);
                    let (q0, q1) = field_span(&cs, &spans, 4);
                    let (s0, s1) = field_span(&cs, &spans, 5);
                    let ticker = String::from_str(line.as_str().substring_char(t0, t1));
                    let columns: SerializedColumns = (
                        Some(TransactionType::NEW),
                        Some(client),
                        Some(ticker),
                        parse_price_span(&cs, p0, p1),
                        parse_u64_span(&cs, q0, q1),
                        parse_side_span(&cs, s0, s1),
                        Some(order_id),
                    );
                    match Order::from_serialized_columns(&columns) {
                        Some(o) => Record::New(o),
                        None => Record::Malformed { client, order_id },
                    }
                },
                None => Record::Skip,
            }
        },
        Some(TransactionType::CAN) => {
            if n > CANCEL_COLUMN_COUNT {
                return reject_keyed(&cs, &spans, 1, 2);
            }
            if n < CANCEL_COLUMN_COUNT {
                return Record::Skip;
            }
            match field_key(&cs, &spans, 1, 2) {
                Some((client, order_id)) => Record::Cancel { client, order_id },
                None => Record::Skip,
            }
        },
        Some(TransactionType::FLU) => {
            if n != FLUSH_COLUMN_COUNT {
                return Record::Skip;
            }
            Record::Flush
        },
        None => {
            if n == NEW_ORDER_COLUMN_COUNT {
                reject_keyed(&cs, &spans, 1, 6)
            } else {
                Record::Skip
            }
        },
    }
}

impl Order {
    /// An order with the given fields and arrival sequence zero.
    pub fn new(
        status: TransactionType,
        client: u64,
        ticker: String,
        price: u64,
        order_type: OrderType,
        quantity: u64,
        side: Side,
        order_id: u64,
    ) -> (r: Self)
        ensures
            r@ == (OrderView {
                status,
                client,
                ticker: ticker@,
                price,
                order_type,
                quantity,
                side,
                order_id,
                sequence: 0,
            }),
    {
        Order { status, client, ticker, price, order_type, quantity, side, order_id, sequence: 0 }
    }

    /// The order that the parsed columns describe, or `None` if any column failed.
    pub fn from_serialized_columns(serialized_columns: &SerializedColumns) -> (r: Option<Self>)
        ensures
            match r {
                Some(o) => columns_order(*serialized_columns) == Some(o@),
                None => columns_order(*serialized_columns) is None,
            },
    {
        match serialized_columns {
            (
                Some(status),
                Some(client),
                Some(ticker),
                Some((order_type, price)),
                Some(quantity),
                Some(side),
                Some(order_id),
            ) => Some(
                Order::new(
                    *status,
                    *client,
                    ticker.clone(),
                    *price,
                    *order_type,
                    *quantity,
                    *side,
                    *order_id,
                ),
            ),
            _ => None,
        }
    }

    /// Parses a new-order record; `None` for a comment, a malformed record or
    /// a record of another kind.
    pub fn from(csv_line: &String) -> (r: Option<Self>)
        ensures
            match r {
                Some(o) => parse_record_spec(csv_line@) == RecordView::New(o@),
                None => !(parse_record_spec(csv_line@) is New),
            },
    {
        match parse_record(csv_line) {
            Record::New(o) => Some(o),
            _ => None,
        }
    }

    /// Whether this order has the primary key `pk`.
    pub fn is_pk(&self, pk: OrderPrimaryKey) -> (r: bool)
        ensures
            r == (self.client == pk.0 && self.order_id == pk.1),
    {
        self.client == pk.0 && self.order_id == pk.1
    }

    /// The primary key `(client, order_id)`.
    pub fn get_pk(&self) -> (r: OrderPrimaryKey)
        ensures
            r == (self.client, self.order_id),
    {
        (self.client, self.order_id)
    }

    /// Sets the remaining quantity.
    pub fn update_quantity(&mut self, new_quantity: u64)
        ensures
            final(self)@ == (OrderView { quantity: new_quantity, ..old(self)@ }),
    {
        self.quantity = new_quantity;
    }

    /// Whether the order is completely filled.
    pub fn is_empty(&self) -> (r: bool)
        ensures
            r == (self.quantity == 0),
    {
        self.quantity == 0
    }

    /// Sets the lifecycle status.
    pub fn set_order_status(&mut self, status: TransactionType)
        ensures
            final(self)@ == (OrderView { status, ..old(self)@ }),
    {
        self.status = status;
    }

    /// The lifecycle status.
    pub fn get_order_status(&self) -> (r: TransactionType)
        ensures
            r == self.status,
    {
        self.status
    }
}

} // verus!
