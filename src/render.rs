use vstd::prelude::*;
use vstd::string::StringExecFns;
use crate::types::{Event, Quote, Side};

verus! {

pub open spec fn digit_char(d: nat) -> char {
    ('0' as int + d) as char
}

/// The decimal digits of `n`, without leading zeros.
pub open spec fn decimal(n: nat) -> Seq<char>
    decreases n,
{
    if n < 10 {
        seq![digit_char(n)]
    } else {
        decimal(n / 10).push(digit_char(n % 10))
    }
}

/// The separator between the fields of an output line.
pub open spec fn sep() -> Seq<char> {
    seq![',', ' ']
}

pub open spec fn side_code(side: Side) -> Seq<char> {
    match side {
        Side::BUY => seq!['B'],
        Side::SELL => seq!['S'],
    }
}

pub open spec fn quote_text(quote: Option<Quote>) -> Seq<char> {
    match quote {
        Some(q) => decimal(q.price as nat) + sep() + decimal(q.quantity as nat),
        None => seq!['-'] + sep() + seq!['-'],
    }
}

/// The output line of one event.
pub open spec fn event_line(e: Event) -> Seq<char> {
    match e {
        Event::Ack { client, order_id } => seq!['A'] + sep() + decimal(client as nat) + sep()
            + decimal(order_id as nat),
        Event::Rej { client, order_id } => seq!['R'] + sep() + decimal(client as nat) + sep()
            + decimal(order_id as nat),
        Event::Flushed => seq!['A'],
        Event::Best { side, quote } => seq!['B'] + sep() + side_code(side) + sep() + quote_text(
            quote,
        ),
        Event::Trade {
            resting_client,
            resting_order_id,
            incoming_client,
            incoming_order_id,
            price,
            quantity,
        } => seq!['T'] + sep() + decimal(resting_client as nat) + sep() + decimal(
            resting_order_id as nat,
        ) + sep() + decimal(incoming_client as nat) + sep() + decimal(incoming_order_id as nat)
            + sep() + decimal(price as nat) + sep() + decimal(quantity as nat),
    }
}

/// The lines of `s`, each ended by a newline.
pub open spec fn render_events(s: Seq<Event>) -> Seq<char>
    decreases s.len(),
{
    if s.len() == 0 {
        Seq::empty()
    } else {
        render_events(s.drop_last()) + event_line(s.last()) + seq!['\n']
    }
}

/// The output of a run that emitted `s`: nothing when `s` is empty, else an empty
/// first line followed by one line per event.
pub open spec fn output_text(s: Seq<Event>) -> Seq<char> {
    if s.len() == 0 {
        Seq::empty()
    } else {
        seq!['\n'] + render_events(s)
    }
}

fn push_digit(out: &mut String, d: u8)
    requires
        d < 10,
    ensures
        final(out)@ == old(out)@.push(digit_char(d as nat)),
{
    let s = match d {
        0 => "0",
        1 => "1",
        2 => "2",
        3 => "3",
        4 => "4",
        5 => "5",
        6 => "6",
        7 => "7",
        8 => "8",
        _ => "9",
    };
    proof {
        reveal_strlit("0");
        reveal_strlit("1");
        reveal_strlit("2");
        reveal_strlit("3");
        reveal_strlit("4");
        reveal_strlit("5");
        reveal_strlit("6");
        reveal_strlit("7");
        reveal_strlit("8");
        reveal_strlit("9");
    }
    out.append(s);
    assert(final(out)@ =~= old(out)@.push(digit_char(d as nat)));
}

/// Appends the decimal digits of `n`.
pub fn push_decimal(out: &mut String, n: u128)
    ensures
        final(out)@ == old(out)@ + decimal(n as nat),
    decreases n,
{
    let ghost start = out@;
    if n >= 10 {
        push_decimal(out, n / 10);
    }
    push_digit(out, (n % 10) as u8);
    if n >= 10 {
        assert(out@ =~= start + decimal((n / 10) as nat).push(digit_char((n % 10) as nat)));
    } else {
        assert(out@ =~= start + seq![digit_char(n as nat)]);
    }
}

fn push_sep(out: &mut String)
    ensures
        final(out)@ == old(out)@ + sep(),
{
    proof {
        reveal_strlit(", ");
    }
    out.append(", ");
    assert(final(out)@ =~= old(out)@ + sep());
}

fn push_code(out: &mut String, code: &str)
    requires
        code@.len() == 1,
    ensures
        final(out)@ == old(out)@ + code@,
{
    out.append(code);
}

/// Appends the output line of `e`, without the newline.
pub fn push_event_line(out: &mut String, e: &Event)
    ensures
        final(out)@ == old(out)@ + event_line(*e),
{
    let ghost start = out@;
    proof {
        reveal_strlit("A");
        reveal_strlit("R");
        reveal_strlit("B");
        reveal_strlit("S");
        reveal_strlit("T");
        reveal_strlit("-");
    }
    match e {
        Event::Ack { client, order_id } => {
            push_code(out, "A");
            push_sep(out);
            push_decimal(out, *client as u128);
            push_sep(out);
            push_decimal(out, *order_id as u128);
        },
        Event::Rej { client, order_id } => {
            push_code(out, "R");
            push_sep(out);
            push_decimal(out, *client as u128);
            push_sep(out);
            push_decimal(out, *order_id as u128);
        },
        Event::Flushed => {
            push_code(out, "A");
        },
        Event::Best { side, quote } => {
            push_code(out, "B");
            push_sep(out);
            match side {
                Side::BUY => push_code(out, "B"),
                Side::SELL => push_code(out, "S"),
            }
            push_sep(out);
            match quote {
                Some(q) => {
                    push_decimal(out, q.price as u128);
                    push_sep(out);
                    push_decimal(out, q.quantity);
                },
                None => {
                    push_code(out, "-");
                    push_sep(out);
                    push_code(out, "-");
                },
            }
        },
        Event::Trade {
            resting_client,
            resting_order_id,
            incoming_client,
            incoming_order_id,
            price,
            quantity,
        } => {
            push_code(out, "T");
            push_sep(out);
            push_decimal(out, *resting_client as u128);
            push_sep(out);
            push_decimal(out, *resting_order_id as u128);
            push_sep(out);
            push_decimal(out, *incoming_client as u128);
            push_sep(out);
            push_decimal(out, *incoming_order_id as u128);
            push_sep(out);
            push_decimal(out, *price as u128);
            push_sep(out);
            push_decimal(out, *quantity as u128);
        },
    }
    assert(out@ =~= start + event_line(*e));
}

/// The output text of the events `events`.
pub fn render(events: &Vec<Event>) -> (r: String)
    ensures
        r@ == output_text(events@),
{
    let mut out = String::new();
    if events.len() == 0 {
        return out;
    }
    proof {
        reveal_strlit("\n");
    }
    out.append("\n");
    let mut i: usize = 0;
    while i < events.len()
        invariant
            i <= events@.len(),
            out@ == seq!['\n'] + render_events(events@.take(i as int)),
        decreases events@.len() - i,
    {
        assert(events@.take(i + 1).drop_last() =~= events@.take(i as int));
        assert(events@.take(i + 1).last() == events@[i as int]);
        let ghost before = out@;
        push_event_line(&mut out, &events[i]);
        proof {
            reveal_strlit("\n");
        }
        out.append("\n");
        assert(out@ =~= before + event_line(events@[i as int]) + seq!['\n']);
        i += 1;
        assert(out@ =~= seq!['\n'] + render_events(events@.take(i as int)));
    }
    assert(events@.take(i as int) =~= events@);
    out
}

} // verus!
