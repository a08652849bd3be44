use vstd::prelude::*;
use crate::types::{OrderType, Side, TransactionType};

verus! {

/// The marker that starts a comment record.
pub const SKIP_LINE_CHAR: char = '#';

/// The field separator of a record.
pub const CSV_COLUMN_SEPARATOR: char = ',';

/// The number of fields of a new-order record.
pub const NEW_ORDER_COLUMN_COUNT: usize = 7;

/// The number of fields of a cancel record.
pub const CANCEL_COLUMN_COUNT: usize = 3;

/// The number of fields of a flush record.
pub const FLUSH_COLUMN_COUNT: usize = 1;

/// Whitespace that is stripped around a field: the characters of the Unicode
/// White_Space property.
pub open spec fn is_space(c: char) -> bool {
    ('\u{9}' <= c && c <= '\u{D}') || c == '\u{20}' || c == '\u{85}' || c == '\u{A0}' || c
        == '\u{1680}' || ('\u{2000}' <= c && c <= '\u{200A}') || c == '\u{2028}' || c
        == '\u{2029}' || c == '\u{202F}' || c == '\u{205F}' || c == '\u{3000}'
}

/// Whether `c` is whitespace.
pub fn is_space_char(c: char) -> (r: bool)
    ensures
        r == is_space(c),
{
    ('\u{9}' <= c && c <= '\u{D}') || c == '\u{20}' || c == '\u{85}' || c == '\u{A0}' || c
        == '\u{1680}' || ('\u{2000}' <= c && c <= '\u{200A}') || c == '\u{2028}' || c
        == '\u{2029}' || c == '\u{202F}' || c == '\u{205F}' || c == '\u{3000}'
}

pub open spec fn is_digit(c: char) -> bool {
    '0' <= c && c <= '9'
}

/// The fields of a record, split on every separator, untrimmed.
pub open spec fn split_fields(s: Seq<char>) -> Seq<Seq<char>>
    decreases s.len(),
{
    if s.len() == 0 {
        seq![Seq::<char>::empty()]
    } else {
        let p = split_fields(s.drop_last());
        if s.last() == CSV_COLUMN_SEPARATOR {
            p.push(Seq::<char>::empty())
        } else {
            p.update(p.len() - 1, p.last().push(s.last()))
        }
    }
}

pub open spec fn trim_start(s: Seq<char>) -> Seq<char>
    decreases s.len(),
{
    if s.len() > 0 && is_space(s[0]) {
        trim_start(s.drop_first())
    } else {
        s
    }
}

pub open spec fn trim_end(s: Seq<char>) -> Seq<char>
    decreases s.len(),
{
    if s.len() > 0 && is_space(s.last()) {
        trim_end(s.drop_last())
    } else {
        s
    }
}

/// `s` without leading and trailing whitespace.
pub open spec fn trim(s: Seq<char>) -> Seq<char> {
    trim_end(trim_start(s))
}

/// The `k`-th field of record `s`, trimmed.
pub open spec fn field(s: Seq<char>, k: int) -> Seq<char> {
    trim(split_fields(s)[k])
}

pub open spec fn digit_value(c: char) -> nat {
    (c as int - '0' as int) as nat
}

pub open spec fn all_digits(s: Seq<char>) -> bool {
    forall|i: int| 0 <= i < s.len() ==> is_digit(#[trigger] s[i])
}

/// The number that the decimal digits `s` denote.
pub open spec fn digits_value(s: Seq<char>) -> nat
    decreases s.len(),
{
    if s.len() == 0 {
        0
    } else {
        digits_value(s.drop_last()) * 10 + digit_value(s.last())
    }
}

/// An unsigned 64-bit decimal number: one or more digits whose value fits.
pub open spec fn parse_u64_spec(s: Seq<char>) -> Option<u64> {
    if s.len() > 0 && all_digits(s) && digits_value(s) <= u64::MAX {
        Some(digits_value(s) as u64)
    } else {
        None
    }
}

/// A tagged price: `<>` then digits is a limit price, bare digits a market order.
pub open spec fn parse_price_spec(s: Seq<char>) -> Option<(OrderType, u64)> {
    if s.len() >= 2 && s[0] == '<' && s[1] == '>' {
        match parse_u64_spec(s.subrange(2, s.len() as int)) {
            Some(p) => Some((OrderType::LIMIT_ORDER, p)),
            None => None,
        }
    } else {
        match parse_u64_spec(s) {
            Some(p) => Some((OrderType::MARKET_ORDER, p)),
            None => None,
        }
    }
}

pub open spec fn parse_side_spec(s: Seq<char>) -> Option<Side> {
    if s == seq!['B'] {
        Some(Side::BUY)
    } else if s == seq!['S'] {
        Some(Side::SELL)
    } else {
        None
    }
}

pub open spec fn parse_kind_spec(s: Seq<char>) -> Option<TransactionType> {
    if s == seq!['N'] {
        Some(TransactionType::NEW)
    } else if s == seq!['C'] {
        Some(TransactionType::CAN)
    } else if s == seq!['F'] {
        Some(TransactionType::FLU)
    } else {
        None
    }
}

pub proof fn lemma_split_nonempty(s: Seq<char>)
    ensures
        split_fields(s).len() >= 1,
    decreases s.len(),
{
    if s.len() > 0 {
        lemma_split_nonempty(s.drop_last());
    }
}

proof fn lemma_value_prefix(s: Seq<char>, n: int)
    requires
        0 <= n <= s.len(),
        all_digits(s),
    ensures
        digits_value(s.take(n)) <= digits_value(s),
    decreases s.len() - n,
{
    if n < s.len() {
        lemma_value_prefix(s, n + 1);
        assert(s.take(n + 1).drop_last() =~= s.take(n));
    } else {
        assert(s.take(n) =~= s);
    }
}

/// The characters of a line.
pub fn line_chars(line: &String) -> (r: Vec<char>)
    ensures
        r@ == line@,
{
    let s = line.as_str();
    let n = s.unicode_len();
    let mut r: Vec<char> = Vec::new();
    let mut i: usize = 0;
    while i < n
        invariant
            n == s@.len(),
            s@ == line@,
            i <= n,
            r@ == s@.take(i as int),
        decreases n - i,
    {
        let c = s.get_char(i);
        r.push(c);
        i += 1;
        assert(r@ =~= s@.take(i as int));
    }
    assert(r@ =~= s@);
    r
}

/// The spans `[start, end)` of the untrimmed fields of `s`.
pub fn split_spans(s: &Vec<char>) -> (r: Vec<(usize, usize)>)
    ensures
        r@.len() == split_fields(s@).len(),
        forall|k: int| 0 <= k < r@.len() ==> #[trigger] r@[k].0 <= r@[k].1 <= s@.len(),
        forall|k: int|
            0 <= k < r@.len() ==> s@.subrange(r@[k].0 as int, r@[k].1 as int) == #[trigger] split_fields(
                s@,
            )[k],
{
    let mut r: Vec<(usize, usize)> = Vec::new();
    let mut start: usize = 0;
    let mut i: usize = 0;
    while i < s.len()
        invariant
            start <= i <= s@.len(),
            split_fields(s@.take(i as int)).len() == r@.len() + 1,
            split_fields(s@.take(i as int))[r@.len() as int] == s@.subrange(start as int, i as int),
            forall|k: int| 0 <= k < r@.len() ==> #[trigger] r@[k].0 <= r@[k].1 <= i,
            forall|k: int|
                0 <= k < r@.len() ==> s@.subrange(r@[k].0 as int, r@[k].1 as int)
                    == #[trigger] split_fields(s@.take(i as int))[k],
        decreases s@.len() - i,
    {
        let ghost prev = s@.take(i as int);
        let ghost p = split_fields(prev);
        let ghost r0 = r@;
        let ghost (s0, i0) = (start as int, i as int);
        assert(s@.take(i + 1).drop_last() =~= prev);
        if s[i] == CSV_COLUMN_SEPARATOR {
            r.push((start, i));
            start = i + 1;
        } else {
            assert(s@.subrange(start as int, i as int).push(s@[i as int]) =~= s@.subrange(
                start as int,
                i + 1,
            ));
        }
        i += 1;
        assert forall|k: int| 0 <= k < r@.len() implies s@.subrange(r@[k].0 as int, r@[k].1 as int)
            == #[trigger] split_fields(s@.take(i as int))[k] by {
            assert(split_fields(s@.take(i as int))[k] == split_fields(prev)[k]);
            if k < r0.len() {
                assert(r@[k] == r0[k]);
            } else {
                assert(r@[k] == (s0 as usize, i0 as usize));
            }
        }
        assert(s@.subrange(start as int, i as int) =~= s@.subrange(start as int, i as int));
    }
    assert(s@.take(i as int) =~= s@);
    let ghost r0 = r@;
    assert(split_fields(s@)[r0.len() as int] == s@.subrange(start as int, i as int));
    r.push((start, i));
    assert(forall|k: int| 0 <= k < r0.len() ==> r@[k] == r0[k]);
    r
}

/// Narrows the span `[a, b)` of `s` to its trimmed content.
pub fn trim_span(s: &Vec<char>, a: usize, b: usize) -> (r: (usize, usize))
    requires
        a <= b <= s@.len(),
    ensures
        a <= r.0 <= r.1 <= b,
        s@.subrange(r.0 as int, r.1 as int) == trim(s@.subrange(a as int, b as int)),
{
    let mut x = a;
    while x < b && is_space_char(s[x])
        invariant
            a <= x <= b <= s@.len(),
            trim_start(s@.subrange(a as int, b as int)) == trim_start(s@.subrange(x as int, b as int)),
        decreases b - x,
    {
        assert(s@.subrange(x as int, b as int).drop_first() =~= s@.subrange(x + 1, b as int));
        x += 1;
    }
    let mut y = b;
    while y > x && is_space_char(s[y - 1])
        invariant
            a <= x <= y <= b <= s@.len(),
            trim_end(s@.subrange(x as int, b as int)) == trim_end(s@.subrange(x as int, y as int)),
        decreases y - x,
    {
        assert(s@.subrange(x as int, y as int).drop_last() =~= s@.subrange(x as int, y - 1));
        y -= 1;
    }
    (x, y)
}

/// Parses the span `[a, b)` of `s` as an unsigned 64-bit decimal number.
pub fn parse_u64_span(s: &Vec<char>, a: usize, b: usize) -> (r: Option<u64>)
    requires
        a <= b <= s@.len(),
    ensures
        r == parse_u64_spec(s@.subrange(a as int, b as int)),
{
    let ghost t = s@.subrange(a as int, b as int);
    if a == b {
        return None;
    }
    let mut acc: u64 = 0;
    let mut i = a;
    while i < b
        invariant
            a <= i <= b <= s@.len(),
            t == s@.subrange(a as int, b as int),
            all_digits(t.take(i - a)),
            digits_value(t.take(i - a)) == acc,
        decreases b - i,
    {
        let c = s[i];
        assert(t[i - a] == c);
        if !('0' <= c && c <= '9') {
            return None;
        }
        let d = (c as u32 - '0' as u32) as u64;
        assert(t.take(i - a + 1).drop_last() =~= t.take(i - a));
        let next: u128 = acc as u128 * 10 + d as u128;
        if next > u64::MAX as u128 {
            proof {
                if all_digits(t) {
                    lemma_value_prefix(t, i - a + 1);
                }
            }
            return None;
        }
        acc = next as u64;
        i += 1;
    }
    assert(t.take(i - a) =~= t);
    Some(acc)
}

/// Parses the span `[a, b)` of `s` as a tagged price.
pub fn parse_price_span(s: &Vec<char>, a: usize, b: usize) -> (r: Option<(OrderType, u64)>)
    requires
        a <= b <= s@.len(),
    ensures
        r == parse_price_spec(s@.subrange(a as int, b as int)),
{
    let ghost t = s@.subrange(a as int, b as int);
    if b - a >= 2 && s[a] == '<' && s[a + 1] == '>' {
        assert(t.subrange(2, t.len() as int) =~= s@.subrange(a + 2, b as int));
        match parse_u64_span(s, a + 2, b) {
            Some(p) => Some((OrderType::LIMIT_ORDER, p)),
            None => None,
        }
    } else {
        match parse_u64_span(s, a, b) {
            Some(p) => Some((OrderType::MARKET_ORDER, p)),
            None => None,
        }
    }
}

/// Parses the span `[a, b)` of `s` as a side code.
pub fn parse_side_span(s: &Vec<char>, a: usize, b: usize) -> (r: Option<Side>)
    requires
        a <= b <= s@.len(),
    ensures
        r == parse_side_spec(s@.subrange(a as int, b as int)),
{
    let ghost t = s@.subrange(a as int, b as int);
    if b - a == 1 && s[a] == 'B' {
        assert(t =~= seq!['B']);
        Some(Side::BUY)
    } else if b - a == 1 && s[a] == 'S' {
        assert(t =~= seq!['S']);
        assert(seq!['S'][0] != seq!['B'][0]);
        Some(Side::SELL)
    } else {
        proof {
            if t.len() == 1 {
                assert(t[0] == s@[a as int]);
                assert(seq!['B'][0] == 'B' && seq!['S'][0] == 'S');
            }
            assert(seq!['B'].len() == 1 && seq!['S'].len() == 1);
        }
        None
    }
}

/// Parses the span `[a, b)` of `s` as a transaction kind code.
pub fn parse_kind_span(s: &Vec<char>, a: usize, b: usize) -> (r: Option<TransactionType>)
    requires
        a <= b <= s@.len(),
    ensures
        r == parse_kind_spec(s@.subrange(a as int, b as int)),
{
    let ghost t = s@.subrange(a as int, b as int);
    if b - a == 1 && s[a] == 'N' {
        assert(t =~= seq!['N']);
        Some(TransactionType::NEW)
    } else if b - a == 1 && s[a] == 'C' {
        assert(t =~= seq!['C']);
        assert(seq!['C'][0] != seq!['N'][0]);
        Some(TransactionType::CAN)
    } else if b - a == 1 && s[a] == 'F' {
        assert(t =~= seq!['F']);
        assert(seq!['F'][0] != seq!['N'][0] && seq!['F'][0] != seq!['C'][0]);
        Some(TransactionType::FLU)
    } else {
        proof {
            if t.len() == 1 {
                assert(t[0] == s@[a as int]);
                assert(seq!['N'][0] == 'N' && seq!['C'][0] == 'C' && seq!['F'][0] == 'F');
            }
            assert(seq!['N'].len() == 1 && seq!['C'].len() == 1 && seq!['F'].len() == 1);
        }
        None
    }
}

} // verus!
