//! The commands that reach the book, and the line format they arrive in.
//!
//! A line holds four fields, separated by commas: the command, the side, the
//! price and the quantity.
//!
//! ```text
//! ADD,BUY,111.45,200
//! CANCEL,SELL,110,2
//! ```
//!
//! The price is read by `bigdecimal` and rounded to two fractional digits;
//! the quantity may have blanks around it, such as the end of the line.

use crate::auction::order::Qty;
use crate::price::Price;
use bigdecimal::BigDecimal;
use bigdecimal::RoundingMode;
use bigdecimal::ToPrimitive;
use vstd::prelude::*;

verus! {

/// What is to be done with an order.
#[derive(Clone, Copy, Debug, PartialEq, Eq)]
pub enum CommandType {
    Add,
    Cancel,
}

/// The side that a command speaks of.
#[derive(Clone, Copy, Debug, PartialEq, Eq)]
pub enum OrderType {
    Buy,
    Sell,
}

/// One command to the book.
#[derive(Clone, Copy, Debug, PartialEq)]
pub struct Command {
    pub command_type: CommandType,
    pub order_type: OrderType,
    pub price: Price,
    pub qty: Qty,
}

/// Why a line is no command.
#[derive(Clone, Copy, Debug, PartialEq, Eq)]
pub enum CommandError {
    /// The first field is neither `ADD` nor `CANCEL`.
    UnknownCommand,
    /// The second field is neither `BUY` nor `SELL`.
    UnknownOrderType,
    /// The line has fewer than four fields.
    MissingField,
    /// The third field is no decimal number, is written with an exponent, or
    /// does not fit a price of the book.
    BadPrice,
    /// The fourth field is no positive number of 32 bits.
    BadQuantity,
}

/// The place of the first comma of `s` at `from` or behind it, or the end of
/// `s` where there is none.
pub open spec fn comma_at(s: Seq<u8>, from: int) -> int
    decreases s.len() - from,
{
    if from < 0 || from >= s.len() {
        from
    } else if s[from] == 44 {
        from
    } else {
        comma_at(s, from + 1)
    }
}

/// The place where field `k` of `s` begins; it lies behind the end of `s`
/// where `s` has no such field.
pub open spec fn field_start(s: Seq<u8>, k: nat) -> int
    decreases k,
{
    if k == 0 {
        0
    } else {
        comma_at(s, field_start(s, (k - 1) as nat)) + 1
    }
}

/// Field `k` of the line `s`, counted from 0.
pub open spec fn field(s: Seq<u8>, k: nat) -> Option<Seq<u8>> {
    let start = field_start(s, k);
    if 0 <= start <= s.len() {
        Some(s.subrange(start, comma_at(s, start)))
    } else {
        None
    }
}

/// The command that a first field names.
pub open spec fn command_type_of(f: Seq<u8>) -> Option<CommandType> {
    if f == seq![65u8, 68, 68] {
        Some(CommandType::Add)
    } else if f == seq![67u8, 65, 78, 67, 69, 76] {
        Some(CommandType::Cancel)
    } else {
        None
    }
}

/// The side that a second field names.
pub open spec fn order_type_of(f: Seq<u8>) -> Option<OrderType> {
    if f == seq![66u8, 85, 89] {
        Some(OrderType::Buy)
    } else if f == seq![83u8, 69, 76, 76] {
        Some(OrderType::Sell)
    } else {
        None
    }
}

/// A blank: a space, a tab, or one of the characters that end a line.
pub open spec fn is_blank(b: u8) -> bool {
    b == 32 || 9 <= b <= 13
}

/// The place of the first character of `s` at `from` or behind it that is no
/// blank.
pub open spec fn blanks_end(s: Seq<u8>, from: int) -> int
    decreases s.len() - from,
{
    if 0 <= from < s.len() && is_blank(s[from]) {
        blanks_end(s, from + 1)
    } else {
        from
    }
}

/// The place behind the last character of `s` in front of `to` that is no
/// blank, and not in front of `from`.
pub open spec fn blanks_begin(s: Seq<u8>, from: int, to: int) -> int
    decreases to - from,
{
    if from < to <= s.len() && is_blank(s[to - 1]) {
        blanks_begin(s, from, to - 1)
    } else {
        to
    }
}

/// `s` without the blanks at its two ends.
pub open spec fn trimmed(s: Seq<u8>) -> Seq<u8> {
    let from = blanks_end(s, 0);
    s.subrange(from, blanks_begin(s, from, s.len() as int))
}

/// Every character of `s` is a digit.
pub open spec fn all_digits(s: Seq<u8>) -> bool {
    forall|i: int| 0 <= i < s.len() ==> 48 <= #[trigger] s[i] <= 57
}

/// The number that the digits `s` write.
pub open spec fn digits_value(s: Seq<u8>) -> int
    decreases s.len(),
{
    if s.len() == 0 {
        0
    } else {
        digits_value(s.drop_last()) * 10 + (s.last() - 48)
    }
}

/// The quantity that `s` writes: digits, with or without a `+` in front,
/// for a number from 1 to the largest `Qty`.
pub open spec fn quantity_of(s: Seq<u8>) -> Option<Qty> {
    let digits = if s.len() > 0 && s[0] == 43 {
        s.skip(1)
    } else {
        s
    };
    if digits.len() > 0 && all_digits(digits) && 0 < digits_value(digits) <= Qty::MAX {
        Some(digits_value(digits) as Qty)
    } else {
        None
    }
}

/// `s` is written with an exponent.
pub open spec fn has_exponent(s: Seq<u8>) -> bool {
    exists|i: int| 0 <= i < s.len() && (#[trigger] s[i] == 101 || s[i] == 69)
}

/// The number that `bigdecimal` reads from `text`, rounded half to even to
/// two fractional digits and counted in hundredths; `None` where it reads no
/// number.
pub uninterp spec fn rounded_hundredths(text: Seq<u8>) -> Option<int>;

/// The price that a number of hundredths makes, where it is one that the
/// book accepts.
pub open spec fn price_of_hundredths(v: Option<int>) -> Option<Price> {
    match v {
        Some(h) => if i64::MIN <= h <= i64::MAX {
            Some(Price { unscaled: h as i128, scale: 2 })
        } else {
            None
        },
        None => None,
    }
}

/// The price that a third field writes.
pub open spec fn price_of(f: Seq<u8>) -> Option<Price> {
    if has_exponent(f) {
        None
    } else {
        price_of_hundredths(rounded_hundredths(f))
    }
}

/// What the line `s` says.
pub open spec fn parsed(s: Seq<u8>) -> Result<Command, CommandError> {
    match command_type_of(field(s, 0).unwrap()) {
        None => Err(CommandError::UnknownCommand),
        Some(command_type) => match field(s, 1) {
            None => Err(CommandError::MissingField),
            Some(f1) => match order_type_of(f1) {
                None => Err(CommandError::UnknownOrderType),
                Some(order_type) => match field(s, 2) {
                    None => Err(CommandError::MissingField),
                    Some(f2) => match price_of(f2) {
                        None => Err(CommandError::BadPrice),
                        Some(price) => match field(s, 3) {
                            None => Err(CommandError::MissingField),
                            Some(f3) => match quantity_of(trimmed(f3)) {
                                None => Err(CommandError::BadQuantity),
                                Some(qty) => Ok(Command { command_type, order_type, price, qty }),
                            },
                        },
                    },
                },
            },
        },
    }
}

/// Reads a decimal number with `BigDecimal::parse_bytes`, rounds it with
/// `with_scale_round` to two fractional digits, half to even, and hands back
/// the unscaled value of the result, which is then the number in hundredths.
/// `None` stands for a text that is no number and for a result beyond 128
/// bits. A text with an exponent is kept out: rounding a number with a large
/// exponent writes all its zeros out.
#[verifier::external_body]
fn read_hundredths(text: &[u8]) -> (r: Option<i128>)
    requires
        !has_exponent(text@),
    ensures
        r matches Some(v) ==> rounded_hundredths(text@) == Some(v as int),
        r is None ==> (rounded_hundredths(text@) matches Some(v) ==> v < i128::MIN || v > i128::MAX),
{
    match BigDecimal::parse_bytes(text, 10) {
        Some(number) => {
            let rounded = number.with_scale_round(2, RoundingMode::HalfEven);
            rounded.into_bigint_and_exponent().0.to_i128()
        },
        None => None,
    }
}

/// The end of the field that begins at `from`.
pub fn find_comma(line: &[u8], from: usize) -> (at: usize)
    requires
        from <= line@.len(),
    ensures
        at == comma_at(line@, from as int),
        from <= at <= line@.len(),
{
    let mut at: usize = from;
    while at < line.len() && line[at] != 44
        invariant
            from <= at <= line@.len(),
            comma_at(line@, from as int) == comma_at(line@, at as int),
        decreases line@.len() - at,
    {
        at = at + 1;
    }
    at
}

/// The command that a first field names.
pub fn read_command_type(f: &[u8]) -> (r: Option<CommandType>)
    ensures
        r == command_type_of(f@),
{
    if f.len() == 3 && f[0] == 65 && f[1] == 68 && f[2] == 68 {
        assert(f@ =~= seq![65u8, 68, 68]);
        Some(CommandType::Add)
    } else if f.len() == 6 && f[0] == 67 && f[1] == 65 && f[2] == 78 && f[3] == 67 && f[4] == 69 && f[5]
        == 76 {
        assert(f@ =~= seq![67u8, 65, 78, 67, 69, 76]);
        Some(CommandType::Cancel)
    } else {
        proof {
            let add = seq![65u8, 68, 68];
            let cancel = seq![67u8, 65, 78, 67, 69, 76];
            if f@ == add {
                assert(add.len() == 3 && add[0] == 65 && add[1] == 68 && add[2] == 68);
            }
            if f@ == cancel {
                assert(cancel.len() == 6 && cancel[0] == 67 && cancel[1] == 65 && cancel[2] == 78
                    && cancel[3] == 67 && cancel[4] == 69 && cancel[5] == 76);
            }
        }
        None
    }
}

/// The side that a second field names.
pub fn read_order_type(f: &[u8]) -> (r: Option<OrderType>)
    ensures
        r == order_type_of(f@),
{
    if f.len() == 3 && f[0] == 66 && f[1] == 85 && f[2] == 89 {
        assert(f@ =~= seq![66u8, 85, 89]);
        Some(OrderType::Buy)
    } else if f.len() == 4 && f[0] == 83 && f[1] == 69 && f[2] == 76 && f[3] == 76 {
        assert(f@ =~= seq![83u8, 69, 76, 76]);
        Some(OrderType::Sell)
    } else {
        proof {
            let buy = seq![66u8, 85, 89];
            let sell = seq![83u8, 69, 76, 76];
            if f@ == buy {
                assert(buy.len() == 3 && buy[0] == 66 && buy[1] == 85 && buy[2] == 89);
            }
            if f@ == sell {
                assert(sell.len() == 4 && sell[0] == 83 && sell[1] == 69 && sell[2] == 76 && sell[3]
                    == 76);
            }
        }
        None
    }
}

/// The number that digits write grows with every digit.
pub proof fn lemma_digits_value_grows(s: Seq<u8>, k: int)
    requires
        all_digits(s),
        0 <= k <= s.len(),
    ensures
        0 <= digits_value(s.take(k)) <= digits_value(s),
    decreases s.len() - k,
{
    if k < s.len() {
        lemma_digits_value_grows(s, k + 1);
        assert(s.take(k + 1).drop_last() =~= s.take(k));
        assert(48 <= s[k] <= 57);
        lemma_digits_value_nonnegative(s.take(k));
    } else {
        assert(s.take(k) =~= s);
        lemma_digits_value_nonnegative(s);
    }
}

/// Digits write no negative number.
pub proof fn lemma_digits_value_nonnegative(s: Seq<u8>)
    requires
        all_digits(s),
    ensures
        0 <= digits_value(s),
    decreases s.len(),
{
    if s.len() > 0 {
        assert forall|i: int| 0 <= i < s.drop_last().len() implies 48 <= #[trigger] s.drop_last()[i]
            <= 57 by {
            assert(s.drop_last()[i] == s[i]);
        }
        lemma_digits_value_nonnegative(s.drop_last());
        assert(48 <= s[s.len() - 1] <= 57);
    }
}

/// The quantity that `s` writes.
pub fn read_quantity(s: &[u8]) -> (r: Option<Qty>)
    ensures
        r == quantity_of(s@),
{
    let first: usize = if s.len() > 0 && s[0] == 43 {
        1
    } else {
        0
    };
    let ghost digits = s@.skip(first as int);
    proof {
        if first == 0 {
            assert(digits =~= s@);
        }
    }
    if first == s.len() {
        return None;
    }
    let mut value: u64 = 0;
    let mut i: usize = first;
    while i < s.len()
        invariant
            first <= i <= s@.len(),
            first < s@.len(),
            digits == s@.skip(first as int),
            digits == if s@.len() > 0 && s@[0] == 43 {
                s@.skip(1)
            } else {
                s@
            },
            all_digits(digits.take(i - first)),
            value == digits_value(digits.take(i - first)),
            value <= Qty::MAX,
        decreases s@.len() - i,
    {
        let c = s[i];
        proof {
            assert(digits[i - first] == c);
            assert(digits.take(i - first + 1).drop_last() =~= digits.take(i - first));
        }
        if c < 48 || c > 57 {
            assert(!(48 <= digits[i - first] <= 57));
            return None;
        }
        proof {
            assert forall|k: int| 0 <= k < i - first + 1 implies 48 <= #[trigger] digits.take(
                i - first + 1,
            )[k] <= 57 by {
                if k < i - first {
                    assert(digits.take(i - first)[k] == digits[k]);
                }
            }
        }
        value = value * 10 + (c - 48) as u64;
        if value > 0xffff_ffff {
            proof {
                if all_digits(digits) {
                    lemma_digits_value_grows(digits, i - first + 1);
                }
            }
            return None;
        }
        i = i + 1;
    }
    assert(digits.take(i - first) =~= digits);
    if value == 0 {
        None
    } else {
        Some(value as Qty)
    }
}

/// The price that a number of hundredths makes, where it is one that the
/// book accepts.
pub fn price_from_hundredths(v: Option<i128>) -> (r: Option<Price>)
    ensures
        r == price_of_hundredths(
            match v {
                Some(h) => Some(h as int),
                None => None,
            },
        ),
        r matches Some(p) ==> p.is_quote(),
{
    match v {
        Some(h) => {
            if -9223372036854775808i128 <= h && h <= 9223372036854775807i128 {
                Some(Price::new(h, 2))
            } else {
                None
            }
        },
        None => None,
    }
}

/// Whether `f` is written with an exponent.
pub fn find_exponent(f: &[u8]) -> (r: bool)
    ensures
        r == has_exponent(f@),
{
    let mut i: usize = 0;
    while i < f.len()
        invariant
            i <= f@.len(),
            forall|k: int| 0 <= k < i ==> !(#[trigger] f@[k] == 101 || f@[k] == 69),
        decreases f@.len() - i,
    {
        if f[i] == 101 || f[i] == 69 {
            return true;
        }
        i = i + 1;
    }
    false
}

/// The price that a third field writes.
pub fn read_price(f: &[u8]) -> (r: Option<Price>)
    ensures
        r == price_of(f@),
        r matches Some(p) ==> p.is_quote(),
{
    if find_exponent(f) {
        None
    } else {
        price_from_hundredths(read_hundredths(f))
    }
}

/// `s` without the blanks at its two ends.
pub fn trim(s: &[u8]) -> (r: &[u8])
    ensures
        r@ == trimmed(s@),
{
    let mut from: usize = 0;
    while from < s.len() && is_blank_byte(s[from])
        invariant
            from <= s@.len(),
            blanks_end(s@, 0) == blanks_end(s@, from as int),
        decreases s@.len() - from,
    {
        from = from + 1;
    }
    let mut to: usize = s.len();
    while from < to && is_blank_byte(s[to - 1])
        invariant
            from <= to <= s@.len(),
            blanks_begin(s@, from as int, s@.len() as int) == blanks_begin(s@, from as int, to as int),
        decreases to - from,
    {
        to = to - 1;
    }
    vstd::slice::slice_subrange(s, from, to)
}

/// Whether `b` is a blank.
pub fn is_blank_byte(b: u8) -> (r: bool)
    ensures
        r == is_blank(b),
{
    b == 32 || (9 <= b && b <= 13)
}

/// Reads one line as a command. The first thing that is wrong with the line,
/// going through its fields from the left, is the error.
pub fn parse_command(msg: &[u8]) -> (r: Result<Command, CommandError>)
    ensures
        r == parsed(msg@),
        r matches Ok(command) ==> command.price.is_quote() && command.qty > 0,
{
    let end0 = find_comma(msg, 0);
    let command_type = match read_command_type(vstd::slice::slice_subrange(msg, 0, end0)) {
        Some(t) => t,
        None => {
            return Err(CommandError::UnknownCommand);
        },
    };
    if end0 == msg.len() {
        return Err(CommandError::MissingField);
    }
    let start1 = end0 + 1;
    let end1 = find_comma(msg, start1);
    let order_type = match read_order_type(vstd::slice::slice_subrange(msg, start1, end1)) {
        Some(t) => t,
        None => {
            return Err(CommandError::UnknownOrderType);
        },
    };
    if end1 == msg.len() {
        return Err(CommandError::MissingField);
    }
    let start2 = end1 + 1;
    let end2 = find_comma(msg, start2);
    let price = match read_price(vstd::slice::slice_subrange(msg, start2, end2)) {
        Some(p) => p,
        None => {
            return Err(CommandError::BadPrice);
        },
    };
    if end2 == msg.len() {
        return Err(CommandError::MissingField);
    }
    let start3 = end2 + 1;
    let end3 = find_comma(msg, start3);
    let qty = match read_quantity(trim(vstd::slice::slice_subrange(msg, start3, end3))) {
        Some(q) => q,
        None => {
            return Err(CommandError::BadQuantity);
        },
    };
    Ok(Command { command_type, order_type, price, qty })
}

} // verus!
