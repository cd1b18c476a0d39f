//! The text of dates, commodities and settlement records, as a report
//! shows them.

use crate::arith::{divide, left_over, quotient};
use crate::{Commodity, Date, Instrument, OptionType, Settlement, SettlementView};
use vstd::prelude::*;
use vstd::string::StringExecFns;

verus! {

/// The character of a decimal digit.
pub open spec fn digit_char(digit: int) -> char {
    if digit == 0 {
        '0'
    } else if digit == 1 {
        '1'
    } else if digit == 2 {
        '2'
    } else if digit == 3 {
        '3'
    } else if digit == 4 {
        '4'
    } else if digit == 5 {
        '5'
    } else if digit == 6 {
        '6'
    } else if digit == 7 {
        '7'
    } else if digit == 8 {
        '8'
    } else {
        '9'
    }
}

/// A natural number in decimal notation, without leading zeros.
pub open spec fn decimal_text(number: nat) -> Seq<char>
    decreases number,
{
    if number < 10 {
        seq![digit_char(number as int)]
    } else {
        decimal_text(number / 10).push(digit_char((number % 10) as int))
    }
}

/// `count` times the character `fill`.
pub open spec fn filled(count: int, fill: char) -> Seq<char> {
    Seq::new(
        if count > 0 {
            count as nat
        } else {
            0
        },
        |i: int| fill,
    )
}

/// An integer in decimal notation, at least `width` characters wide:
/// first the sign of a negative number, then zeros as far as they are
/// needed, then the digits.
pub open spec fn zero_padded(number: int, width: int) -> Seq<char> {
    if number < 0 {
        seq!['-'] + filled(width - 1 - decimal_text((-number) as nat).len(), '0') + decimal_text(
            (-number) as nat,
        )
    } else {
        filled(width - decimal_text(number as nat).len(), '0') + decimal_text(number as nat)
    }
}

/// An integer in decimal notation, with the sign of a negative number.
pub open spec fn integer_text(number: int) -> Seq<char> {
    zero_padded(number, 0)
}

/// A text moved to the right end of `width` characters; a longer text is
/// left as it is.
pub open spec fn right_aligned(text: Seq<char>, width: int) -> Seq<char> {
    filled(width - text.len(), ' ') + text
}

/// A text at the left end of `width` characters; a longer text is left as
/// it is.
pub open spec fn left_aligned(text: Seq<char>, width: int) -> Seq<char> {
    text + filled(width - text.len(), ' ')
}

/// A date as month, day and year, at least two digits each.
pub open spec fn date_text(date: Date) -> Seq<char> {
    zero_padded(date.month as int, 2) + seq!['/'] + zero_padded(date.day as int, 2) + seq!['/']
        + zero_padded(date.year as int, 2)
}

/// The name of a kind of contract.
pub open spec fn contract_text(contract: OptionType) -> Seq<char> {
    match contract {
        OptionType::Call => seq!['c', 'a', 'l', 'l'],
        OptionType::Put => seq!['p', 'u', 't'],
    }
}

/// The symbol of an instrument: the ticker of a stock; of an option the
/// ticker, the kind, the strike in dollars and cents, and the expiration.
pub open spec fn instrument_text(instrument: Instrument) -> Seq<char> {
    match instrument {
        Instrument::Stock(ticker) => ticker,
        Instrument::Option { ticker, contract, strike, expiration } => ticker + seq!['_']
            + contract_text(contract) + seq!['_'] + decimal_text((strike / 10000) as nat)
            + seq!['.'] + decimal_text((strike % 10000 / 100) as nat) + seq!['_'] + expiration,
    }
}

/// The row of a settlement in the settlement table: the two dates, the
/// symbol, and the profit in dollars and cents.
pub open spec fn row_text(record: SettlementView) -> Seq<char> {
    date_text(record.open) + seq![' ', '|', ' '] + date_text(record.close) + seq![' ', '|', ' ']
        + left_aligned(instrument_text(record.commodity), 25) + seq![' ', '|', ' ', '$']
        + right_aligned(integer_text(quotient(record.profit, 10000)), 5) + seq!['.']
        + zero_padded(quotient(left_over(record.profit, 10000), 100), 2)
}

fn digit_str(digit: u32) -> (text: &'static str)
    requires
        digit < 10,
    ensures
        text@ == seq![digit_char(digit as int)],
{
    proof {
        reveal_strlit("0");
        reveal_strlit("1");
        reveal_strlit("2");
        reveal_strlit("3");
        reveal_strlit("4");
        reveal_strlit("5");
        reveal_strlit("6");
        reveal_strlit("7");
        reveal_strlit("8");
        reveal_strlit("9");
    }
    let text = if digit == 0 {
        "0"
    } else if digit == 1 {
        "1"
    } else if digit == 2 {
        "2"
    } else if digit == 3 {
        "3"
    } else if digit == 4 {
        "4"
    } else if digit == 5 {
        "5"
    } else if digit == 6 {
        "6"
    } else if digit == 7 {
        "7"
    } else if digit == 8 {
        "8"
    } else {
        "9"
    };
    assert(text@ =~= seq![digit_char(digit as int)]);
    text
}

/// Appends a natural number in decimal notation.
fn push_decimal(text: &mut String, number: u32)
    ensures
        final(text)@ == old(text)@ + decimal_text(number as nat),
    decreases number,
{
    if number < 10 {
        text.append(digit_str(number));
    } else {
        push_decimal(text, number / 10);
        text.append(digit_str(number % 10));
        assert(text@ =~= old(text)@ + decimal_text(number as nat));
    }
}

/// Appends `count` times the character of `fill`.
fn push_filled(text: &mut String, count: usize, fill: &str)
    requires
        fill@.len() == 1,
    ensures
        final(text)@ == old(text)@ + filled(count as int, fill@[0]),
{
    let ghost c = fill@[0];
    assert(fill@ =~= seq![c]);
    let mut i: usize = 0;
    while i < count
        invariant
            i <= count,
            fill@ == seq![c],
            text@ == old(text)@ + filled(i as int, c),
        decreases count - i,
    {
        text.append(fill);
        i = i + 1;
        assert(text@ =~= old(text)@ + filled(i as int, c));
    }
}

/// The number of characters of a natural number in decimal notation.
fn decimal_width(number: u32) -> (width: usize)
    ensures
        width == decimal_text(number as nat).len(),
        1 <= width <= 10,
    decreases number,
{
    if number < 10 {
        1
    } else {
        let width = decimal_width(number / 10);
        proof {
            lemma_decimal_width(number as nat / 10);
        }
        width + 1
    }
}

/// A number below a power of ten has at most as many digits as that
/// power has zeros.
proof fn lemma_decimal_width(number: nat)
    requires
        number < 1_000_000_000,
    ensures
        decimal_text(number).len() <= 9,
{
    reveal_with_fuel(decimal_text, 10);
}

/// Appends an integer in decimal notation, at least `width` characters
/// wide, filled up with zeros behind the sign.
fn push_zero_padded(text: &mut String, number: i64, width: usize)
    requires
        -0x8000_0000 <= number <= 0xffff_ffff,
        width <= 64,
    ensures
        final(text)@ == old(text)@ + zero_padded(number as int, width as int),
{
    proof {
        reveal_strlit("-");
        reveal_strlit("0");
        assert("-"@ =~= seq!['-']);
        assert("0"@ =~= seq!['0']);
    }
    if number < 0 {
        let size: u32 = (-number) as u32;
        let digits = decimal_width(size);
        text.append("-");
        if width > 1 + digits {
            push_filled(text, width - 1 - digits, "0");
        } else {
            assert(filled(width - 1 - digits, '0') =~= Seq::<char>::empty());
        }
        push_decimal(text, size);
        assert(text@ =~= old(text)@ + zero_padded(number as int, width as int));
    } else {
        let size: u32 = number as u32;
        let digits = decimal_width(size);
        if width > digits {
            push_filled(text, width - digits, "0");
        } else {
            assert(filled(width - digits, '0') =~= Seq::<char>::empty());
        }
        push_decimal(text, size);
        assert(text@ =~= old(text)@ + zero_padded(number as int, width as int));
    }
}

impl Date {
    /// The date as month, day and year, at least two digits each.
    pub fn to_text(&self) -> (text: String)
        ensures
            text@ == date_text(*self),
    {
        proof {
            reveal_strlit("/");
            assert("/"@ =~= seq!['/']);
        }
        let mut text = String::new();
        push_zero_padded(&mut text, self.month as i64, 2);
        text.append("/");
        push_zero_padded(&mut text, self.day as i64, 2);
        text.append("/");
        push_zero_padded(&mut text, self.year as i64, 2);
        assert(text@ =~= date_text(*self));
        text
    }
}

impl OptionType {
    /// The name of the kind of contract.
    pub fn to_text(&self) -> (text: String)
        ensures
            text@ == contract_text(*self),
    {
        proof {
            reveal_strlit("call");
            reveal_strlit("put");
            assert("call"@ =~= seq!['c', 'a', 'l', 'l']);
            assert("put"@ =~= seq!['p', 'u', 't']);
        }
        match self {
            OptionType::Call => String::from_str("call"),
            OptionType::Put => String::from_str("put"),
        }
    }
}

impl Commodity {
    /// The symbol of the commodity.
    pub fn to_text(&self) -> (text: String)
        ensures
            text@ == instrument_text(self@),
    {
        match self {
            Commodity::Stock(ticker) => ticker.clone(),
            Commodity::Option { ticker, contract, strike, expiration } => {
                proof {
                    reveal_strlit("_");
                    reveal_strlit(".");
                    assert("_"@ =~= seq!['_']);
                    assert("."@ =~= seq!['.']);
                }
                let mut text = ticker.clone();
                text.append("_");
                let kind = contract.to_text();
                text.append(kind.as_str());
                text.append("_");
                push_decimal(&mut text, *strike / 10000);
                text.append(".");
                push_decimal(&mut text, *strike % 10000 / 100);
                text.append("_");
                text.append(expiration.as_str());
                assert(text@ =~= instrument_text(self@));
                text
            },
        }
    }
}

/// The row of a settlement in the settlement table.
pub fn settlement_row(settlement: &Settlement) -> (row: String)
    ensures
        row@ == row_text(settlement@),
{
    proof {
        reveal_strlit(" | ");
        reveal_strlit(" | $");
        reveal_strlit(".");
        reveal_strlit(" ");
        assert(" | "@ =~= seq![' ', '|', ' ']);
        assert(" | $"@ =~= seq![' ', '|', ' ', '$']);
        assert("."@ =~= seq!['.']);
        assert(" "@ =~= seq![' ']);
    }
    let mut row = settlement.open.to_text();
    row.append(" | ");
    let close = settlement.close.to_text();
    row.append(close.as_str());
    row.append(" | ");
    let symbol = settlement.commodity.to_text();
    let symbol_width = symbol.as_str().unicode_len();
    row.append(symbol.as_str());
    if symbol_width < 25 {
        push_filled(&mut row, 25 - symbol_width, " ");
    } else {
        assert(filled(25 - symbol_width, ' ') =~= Seq::<char>::empty());
    }
    row.append(" | $");
    let (dollars, rest) = divide(settlement.profit, 10000);
    let (cents, _) = divide(rest, 100);
    let mut amount = String::new();
    push_zero_padded(&mut amount, dollars as i64, 0);
    let amount_width = amount.as_str().unicode_len();
    if amount_width < 5 {
        push_filled(&mut row, 5 - amount_width, " ");
    } else {
        assert(filled(5 - amount_width, ' ') =~= Seq::<char>::empty());
    }
    row.append(amount.as_str());
    row.append(".");
    push_zero_padded(&mut row, cents as i64, 2);
    assert(row@ =~= row_text(settlement@));
    row
}

} // verus!
