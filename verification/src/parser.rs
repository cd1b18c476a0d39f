//! Decoding of a ledger: one transaction per line, eight fields per line,
//! separated by commas.
//!
//! The fields are a running number, the trade date as month/day/year, the
//! ticker, the price paid or received for the whole lot, the signed
//! quantity, and for an option contract its strike, its kind and its
//! expiration. On the line of a stock the strike, the kind and the
//! expiration are empty. Money is held in hundredths of a cent.

use crate::analyzer::magnitude;
use crate::arith::{divide, quotient};
use crate::text::{fields, parse_i32, parse_u8, parsed_i32, parsed_u8, same_text, split, texts};
use crate::{transaction_views, Commodity, Date, Instrument, Lot, OptionType};
use vstd::prelude::*;

verus! {

/// Why a line of the ledger was rejected.
#[derive(Debug, PartialEq, Eq, Clone, Copy, Structural)]
pub enum ParseError {
    /// The line has too few fields.
    Fields,
    /// The date is not month/day/year in numbers of at most 255.
    Date,
    /// The price is not an amount of money that a lot can hold.
    Price,
    /// The quantity is no number, or no unit price follows from it.
    Quantity,
    /// The strike is not an amount of money that a lot can hold.
    Strike,
}

/// The date that a text stands for: month, day and year, separated by `/`.
pub open spec fn date_of(text: Seq<char>) -> Option<Date> {
    let parts = fields(text, '/');
    if parts.len() < 3 {
        None
    } else {
        match (parsed_u8(parts[0]), parsed_u8(parts[1]), parsed_u8(parts[2])) {
            (Some(month), Some(day), Some(year)) => Some(Date { day, month, year }),
            _ => None,
        }
    }
}

/// The amount, in hundredths of a cent, that a text stands for: a number
/// of dollars, and after a `.` the cents. A single digit after the `.`
/// counts tens of cents.
pub open spec fn amount_of(text: Seq<char>) -> Option<int> {
    let parts = fields(text, '.');
    match parsed_i32(parts[0]) {
        None => None,
        Some(dollars) => if parts.len() > 1 {
            match parsed_i32(parts[1]) {
                None => None,
                Some(cents) => Some(
                    dollars * 10000 + cents * (if parts[1].len() == 1 {
                        1000int
                    } else {
                        100int
                    }),
                ),
            }
        } else {
            Some(dollars * 10000)
        },
    }
}

/// The price that a text stands for, where a lot can hold it.
pub open spec fn price_of(text: Seq<char>) -> Option<i32> {
    match amount_of(text) {
        Some(amount) => if i32::MIN <= amount <= i32::MAX {
            Some(amount as i32)
        } else {
            None
        },
        None => None,
    }
}

/// The price of one unit of a lot: the price of the lot divided by the
/// size of the lot, rounded towards zero.
pub open spec fn unit_price_of(total: i32, quantity: i32) -> int {
    quotient(total as int, magnitude(quantity as int))
}

/// The quantities of which a lot can be made: a lot is not empty, and its
/// size is a quantity too.
pub open spec fn tradable(quantity: i32) -> bool {
    quantity != 0 && quantity != i32::MIN
}

/// The strike that an amount stands for; a negative amount wraps around.
pub open spec fn strike_of(amount: i32) -> u32 {
    if amount >= 0 {
        amount as u32
    } else {
        (amount + 0x1_0000_0000) as u32
    }
}

/// The lot that the date, price and quantity fields of a line stand for.
pub open spec fn lot_of(date: Seq<char>, price: Seq<char>, quantity: Seq<char>) -> Result<
    Lot,
    ParseError,
> {
    match date_of(date) {
        None => Err(ParseError::Date),
        Some(date) => match price_of(price) {
            None => Err(ParseError::Price),
            Some(total) => match parsed_i32(quantity) {
                None => Err(ParseError::Quantity),
                Some(quantity) => if tradable(quantity) {
                    Ok(Lot { date, price: unit_price_of(total, quantity) as i32, quantity })
                } else {
                    Err(ParseError::Quantity)
                },
            },
        },
    }
}

/// The transaction that the fields of a stock's line stand for.
pub open spec fn stock_of(tokens: Seq<Seq<char>>) -> Result<(Instrument, Lot), ParseError> {
    if tokens.len() < 5 {
        Err(ParseError::Fields)
    } else {
        match lot_of(tokens[1], tokens[3], tokens[4]) {
            Err(error) => Err(error),
            Ok(lot) => Ok((Instrument::Stock(tokens[2]), lot)),
        }
    }
}

/// The kind of contract that a field names: a call where it says so, else
/// a put.
pub open spec fn contract_of(text: Seq<char>) -> OptionType {
    if text == seq!['c', 'a', 'l', 'l'] {
        OptionType::Call
    } else {
        OptionType::Put
    }
}

/// The transaction that the fields of an option's line stand for.
pub open spec fn option_of(tokens: Seq<Seq<char>>) -> Result<(Instrument, Lot), ParseError> {
    if tokens.len() < 8 {
        Err(ParseError::Fields)
    } else {
        match lot_of(tokens[1], tokens[3], tokens[4]) {
            Err(error) => Err(error),
            Ok(lot) => match price_of(tokens[5]) {
                None => Err(ParseError::Strike),
                Some(strike) => Ok(
                    (
                        Instrument::Option {
                            ticker: tokens[2],
                            contract: contract_of(tokens[6]),
                            strike: strike_of(strike),
                            expiration: tokens[7],
                        },
                        lot,
                    ),
                ),
            },
        }
    }
}

/// The transaction that a line stands for. A line whose kind of contract
/// is empty is the line of a stock.
pub open spec fn line_of(line: Seq<char>) -> Result<(Instrument, Lot), ParseError> {
    let tokens = fields(line, ',');
    if tokens.len() < 7 {
        Err(ParseError::Fields)
    } else if tokens[6].len() == 0 {
        stock_of(tokens)
    } else {
        option_of(tokens)
    }
}

/// A decoded transaction as a mathematical value.
pub open spec fn decoded(result: Result<(Commodity, Lot), ParseError>) -> Result<
    (Instrument, Lot),
    ParseError,
> {
    match result {
        Ok(transaction) => Ok((transaction.0@, transaction.1)),
        Err(error) => Err(error),
    }
}

/// Reads a date.
pub fn date_parse(date_raw: &str) -> (date: Option<Date>)
    ensures
        date == date_of(date_raw@),
{
    let parts = split(date_raw, '/');
    if parts.len() < 3 {
        return None;
    }
    let month = match parse_u8(parts[0]) {
        Some(month) => month,
        None => { return None; },
    };
    let day = match parse_u8(parts[1]) {
        Some(day) => day,
        None => { return None; },
    };
    let year = match parse_u8(parts[2]) {
        Some(year) => year,
        None => { return None; },
    };
    Some(Date { day, month, year })
}

/// Reads a price.
pub fn price_parse(price_raw: &str) -> (price: Option<i32>)
    ensures
        price == price_of(price_raw@),
{
    let parts = split(price_raw, '.');
    proof {
        crate::text::lemma_fields_nonempty(price_raw@, '.');
    }
    let dollars: i64 = match parse_i32(parts[0]) {
        Some(dollars) => dollars as i64,
        None => { return None; },
    };
    let cents: i64 = if parts.len() > 1 {
        match parse_i32(parts[1]) {
            Some(cents) => if parts[1].unicode_len() == 1 {
                cents as i64 * 1000
            } else {
                cents as i64 * 100
            },
            None => { return None; },
        }
    } else {
        0
    };
    let amount: i64 = dollars * 10000 + cents;
    if amount < -0x8000_0000 || amount > 0x7fff_ffff {
        None
    } else {
        Some(amount as i32)
    }
}

/// The price of one unit of a lot bought or sold for `total`.
pub fn unit_price(total: i32, quantity: i32) -> (price: i32)
    requires
        tradable(quantity),
    ensures
        price == unit_price_of(total, quantity),
{
    let size: i32 = if quantity < 0 { -quantity } else { quantity };
    divide(total, size).0
}

fn lot_parse(date: &str, price: &str, quantity: &str) -> (lot: Result<Lot, ParseError>)
    ensures
        lot == lot_of(date@, price@, quantity@),
{
    let date = match date_parse(date) {
        Some(date) => date,
        None => { return Err(ParseError::Date); },
    };
    let total = match price_parse(price) {
        Some(total) => total,
        None => { return Err(ParseError::Price); },
    };
    let quantity = match parse_i32(quantity) {
        Some(quantity) => quantity,
        None => { return Err(ParseError::Quantity); },
    };
    if quantity == 0 || quantity == i32::MIN {
        return Err(ParseError::Quantity);
    }
    Ok(Lot { date, price: unit_price(total, quantity), quantity })
}

/// Reads the transaction of a stock from the fields of its line.
pub fn stock_parse(tokens: &Vec<&str>) -> (result: Result<(Commodity, Lot), ParseError>)
    ensures
        decoded(result) == stock_of(texts(tokens@)),
{
    if tokens.len() < 5 {
        return Err(ParseError::Fields);
    }
    let lot = match lot_parse(tokens[1], tokens[3], tokens[4]) {
        Ok(lot) => lot,
        Err(error) => { return Err(error); },
    };
    Ok((Commodity::Stock(tokens[2].to_owned()), lot))
}

/// Reads the transaction of an option contract from the fields of its line.
pub fn option_parse(tokens: &Vec<&str>) -> (result: Result<(Commodity, Lot), ParseError>)
    ensures
        decoded(result) == option_of(texts(tokens@)),
{
    if tokens.len() < 8 {
        return Err(ParseError::Fields);
    }
    let lot = match lot_parse(tokens[1], tokens[3], tokens[4]) {
        Ok(lot) => lot,
        Err(error) => { return Err(error); },
    };
    let strike: u32 = match price_parse(tokens[5]) {
        Some(amount) => if amount >= 0 {
            amount as u32
        } else {
            (amount as i64 + 0x1_0000_0000) as u32
        },
        None => { return Err(ParseError::Strike); },
    };
    proof {
        reveal_strlit("call");
        assert("call"@ =~= seq!['c', 'a', 'l', 'l']);
    }
    let contract = if same_text(tokens[6], "call") {
        OptionType::Call
    } else {
        OptionType::Put
    };
    Ok(
        (
            Commodity::Option {
                ticker: tokens[2].to_owned(),
                contract,
                strike,
                expiration: tokens[7].to_owned(),
            },
            lot,
        ),
    )
}

/// Reads the transaction of one line of the ledger.
pub fn parse_line(line: &str) -> (result: Result<(Commodity, Lot), ParseError>)
    ensures
        decoded(result) == line_of(line@),
{
    let tokens = split(line, ',');
    if tokens.len() < 7 {
        return Err(ParseError::Fields);
    }
    if tokens[6].is_empty() {
        stock_parse(&tokens)
    } else {
        option_parse(&tokens)
    }
}

/// A line without the carriage return that may end it.
pub open spec fn without_return(line: Seq<char>) -> Seq<char> {
    if line.len() > 0 && line.last() == '\r' {
        line.drop_last()
    } else {
        line
    }
}

/// The lines of a text. A line ends with a line feed, or with a carriage
/// return and a line feed; the last line need not end at all.
pub open spec fn lines_of(text: Seq<char>) -> Seq<Seq<char>> {
    let pieces = fields(text, '\n');
    let ended = Seq::new((pieces.len() - 1) as nat, |i: int| without_return(pieces[i]));
    if pieces.last().len() > 0 {
        ended.push(pieces.last())
    } else {
        ended
    }
}

/// The transactions that the lines of a ledger stand for, in their order;
/// the error of the first line that stands for none.
pub open spec fn ledger_of_lines(lines: Seq<Seq<char>>) -> Result<
    Seq<(Instrument, Lot)>,
    ParseError,
>
    decreases lines.len(),
{
    if lines.len() == 0 {
        Ok(Seq::empty())
    } else {
        match ledger_of_lines(lines.drop_last()) {
            Err(error) => Err(error),
            Ok(before) => match line_of(lines.last()) {
                Err(error) => Err(error),
                Ok(transaction) => Ok(before.push(transaction)),
            },
        }
    }
}

/// The first line that is rejected decides the ledger.
pub proof fn lemma_first_error_wins(lines: Seq<Seq<char>>, count: int)
    requires
        0 <= count <= lines.len(),
        ledger_of_lines(lines.take(count)) is Err,
    ensures
        ledger_of_lines(lines) == ledger_of_lines(lines.take(count)),
    decreases lines.len(),
{
    if count == lines.len() {
        assert(lines.take(count) =~= lines);
    } else {
        assert(lines.drop_last().take(count) =~= lines.take(count));
        lemma_first_error_wins(lines.drop_last(), count);
    }
}

/// Cuts a text into its lines.
pub fn lines<'a>(text: &'a str) -> (found: Vec<&'a str>)
    ensures
        texts(found@) == lines_of(text@),
{
    let pieces = split(text, '\n');
    proof {
        crate::text::lemma_fields_nonempty(text@, '\n');
    }
    let mut found: Vec<&'a str> = Vec::new();
    let ended: usize = pieces.len() - 1;
    let mut i: usize = 0;
    while i < ended
        invariant
            ended + 1 == pieces@.len(),
            i <= ended,
            found@.len() == i,
            forall|k: int|
                0 <= k < i ==> (#[trigger] found@[k])@ == without_return(pieces@[k]@),
        decreases ended - i,
    {
        let piece: &'a str = pieces[i];
        let length = piece.unicode_len();
        if length > 0 && piece.get_char(length - 1) == '\r' {
            found.push(piece.substring_char(0, length - 1));
            assert(piece@.subrange(0, length - 1) =~= piece@.drop_last());
        } else {
            found.push(piece);
        }
        i = i + 1;
    }
    let last: &'a str = pieces[i];
    if !last.is_empty() {
        found.push(last);
    }
    proof {
        assert(texts(found@) =~= lines_of(text@));
    }
    found
}

/// Reads a ledger, one transaction per line. The first line that is
/// rejected ends the reading with its error.
pub fn parse_ledger(text: &str) -> (result: Result<Vec<(Commodity, Lot)>, ParseError>)
    ensures
        match result {
            Ok(transactions) => ledger_of_lines(lines_of(text@)) == Ok::<_, ParseError>(
                transaction_views(transactions@),
            ),
            Err(error) => ledger_of_lines(lines_of(text@)) == Err::<Seq<(Instrument, Lot)>, _>(
                error,
            ),
        },
{
    let found = lines(text);
    let ghost all = lines_of(text@);
    let mut transactions: Vec<(Commodity, Lot)> = Vec::new();
    let mut i: usize = 0;
    proof {
        assert(all.take(0) =~= Seq::<Seq<char>>::empty());
        assert(transaction_views(transactions@) =~= Seq::<(Instrument, Lot)>::empty());
    }
    while i < found.len()
        invariant
            i <= found@.len(),
            all == texts(found@),
            all == lines_of(text@),
            ledger_of_lines(all.take(i as int)) == Ok::<_, ParseError>(
                transaction_views(transactions@),
            ),
        decreases found@.len() - i,
    {
        proof {
            assert(all.take(i + 1).drop_last() =~= all.take(i as int));
            assert(all.take(i + 1).last() == found@[i as int]@);
        }
        match parse_line(found[i]) {
            Ok(transaction) => {
                let ghost before = transactions@;
                transactions.push(transaction);
                proof {
                    assert(transaction_views(transactions@) =~= transaction_views(before).push(
                        (transaction.0@, transaction.1),
                    ));
                }
            },
            Err(error) => {
                proof {
                    lemma_first_error_wins(all, i + 1);
                }
                return Err(error);
            },
        }
        i = i + 1;
    }
    proof {
        assert(all.take(i as int) =~= all);
    }
    Ok(transactions)
}

} // verus!
