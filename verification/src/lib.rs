//! FIFO settlement of a trade ledger: lots of an instrument are matched
//! oldest-first against opposite lots, and every match yields a realized
//! profit in fixed-point money.

pub mod analyzer;
pub mod arith;
pub mod book;
pub mod laws;
pub mod parser;
pub mod report;
pub mod text;

use vstd::prelude::*;

verus! {

/// The balance of the account, in hundredths of a cent, before the first
/// trade of the ledger.
pub const STARTING_BALANCE: i32 = 3282000;

/// Calendar date of a trade, as written in the ledger.
#[derive(Debug, Eq, PartialEq, Copy, Clone, Structural)]
pub struct Date {
    pub day: u8,
    pub month: u8,
    pub year: u8,
}

/// A quantity of one instrument traded at one unit price on one date.
/// A positive quantity is long, a negative one short.
#[derive(Debug, Eq, PartialEq, Copy, Clone, Structural)]
pub struct Lot {
    pub date: Date,
    pub price: i32,
    pub quantity: i32,
}

/// The kind of an option contract.
#[derive(Debug, Eq, PartialEq, Hash, Copy, Clone, Structural)]
pub enum OptionType {
    Call,
    Put,
}

/// What is traded: a stock, known by its ticker, or an option contract on it.
#[derive(Debug, Eq, Hash)]
pub enum Commodity {
    Stock(String),
    Option { ticker: String, contract: OptionType, strike: u32, expiration: String },
}

/// The identity of a commodity as a mathematical value: two commodities are
/// the same instrument exactly when every field agrees.
pub enum Instrument {
    Stock(Seq<char>),
    Option { ticker: Seq<char>, contract: OptionType, strike: u32, expiration: Seq<char> },
}

impl View for Commodity {
    type V = Instrument;

    open spec fn view(&self) -> Instrument {
        match self {
            Commodity::Stock(ticker) => Instrument::Stock(ticker@),
            Commodity::Option { ticker, contract, strike, expiration } => Instrument::Option {
                ticker: ticker@,
                contract: *contract,
                strike: *strike,
                expiration: expiration@,
            },
        }
    }
}

impl Instrument {
    /// The ticker of the stock, or of the stock that the option is on.
    pub open spec fn ticker(self) -> Seq<char> {
        match self {
            Instrument::Stock(ticker) => ticker,
            Instrument::Option { ticker, .. } => ticker,
        }
    }
}

impl Commodity {
    /// The ticker of the stock, or of the stock that the option is on.
    pub fn ticker(&self) -> (ticker: &str)
        ensures
            ticker@ == self@.ticker(),
    {
        match self {
            Commodity::Option { ticker, .. } => ticker.as_str(),
            Commodity::Stock(ticker) => ticker.as_str(),
        }
    }

    /// Whether two commodities are of one kind: both stocks, or both option
    /// contracts.
    pub fn same_instrument(&self, other: &Commodity) -> (same: bool)
        ensures
            same == (self@ is Stock <==> other@ is Stock),
    {
        match (self, other) {
            (Commodity::Stock(_), Commodity::Stock(_)) => true,
            (Commodity::Option { .. }, Commodity::Option { .. }) => true,
            _ => false,
        }
    }
}

impl PartialEq for Commodity {
    fn eq(&self, other: &Self) -> (same: bool) {
        match (self, other) {
            (Commodity::Stock(a), Commodity::Stock(b)) => *a == *b,
            (
                Commodity::Option { ticker: t1, contract: c1, strike: s1, expiration: e1 },
                Commodity::Option { ticker: t2, contract: c2, strike: s2, expiration: e2 },
            ) => *t1 == *t2 && *c1 == *c2 && *s1 == *s2 && *e1 == *e2,
            _ => false,
        }
    }
}

impl vstd::std_specs::cmp::PartialEqSpecImpl for Commodity {
    open spec fn obeys_eq_spec() -> bool {
        true
    }

    open spec fn eq_spec(&self, other: &Self) -> bool {
        self@ == other@
    }
}

impl Clone for Commodity {
    fn clone(&self) -> (copy: Self)
        ensures
            copy@ == self@,
    {
        match self {
            Commodity::Stock(ticker) => Commodity::Stock(ticker.clone()),
            Commodity::Option { ticker, contract, strike, expiration } => Commodity::Option {
                ticker: ticker.clone(),
                contract: *contract,
                strike: *strike,
                expiration: expiration.clone(),
            },
        }
    }
}


/// The record of one match: the lot opened on `open` was closed on `close`
/// for `quantity` units, at the given profit.
#[derive(Debug, Eq, PartialEq)]
pub struct Settlement {
    pub open: Date,
    pub close: Date,
    pub commodity: Commodity,
    pub quantity: i32,
    pub profit: i32,
}

/// A settlement record as a mathematical value.
pub struct SettlementView {
    pub open: Date,
    pub close: Date,
    pub commodity: Instrument,
    pub quantity: int,
    pub profit: int,
}

impl View for Settlement {
    type V = SettlementView;

    open spec fn view(&self) -> SettlementView {
        SettlementView {
            open: self.open,
            close: self.close,
            commodity: self.commodity@,
            quantity: self.quantity as int,
            profit: self.profit as int,
        }
    }
}

impl Clone for Settlement {
    fn clone(&self) -> (copy: Self)
        ensures
            copy@ == self@,
    {
        Settlement {
            open: self.open,
            close: self.close,
            commodity: self.commodity.clone(),
            quantity: self.quantity,
            profit: self.profit,
        }
    }
}

/// The records of a list of settlements, in order.
pub open spec fn settlement_views(settlements: Seq<Settlement>) -> Seq<SettlementView> {
    Seq::new(settlements.len(), |i: int| settlements[i]@)
}

/// The transactions of a ledger as mathematical values, in order.
pub open spec fn transaction_views(transactions: Seq<(Commodity, Lot)>) -> Seq<(Instrument, Lot)> {
    Seq::new(transactions.len(), |i: int| (transactions[i].0@, transactions[i].1))
}

} // verus!
