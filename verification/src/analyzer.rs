//! The settlement engine: the match step between two lots, and the FIFO pass
//! over a ledger that applies it.

use crate::book::{book_wf, joins, queue_of, queue_wf, PositionBook};
use crate::{
    settlement_views, transaction_views, Commodity, Instrument, Lot, OptionType, Settlement,
    SettlementView,
};
use crate::report::{row_text, settlement_row};
use vstd::prelude::*;
use vstd::string::StringExecFns;

verus! {

/// The magnitude of a signed quantity.
pub open spec fn magnitude(quantity: int) -> int {
    if quantity < 0 {
        -quantity
    } else {
        quantity
    }
}

/// Two lots can be matched when they are not on the same side of the market.
pub open spec fn opposed(a: Lot, b: Lot) -> bool {
    &&& a.quantity > 0 ==> b.quantity <= 0
    &&& a.quantity < 0 ==> b.quantity >= 0
}

/// How much one match step between two lots settles: the smaller of the two
/// magnitudes.
pub open spec fn settled_quantity(a: Lot, b: Lot) -> int {
    if magnitude(a.quantity as int) <= magnitude(b.quantity as int) {
        magnitude(a.quantity as int)
    } else {
        magnitude(b.quantity as int)
    }
}

/// The unit price of the long side of a match step.
pub open spec fn buy_price(a: Lot, b: Lot) -> int {
    if a.quantity > 0 {
        a.price as int
    } else {
        b.price as int
    }
}

/// The unit price of the short side of a match step.
pub open spec fn sell_price(a: Lot, b: Lot) -> int {
    if a.quantity > 0 {
        b.price as int
    } else {
        a.price as int
    }
}

/// The profit that one match step realizes: the settled quantity times what
/// the short side sold a unit for above what the long side paid for it.
pub open spec fn settled_profit(a: Lot, b: Lot) -> int {
    settled_quantity(a, b) * (sell_price(a, b) - buy_price(a, b))
}

/// What is left of `lot` once a match step against `other` has moved its
/// quantity towards zero by the settled quantity.
pub open spec fn remainder(lot: Lot, other: Lot) -> Lot {
    Lot {
        date: lot.date,
        price: lot.price,
        quantity: if lot.quantity > 0 {
            (lot.quantity - settled_quantity(lot, other)) as i32
        } else {
            (lot.quantity + settled_quantity(lot, other)) as i32
        },
    }
}

/// Whether a profit can be written down in a settlement record.
pub open spec fn representable(profit: int) -> bool {
    i32::MIN <= profit <= i32::MAX
}

/// The inputs on which a match step is defined.
pub open spec fn can_settle(a: Lot, b: Lot) -> bool {
    opposed(a, b) && representable(settled_profit(a, b))
}

/// What two opposed lots settle is a quantity that a settlement can hold.
pub proof fn lemma_settled_quantity_bounds(a: Lot, b: Lot)
    requires
        opposed(a, b),
    ensures
        0 <= settled_quantity(a, b) <= i32::MAX,
{
}

/// A match step settles the smaller of the two magnitudes: never more than
/// either lot holds, and all of one of them.
pub proof fn lemma_settled_is_minimum(a: Lot, b: Lot)
    ensures
        settled_quantity(a, b) <= magnitude(a.quantity as int),
        settled_quantity(a, b) <= magnitude(b.quantity as int),
        settled_quantity(a, b) == magnitude(a.quantity as int) || settled_quantity(a, b)
            == magnitude(b.quantity as int),
        settled_quantity(a, b) >= 0,
{
}

/// A match step conserves quantity: the two lots together hold after the
/// step what they held before it.
pub proof fn lemma_quantity_conserved(a: Lot, b: Lot)
    requires
        opposed(a, b),
    ensures
        remainder(a, b).quantity + remainder(b, a).quantity == a.quantity + b.quantity,
        magnitude(remainder(a, b).quantity as int) == magnitude(a.quantity as int)
            - settled_quantity(a, b),
        magnitude(remainder(b, a).quantity as int) == magnitude(b.quantity as int)
            - settled_quantity(a, b),
        remainder(a, b).quantity == 0 || remainder(b, a).quantity == 0,
{
}

/// A match step is symmetric: the settled quantity and the profit do not
/// depend on which of the two lots is given first.
pub proof fn lemma_settle_symmetric(a: Lot, b: Lot)
    requires
        opposed(a, b),
    ensures
        settled_quantity(a, b) == settled_quantity(b, a),
        settled_profit(a, b) == settled_profit(b, a),
{
    if a.quantity == 0 || b.quantity == 0 {
        assert(settled_quantity(a, b) == 0);
        assert(settled_quantity(b, a) == 0);
    }
}

fn quantity_of(a: &Lot, b: &Lot) -> (settled: i64)
    ensures
        settled == settled_quantity(*a, *b),
{
    let ma: i64 = if a.quantity < 0 { -(a.quantity as i64) } else { a.quantity as i64 };
    let mb: i64 = if b.quantity < 0 { -(b.quantity as i64) } else { b.quantity as i64 };
    if ma <= mb { ma } else { mb }
}

fn profit_of(a: &Lot, b: &Lot) -> (profit: i64)
    requires
        opposed(*a, *b),
    ensures
        profit == settled_profit(*a, *b),
{
    let settled: i64 = quantity_of(a, b);
    let spread: i64 = if a.quantity > 0 {
        b.price as i64 - a.price as i64
    } else {
        a.price as i64 - b.price as i64
    };
    proof {
        lemma_settled_quantity_bounds(*a, *b);
        assert(-0x7fff_ffff * 0x1_0000_0000 <= settled * spread <= 0x7fff_ffff * 0x1_0000_0000)
            by (nonlinear_arith)
            requires
                0 <= settled <= 0x7fff_ffff,
                -0x1_0000_0000 <= spread <= 0x1_0000_0000,
        ;
    }
    settled * spread
}

/// One match step: settles as much as both lots allow, moves both
/// quantities towards zero by that amount, and returns the realized
/// profit followed by the settled quantity.
pub fn settle(lot_open: &mut Lot, lot_close: &mut Lot) -> (result: (i32, i32))
    requires
        can_settle(*old(lot_open), *old(lot_close)),
    ensures
        result.0 == settled_profit(*old(lot_open), *old(lot_close)),
        result.1 == settled_quantity(*old(lot_open), *old(lot_close)),
        *final(lot_open) == remainder(*old(lot_open), *old(lot_close)),
        *final(lot_close) == remainder(*old(lot_close), *old(lot_open)),
        final(lot_open).quantity + final(lot_close).quantity == old(lot_open).quantity + old(
            lot_close,
        ).quantity,
{
    proof {
        lemma_settled_quantity_bounds(*lot_open, *lot_close);
    }
    let profit: i64 = profit_of(lot_open, lot_close);
    let quantity: i32 = quantity_of(lot_open, lot_close) as i32;
    if lot_open.quantity > 0 {
        lot_open.quantity = lot_open.quantity - quantity;
        lot_close.quantity = lot_close.quantity + quantity;
    } else {
        lot_open.quantity = lot_open.quantity + quantity;
        lot_close.quantity = lot_close.quantity - quantity;
    }
    (profit as i32, quantity)
}

/// A match step that is made only where it is defined: on other lots it
/// changes nothing and returns `None`.
pub fn checked_settle(lot_open: &mut Lot, lot_close: &mut Lot) -> (result: Option<(i32, i32)>)
    ensures
        result is Some <==> can_settle(*old(lot_open), *old(lot_close)),
        match result {
            Some(settled) => {
                &&& settled.0 == settled_profit(*old(lot_open), *old(lot_close))
                &&& settled.1 == settled_quantity(*old(lot_open), *old(lot_close))
                &&& *final(lot_open) == remainder(*old(lot_open), *old(lot_close))
                &&& *final(lot_close) == remainder(*old(lot_close), *old(lot_open))
            },
            None => *final(lot_open) == *old(lot_open) && *final(lot_close) == *old(lot_close),
        },
{
    if (lot_open.quantity > 0 && lot_close.quantity > 0) || (lot_open.quantity < 0
        && lot_close.quantity < 0) {
        return None;
    }
    let profit: i64 = profit_of(lot_open, lot_close);
    if profit < -0x8000_0000 || profit > 0x7fff_ffff {
        return None;
    }
    Some(settle(lot_open, lot_close))
}

/// Whether an incoming lot is matched against the front of a queue: there
/// is a front, something of the incoming lot is left, and the two are on
/// different sides.
pub open spec fn meets_front(queue: Seq<Lot>, incoming: Lot) -> bool {
    &&& queue.len() > 0
    &&& incoming.quantity != 0
    &&& (incoming.quantity > 0) != (queue[0].quantity > 0)
}

/// What matching one incoming lot against a queue leaves and produces.
pub struct Matched {
    /// The queue after the match, oldest lot first.
    pub queue: Seq<Lot>,
    /// What is left of the incoming lot.
    pub rest: Lot,
    /// The settlement records of the match, in the order of the steps.
    pub records: Seq<SettlementView>,
}

/// The record of one match step between an incoming lot and the front lot.
pub open spec fn record_of(instrument: Instrument, front: Lot, incoming: Lot) -> SettlementView {
    SettlementView {
        open: front.date,
        close: incoming.date,
        commodity: instrument,
        quantity: settled_quantity(incoming, front),
        profit: settled_profit(incoming, front),
    }
}

/// The queue once a match step has left `front` of its oldest lot: the lot
/// leaves the queue when nothing of it is left.
pub open spec fn with_front(queue: Seq<Lot>, front: Lot) -> Seq<Lot> {
    if front.quantity == 0 {
        queue.drop_first()
    } else {
        queue.update(0, front)
    }
}

/// Matches an incoming lot against a queue, oldest lot first, one match
/// step after the other, for as long as it meets a front lot.
pub open spec fn match_queue(instrument: Instrument, queue: Seq<Lot>, incoming: Lot) -> Matched
    decreases queue.len(), magnitude(incoming.quantity as int),
{
    if meets_front(queue, incoming) {
        let next = match_queue(
            instrument,
            with_front(queue, remainder(queue[0], incoming)),
            remainder(incoming, queue[0]),
        );
        Matched {
            queue: next.queue,
            rest: next.rest,
            records: seq![record_of(instrument, queue[0], incoming)] + next.records,
        }
    } else {
        Matched { queue, rest: incoming, records: Seq::empty() }
    }
}

/// The queue of an instrument after a lot of it has arrived: what the
/// match leaves of the queue, and behind it what it leaves of the lot.
pub open spec fn queue_after(instrument: Instrument, queue: Seq<Lot>, incoming: Lot) -> Seq<Lot> {
    let matched = match_queue(instrument, queue, incoming);
    if matched.rest.quantity != 0 {
        matched.queue.push(matched.rest)
    } else {
        matched.queue
    }
}

/// The state of a run: the position book and the records made so far.
pub struct LedgerView {
    pub book: Map<Instrument, Seq<Lot>>,
    pub settlements: Seq<SettlementView>,
}

/// The state of a run before the first transaction.
pub open spec fn opening() -> LedgerView {
    LedgerView { book: Map::empty(), settlements: Seq::empty() }
}

/// The state of a run after one more transaction.
pub open spec fn posted(state: LedgerView, instrument: Instrument, lot: Lot) -> LedgerView {
    let queue = queue_of(state.book, instrument);
    LedgerView {
        book: state.book.insert(instrument, queue_after(instrument, queue, lot)),
        settlements: state.settlements + match_queue(instrument, queue, lot).records,
    }
}

/// The state of a run after all of its transactions, in their order.
pub open spec fn ledger_of(transactions: Seq<(Instrument, Lot)>) -> LedgerView
    decreases transactions.len(),
{
    if transactions.len() == 0 {
        opening()
    } else {
        posted(
            ledger_of(transactions.drop_last()),
            transactions.last().0,
            transactions.last().1,
        )
    }
}

/// The sum of the profits of a list of records.
pub open spec fn total_profit(records: Seq<SettlementView>) -> int
    decreases records.len(),
{
    if records.len() == 0 {
        0
    } else {
        total_profit(records.drop_last()) + records.last().profit
    }
}

/// Every profit of the records can be written down.
pub open spec fn all_representable(records: Seq<SettlementView>) -> bool {
    forall|i: int| 0 <= i < records.len() ==> representable((#[trigger] records[i]).profit)
}

/// The outcomes that the engine can return: every record's profit, and
/// the profit of the whole run, can be written down.
pub open spec fn reportable(ledger: LedgerView) -> bool {
    all_representable(ledger.settlements) && representable(total_profit(ledger.settlements))
}

/// A queue stays well formed when a match step reduces its oldest lot, or
/// takes that lot out once nothing of it is left. Where something of the
/// oldest lot is left, it is on the side it was on, and nothing is left
/// of the incoming lot.
pub proof fn lemma_front_kept_wf(queue: Seq<Lot>, incoming: Lot)
    requires
        queue_wf(queue),
        meets_front(queue, incoming),
    ensures
        queue_wf(with_front(queue, remainder(queue[0], incoming))),
        opposed(incoming, queue[0]),
        remainder(queue[0], incoming).quantity != 0 ==> remainder(incoming, queue[0]).quantity
            == 0,
        remainder(queue[0], incoming).quantity != 0 ==> (remainder(queue[0], incoming).quantity
            > 0 <==> queue[0].quantity > 0),
{
    let front = remainder(queue[0], incoming);
    let after = with_front(queue, front);
    assert(queue[0].quantity != 0);
    if front.quantity == 0 {
        assert forall|i: int| 0 <= i < after.len() implies (#[trigger] after[i]).quantity
            != 0 by {
            assert(after[i] == queue[i + 1]);
        }
        assert forall|i: int, j: int| 0 <= i < after.len() && 0 <= j < after.len() implies ((
        #[trigger] after[i]).quantity > 0 <==> (#[trigger] after[j]).quantity > 0) by {
            assert(after[i] == queue[i + 1]);
            assert(after[j] == queue[j + 1]);
        }
    } else {
        assert forall|i: int| 0 <= i < after.len() implies (#[trigger] after[i]).quantity
            != 0 by {
            if i > 0 {
                assert(after[i] == queue[i]);
            }
        }
        assert forall|i: int, j: int| 0 <= i < after.len() && 0 <= j < after.len() implies ((
        #[trigger] after[i]).quantity > 0 <==> (#[trigger] after[j]).quantity > 0) by {
            assert(after[i].quantity > 0 <==> queue[i].quantity > 0);
            assert(after[j].quantity > 0 <==> queue[j].quantity > 0);
        }
    }
}

/// Matches `lot` against the queue behind `handle` and appends one record
/// per match step. Returns what is left of the lot, or `None` as soon as a
/// step's profit cannot be written down.
fn match_lot(
    book: &mut PositionBook,
    handle: usize,
    commodity: &Commodity,
    lot: Lot,
    settlements: &mut Vec<Settlement>,
) -> (rest: Option<Lot>)
    requires
        old(book).wf(),
        handle < old(book).handles().len(),
        old(book).handles()[handle as int] == commodity@,
    ensures
        final(book).wf(),
        final(book).handles() == old(book).handles(),
        rest is Some <==> all_representable(
            match_queue(commodity@, old(book).queue(handle as int), lot).records,
        ),
        rest matches Some(left) ==> {
            let matched = match_queue(commodity@, old(book).queue(handle as int), lot);
            &&& left == matched.rest
            &&& final(book)@ == old(book)@.insert(commodity@, matched.queue)
            &&& settlement_views(final(settlements)@) == settlement_views(old(settlements)@)
                + matched.records
        },
{
    let ghost start = old(book).queue(handle as int);
    let ghost target = match_queue(commodity@, start, lot);
    let ghost mut done: Seq<SettlementView> = Seq::empty();
    let mut rest = lot;
    proof {
        assert(book@ =~= old(book)@.insert(commodity@, start));
        assert(settlement_views(settlements@) =~= settlement_views(old(settlements)@) + done);
        assert(done + target.records =~= target.records);
    }
    loop
        invariant
            book.wf(),
            book.handles() == old(book).handles(),
            handle < book.handles().len(),
            book.handles()[handle as int] == commodity@,
            book@ == old(book)@.insert(commodity@, book.queue(handle as int)),
            settlement_views(settlements@) == settlement_views(old(settlements)@) + done,
            all_representable(done),
            start == old(book).queue(handle as int),
            target == match_queue(commodity@, start, lot),
            target.queue == match_queue(commodity@, book.queue(handle as int), rest).queue,
            target.rest == match_queue(commodity@, book.queue(handle as int), rest).rest,
            target.records == done + match_queue(
                commodity@,
                book.queue(handle as int),
                rest,
            ).records,
        decreases book.queue(handle as int).len(), magnitude(rest.quantity as int),
    {
        let ghost queue = book.queue(handle as int);
        let ghost incoming = rest;
        let front = match book.peek_front(handle) {
            Some(front) => front,
            None => {
                assert(done + Seq::<SettlementView>::empty() =~= done);
                return Some(rest);
            },
        };
        if rest.quantity == 0 || (rest.quantity > 0) == (front.quantity > 0) {
            assert(done + Seq::<SettlementView>::empty() =~= done);
            return Some(rest);
        }
        let mut front = front;
        proof {
            book.lemma_queue_wf(handle as int);
            lemma_front_kept_wf(queue, incoming);
        }
        let ghost recorded = settlements@;
        let (profit, quantity) = match checked_settle(&mut rest, &mut front) {
            Some(settled) => settled,
            None => {
                assert(!representable(target.records[done.len() as int].profit));
                return None;
            },
        };
        settlements.push(
            Settlement {
                open: front.date,
                close: rest.date,
                commodity: commodity.clone(),
                quantity,
                profit,
            },
        );
        if front.quantity == 0 {
            book.remove_front(handle);
        } else {
            book.set_front(handle, front);
        }
        proof {
            let record = record_of(commodity@, queue[0], incoming);
            let next = match_queue(commodity@, book.queue(handle as int), rest);
            assert(book.queue(handle as int) == with_front(queue, front));
            assert(settlements@ == recorded.push(settlements@.last()));
            assert(settlements@.last()@ == record);
            assert(settlement_views(settlements@) =~= settlement_views(recorded).push(record));
            assert(settlement_views(settlements@) =~= settlement_views(old(settlements)@) + (done
                + seq![record]));
            assert(done + (seq![record] + next.records) =~= (done + seq![record]) + next.records);
            assert(book@ =~= old(book)@.insert(commodity@, book.queue(handle as int)));
            done = done + seq![record];
        }
    }
}

/// Matching keeps a queue well formed, and what it leaves of the incoming
/// lot may join what it leaves of the queue.
pub proof fn lemma_match_queue_wf(instrument: Instrument, queue: Seq<Lot>, incoming: Lot)
    requires
        queue_wf(queue),
    ensures
        queue_wf(match_queue(instrument, queue, incoming).queue),
        match_queue(instrument, queue, incoming).rest.quantity != 0 ==> joins(
            match_queue(instrument, queue, incoming).queue,
            match_queue(instrument, queue, incoming).rest,
        ),
        queue_wf(queue_after(instrument, queue, incoming)),
    decreases queue.len(), magnitude(incoming.quantity as int),
{
    if meets_front(queue, incoming) {
        lemma_front_kept_wf(queue, incoming);
        lemma_match_queue_wf(
            instrument,
            with_front(queue, remainder(queue[0], incoming)),
            remainder(incoming, queue[0]),
        );
    }
}

/// The records of the first `count` transactions open the records of the
/// whole run.
pub proof fn lemma_records_extend(transactions: Seq<(Instrument, Lot)>, count: int)
    requires
        0 <= count <= transactions.len(),
    ensures
        ledger_of(transactions.take(count)).settlements.is_prefix_of(
            ledger_of(transactions).settlements,
        ),
    decreases transactions.len(),
{
    if count == transactions.len() {
        assert(transactions.take(count) =~= transactions);
    } else {
        lemma_records_extend(transactions.drop_last(), count);
        assert(transactions.drop_last().take(count) =~= transactions.take(count));
    }
}

/// The outcome of a run: its total profit, its settlement records in the
/// order of the matches, and the position book as the run leaves it.
pub struct Ledger {
    pub profit: i32,
    pub settlements: Vec<Settlement>,
    pub book: PositionBook,
}

fn sum_profits(settlements: &Vec<Settlement>) -> (total: i128)
    ensures
        total == total_profit(settlement_views(settlements@)),
{
    let ghost records = settlement_views(settlements@);
    let mut total: i128 = 0;
    let mut i: usize = 0;
    while i < settlements.len()
        invariant
            i <= settlements@.len(),
            records == settlement_views(settlements@),
            total == total_profit(records.take(i as int)),
            -0x8000_0000 * i <= total <= 0x8000_0000 * i,
        decreases settlements@.len() - i,
    {
        proof {
            assert(records.take(i + 1).drop_last() =~= records.take(i as int));
            assert(records.take(i + 1).last() == settlements@[i as int]@);
        }
        total = total + settlements[i].profit as i128;
        i = i + 1;
    }
    proof {
        assert(records.take(i as int) =~= records);
    }
    total
}

/// Runs the engine over a ledger: every transaction, in order, is matched
/// against the queue of its instrument, oldest lot first, and what is left
/// of it joins that queue. Returns `None` where a profit cannot be written
/// down.
pub fn settle_all(transactions: &Vec<(Commodity, Lot)>) -> (result: Option<Ledger>)
    ensures
        result is Some <==> reportable(ledger_of(transaction_views(transactions@))),
        result matches Some(ledger) ==> {
            let outcome = ledger_of(transaction_views(transactions@));
            &&& ledger.book.wf()
            &&& ledger.book@ == outcome.book
            &&& settlement_views(ledger.settlements@) == outcome.settlements
            &&& ledger.profit == total_profit(outcome.settlements)
        },
{
    let ghost arrivals = transaction_views(transactions@);
    let mut book = PositionBook::new();
    let mut settlements: Vec<Settlement> = Vec::new();
    let mut i: usize = 0;
    proof {
        assert(arrivals.take(0) =~= Seq::<(Instrument, Lot)>::empty());
        assert(settlement_views(settlements@) =~= Seq::<SettlementView>::empty());
    }
    while i < transactions.len()
        invariant
            i <= transactions@.len(),
            arrivals == transaction_views(transactions@),
            book.wf(),
            book@ == ledger_of(arrivals.take(i as int)).book,
            settlement_views(settlements@) == ledger_of(arrivals.take(i as int)).settlements,
            all_representable(ledger_of(arrivals.take(i as int)).settlements),
        decreases transactions@.len() - i,
    {
        let ghost before = ledger_of(arrivals.take(i as int));
        let ghost instrument = transactions@[i as int].0@;
        let ghost queue = queue_of(before.book, instrument);
        let lot = transactions[i].1;
        let handle = book.get_or_create_queue(&transactions[i].0);
        proof {
            assert(arrivals.take(i + 1).drop_last() =~= arrivals.take(i as int));
            assert(arrivals.take(i + 1).last() == (instrument, lot));
            book.lemma_queue_wf(handle as int);
            assert(book.queue(handle as int) == queue);
            lemma_match_queue_wf(instrument, queue, lot);
        }
        let ghost opened = book@;
        match match_lot(&mut book, handle, &transactions[i].0, lot, &mut settlements) {
            Some(rest) => {
                proof {
                    book.lemma_queue_wf(handle as int);
                }
                if rest.quantity != 0 {
                    book.push_back(handle, rest);
                }
                proof {
                    assert(book@ =~= before.book.insert(
                        instrument,
                        queue_after(instrument, queue, lot),
                    ));
                }
            },
            None => {
                proof {
                    let records = ledger_of(arrivals.take(i + 1)).settlements;
                    let matched = match_queue(instrument, queue, lot).records;
                    let bad = choose|j: int|
                        0 <= j < matched.len() && !representable((#[trigger] matched[j]).profit);
                    assert(records[before.settlements.len() + bad] == matched[bad]);
                    lemma_records_extend(arrivals, i + 1);
                    assert(ledger_of(arrivals).settlements[before.settlements.len() + bad]
                        == matched[bad]);
                }
                return None;
            },
        }
        i = i + 1;
    }
    proof {
        assert(arrivals.take(i as int) =~= arrivals);
    }
    let total: i128 = sum_profits(&settlements);
    if total < -0x8000_0000 || total > 0x7fff_ffff {
        return None;
    }
    Some(Ledger { profit: total as i32, settlements, book })
}

/// The realized profit of a ledger and its settlement records, in the
/// order of the matches.
pub fn profit_loss(transactions: Vec<(Commodity, Lot)>) -> (result: (i32, Vec<Settlement>))
    requires
        reportable(ledger_of(transaction_views(transactions@))),
    ensures
        result.0 == total_profit(ledger_of(transaction_views(transactions@)).settlements),
        settlement_views(result.1@) == ledger_of(transaction_views(transactions@)).settlements,
{
    let ledger = settle_all(&transactions).unwrap();
    (ledger.profit, ledger.settlements)
}

/// The settlement table of a run, line by line: its title, the heads of
/// its columns, a rule, and one row for each settlement, in their order.
pub fn settlement_table(settlements: &Vec<Settlement>) -> (lines: Vec<String>)
    ensures
        lines@.len() == settlements@.len() + 3,
        lines@[0]@ == "SETTLEMENT TABLE"@,
        lines@[1]@ == "  open   |  close   |          symbol           |    PnL   "@,
        lines@[2]@ == "---------+----------+---------------------------+----------"@,
        forall|i: int|
            0 <= i < settlements@.len() ==> (#[trigger] lines@[i + 3])@ == row_text(
                settlements@[i]@,
            ),
{
    let mut lines: Vec<String> = Vec::new();
    lines.push(String::from_str("SETTLEMENT TABLE"));
    lines.push(String::from_str("  open   |  close   |          symbol           |    PnL   "));
    lines.push(String::from_str("---------+----------+---------------------------+----------"));
    let mut i: usize = 0;
    while i < settlements.len()
        invariant
            i <= settlements@.len(),
            lines@.len() == i + 3,
            lines@[0]@ == "SETTLEMENT TABLE"@,
            lines@[1]@ == "  open   |  close   |          symbol           |    PnL   "@,
            lines@[2]@ == "---------+----------+---------------------------+----------"@,
            forall|k: int|
                0 <= k < i ==> (#[trigger] lines@[k + 3])@ == row_text(settlements@[k]@),
        decreases settlements@.len() - i,
    {
        lines.push(settlement_row(&settlements[i]));
        i = i + 1;
    }
    lines
}

/// The performance table of a run. Nothing is derived from the
/// settlements for it, and it reports nothing.
pub fn performance_table(settlements: &Vec<Settlement>) {
}

/// The lots of an instrument among the transactions, in their order.
pub open spec fn lots_of(transactions: Seq<(Instrument, Lot)>, instrument: Instrument) -> Seq<Lot>
    decreases transactions.len(),
{
    if transactions.len() == 0 {
        Seq::empty()
    } else if transactions.last().0 == instrument {
        lots_of(transactions.drop_last(), instrument).push(transactions.last().1)
    } else {
        lots_of(transactions.drop_last(), instrument)
    }
}

/// Whether a grouping has an entry for an instrument.
pub open spec fn has_entry(book: Seq<(Commodity, Vec<Lot>)>, instrument: Instrument) -> bool {
    exists|i: int| 0 <= i < book.len() && (#[trigger] book[i]).0@ == instrument
}

/// Groups the lots of a ledger by instrument, before any of them is
/// matched: one entry for each instrument of the ledger, with the lots of
/// that instrument in the order of the ledger.
pub fn populate_book(transactions: &Vec<(Commodity, Lot)>) -> (book: Vec<(Commodity, Vec<Lot>)>)
    ensures
        forall|i: int, j: int|
            0 <= i < j < book@.len() ==> (#[trigger] book@[i]).0@ != (#[trigger] book@[j]).0@,
        forall|i: int|
            0 <= i < book@.len() ==> (#[trigger] book@[i]).1@ == lots_of(
                transaction_views(transactions@),
                book@[i].0@,
            ) && book@[i].1@.len() > 0,
        forall|k: int|
            0 <= k < transactions@.len() ==> has_entry(book@, (#[trigger] transactions@[k]).0@),
{
    let ghost arrivals = transaction_views(transactions@);
    let mut book: Vec<(Commodity, Vec<Lot>)> = Vec::new();
    let mut n: usize = 0;
    proof {
        assert(arrivals.take(0) =~= Seq::<(Instrument, Lot)>::empty());
    }
    while n < transactions.len()
        invariant
            n <= transactions@.len(),
            arrivals == transaction_views(transactions@),
            forall|i: int, j: int|
                0 <= i < j < book@.len() ==> (#[trigger] book@[i]).0@ != (#[trigger] book@[j]).0@,
            forall|i: int|
                0 <= i < book@.len() ==> (#[trigger] book@[i]).1@ == lots_of(
                    arrivals.take(n as int),
                    book@[i].0@,
                ) && book@[i].1@.len() > 0,
            forall|k: int| 0 <= k < n ==> has_entry(book@, (#[trigger] transactions@[k]).0@),
        decreases transactions@.len() - n,
    {
        let ghost before = book@;
        let ghost instrument = transactions@[n as int].0@;
        let lot = transactions[n].1;
        proof {
            assert(arrivals.take(n + 1).drop_last() =~= arrivals.take(n as int));
            assert(arrivals.take(n + 1).last() == (instrument, lot));
        }
        let mut at: usize = 0;
        while at < book.len() && !(book[at].0 == transactions[n].0)
            invariant
                at <= book@.len(),
                n < transactions@.len(),
                instrument == transactions@[n as int].0@,
                forall|i: int| 0 <= i < at ==> (#[trigger] book@[i]).0@ != instrument,
            decreases book@.len() - at,
        {
            at = at + 1;
        }
        if at < book.len() {
            book[at].1.push(lot);
            proof {
                assert forall|i: int| 0 <= i < book@.len() implies (#[trigger] book@[i]).1@
                    == lots_of(arrivals.take(n + 1), book@[i].0@) && book@[i].1@.len() > 0 by {
                    if i != at {
                        assert(book@[i] == before[i]);
                    }
                }
                assert forall|k: int| 0 <= k < n + 1 implies has_entry(
                    book@,
                    (#[trigger] transactions@[k]).0@,
                ) by {
                    if k < n {
                        assert(has_entry(before, transactions@[k].0@));
                        let i = choose|i: int|
                            0 <= i < before.len() && (#[trigger] before[i]).0@
                                == transactions@[k].0@;
                        assert(book@[i].0@ == transactions@[k].0@);
                    } else {
                        assert(book@[at as int].0@ == transactions@[k].0@);
                    }
                }
            }
        } else {
            let mut lots: Vec<Lot> = Vec::new();
            lots.push(lot);
            book.push((transactions[n].0.clone(), lots));
            proof {
                lemma_no_lots_of_new_instrument(arrivals.take(n as int), instrument, n as int);
                assert(lots@ =~= Seq::<Lot>::empty().push(lot));
                assert forall|i: int| 0 <= i < book@.len() implies (#[trigger] book@[i]).1@
                    == lots_of(arrivals.take(n + 1), book@[i].0@) && book@[i].1@.len() > 0 by {
                    if i < before.len() {
                        assert(book@[i] == before[i]);
                    }
                }
                assert forall|k: int| 0 <= k < n + 1 implies has_entry(
                    book@,
                    (#[trigger] transactions@[k]).0@,
                ) by {
                    if k < n {
                        assert(has_entry(before, transactions@[k].0@));
                        let i = choose|i: int|
                            0 <= i < before.len() && (#[trigger] before[i]).0@
                                == transactions@[k].0@;
                        assert(book@[i] == before[i]);
                    } else {
                        assert(book@[before.len() as int].0@ == transactions@[k].0@);
                    }
                }
            }
        }
        n = n + 1;
    }
    proof {
        assert(arrivals.take(n as int) =~= arrivals);
    }
    book
}

/// An instrument that none of the transactions names has no lots among
/// them.
proof fn lemma_no_lots_of_new_instrument(
    transactions: Seq<(Instrument, Lot)>,
    instrument: Instrument,
    count: int,
)
    requires
        count == transactions.len(),
        forall|k: int| 0 <= k < count ==> (#[trigger] transactions[k]).0 != instrument,
    ensures
        lots_of(transactions, instrument) == Seq::<Lot>::empty(),
    decreases transactions.len(),
{
    if transactions.len() > 0 {
        assert(transactions.last() == transactions[count - 1]);
        assert forall|k: int| 0 <= k < count - 1 implies (#[trigger] transactions.drop_last()[k]).0
            != instrument by {
            assert(transactions.drop_last()[k] == transactions[k]);
        }
        lemma_no_lots_of_new_instrument(transactions.drop_last(), instrument, count - 1);
    }
}

/// Whether an instrument is an option contract of the given kind.
pub open spec fn is_option(instrument: Instrument, kind: OptionType) -> bool {
    instrument matches Instrument::Option { contract, .. } && contract == kind
}

/// The transactions in option contracts of one kind, in their order.
pub open spec fn options_among(transactions: Seq<(Instrument, Lot)>, kind: OptionType) -> Seq<
    (Instrument, Lot),
> {
    transactions.filter(|transaction: (Instrument, Lot)| is_option(transaction.0, kind))
}

/// Picks the transactions in option contracts of one kind.
fn options_of(transactions: &Vec<(Commodity, Lot)>, kind: OptionType) -> (picked: Vec<
    (Commodity, Lot),
>)
    ensures
        transaction_views(picked@) == options_among(transaction_views(transactions@), kind),
{
    let ghost arrivals = transaction_views(transactions@);
    let ghost wanted = |transaction: (Instrument, Lot)| is_option(transaction.0, kind);
    let mut picked: Vec<(Commodity, Lot)> = Vec::new();
    let mut n: usize = 0;
    proof {
        assert(arrivals.take(0) =~= Seq::<(Instrument, Lot)>::empty());
        assert(transaction_views(picked@) =~= arrivals.take(0).filter(wanted));
    }
    while n < transactions.len()
        invariant
            n <= transactions@.len(),
            arrivals == transaction_views(transactions@),
            wanted == |transaction: (Instrument, Lot)| is_option(transaction.0, kind),
            transaction_views(picked@) == arrivals.take(n as int).filter(wanted),
        decreases transactions@.len() - n,
    {
        proof {
            assert(arrivals.take(n + 1).drop_last() =~= arrivals.take(n as int));
            assert(arrivals.take(n + 1).last() == arrivals[n as int]);
            reveal(Seq::filter);
        }
        let of_kind = match &transactions[n].0 {
            Commodity::Option { contract, .. } => *contract == kind,
            Commodity::Stock(_) => false,
        };
        if of_kind {
            let ghost before = picked@;
            picked.push((transactions[n].0.clone(), transactions[n].1));
            proof {
                assert(transaction_views(picked@) =~= transaction_views(before).push(
                    arrivals[n as int],
                ));
            }
        }
        n = n + 1;
    }
    proof {
        assert(arrivals.take(n as int) =~= arrivals);
    }
    picked
}

/// Parts the option transactions of a ledger by kind: first the
/// transactions in calls, then those in puts, each in the order of the
/// ledger.
pub fn option_return(transactions: Vec<(Commodity, Lot)>) -> (result: (
    Vec<(Commodity, Lot)>,
    Vec<(Commodity, Lot)>,
))
    ensures
        transaction_views(result.0@) == options_among(
            transaction_views(transactions@),
            OptionType::Call,
        ),
        transaction_views(result.1@) == options_among(
            transaction_views(transactions@),
            OptionType::Put,
        ),
{
    let calls = options_of(&transactions, OptionType::Call);
    let puts = options_of(&transactions, OptionType::Put);
    (calls, puts)
}

} // verus!
