//! What holds of every run of the settlement engine, proved of its model.

use crate::analyzer::{
    ledger_of, lemma_front_kept_wf, lemma_match_queue_wf, lemma_quantity_conserved, magnitude,
    match_queue, meets_front, opening, posted, queue_after, record_of, remainder,
    settled_quantity, with_front, LedgerView,
};
use crate::book::{book_wf, queue_of, queue_wf};
use crate::{Instrument, Lot};
use vstd::prelude::*;

verus! {

/// The signed sum of the quantities of a queue.
pub open spec fn net_quantity(queue: Seq<Lot>) -> int
    decreases queue.len(),
{
    if queue.len() == 0 {
        0
    } else {
        queue[0].quantity + net_quantity(queue.drop_first())
    }
}

/// Matching conserves quantity: the queue and the incoming lot together
/// hold after the match what they held before it.
pub proof fn lemma_match_conserves_quantity(instrument: Instrument, queue: Seq<Lot>, incoming: Lot)
    requires
        queue_wf(queue),
    ensures
        net_quantity(match_queue(instrument, queue, incoming).queue) + match_queue(
            instrument,
            queue,
            incoming,
        ).rest.quantity == net_quantity(queue) + incoming.quantity,
    decreases queue.len(), magnitude(incoming.quantity as int),
{
    if meets_front(queue, incoming) {
        let front = remainder(queue[0], incoming);
        let rest = remainder(incoming, queue[0]);
        let after = with_front(queue, front);
        lemma_front_kept_wf(queue, incoming);
        lemma_quantity_conserved(queue[0], incoming);
        if front.quantity != 0 {
            assert(after.drop_first() =~= queue.drop_first());
        }
        lemma_match_conserves_quantity(instrument, after, rest);
    }
}

/// First in, first out: the records of a match close the lots of the queue
/// in the order in which they wait, each on the date of the incoming lot,
/// and the lots that the match leaves are the youngest ones, in their
/// order. At most the oldest of them has been reduced.
pub proof fn lemma_first_in_first_out(instrument: Instrument, queue: Seq<Lot>, incoming: Lot)
    ensures
        ({
            let matched = match_queue(instrument, queue, incoming);
            let gone = queue.len() - matched.queue.len();
            &&& 0 <= gone <= matched.records.len() <= gone + 1
            &&& matched.records.len() <= queue.len()
            &&& forall|i: int|
                0 <= i < matched.records.len() ==> (#[trigger] matched.records[i]).open
                    == queue[i].date && matched.records[i].close == incoming.date
                    && matched.records[i].commodity == instrument
            &&& forall|j: int|
                1 <= j < matched.queue.len() ==> #[trigger] matched.queue[j] == queue[gone + j]
            &&& matched.queue.len() > 0 ==> matched.queue[0].date == queue[gone].date
                && matched.queue[0].price == queue[gone].price
            &&& matched.records.len() == gone && matched.queue.len() > 0 ==> matched.queue[0]
                == queue[gone]
            &&& matched.rest.date == incoming.date && matched.rest.price == incoming.price
        }),
    decreases queue.len(), magnitude(incoming.quantity as int),
{
    if meets_front(queue, incoming) {
        let front = remainder(queue[0], incoming);
        let rest = remainder(incoming, queue[0]);
        let after = with_front(queue, front);
        let next = match_queue(instrument, after, rest);
        let matched = match_queue(instrument, queue, incoming);
        lemma_first_in_first_out(instrument, after, rest);
        assert(matched.records =~= seq![record_of(instrument, queue[0], incoming)]
            + next.records);
        if front.quantity == 0 {
            assert forall|i: int| 0 <= i < matched.records.len() implies (
            #[trigger] matched.records[i]).open == queue[i].date && matched.records[i].close
                == incoming.date && matched.records[i].commodity == instrument by {
                if i > 0 {
                    assert(matched.records[i] == next.records[i - 1]);
                    assert(after[i - 1] == queue[i]);
                }
            }
            let gone = queue.len() - matched.queue.len();
            assert forall|j: int| 1 <= j < matched.queue.len() implies #[trigger] matched.queue[j]
                == queue[gone + j] by {
                assert(after[gone - 1 + j] == queue[gone + j]);
            }
            if matched.queue.len() > 0 {
                assert(after[gone - 1] == queue[gone]);
            }
        } else {
            assert(rest.quantity == 0) by {
                if queue[0].quantity != 0 {
                    lemma_quantity_conserved(queue[0], incoming);
                }
            }
            assert(next.records.len() == 0);
            assert(next.queue == after);
        }
    }
}

/// Every record of a match against a well-formed queue settles a positive
/// quantity that a settlement can hold.
pub proof fn lemma_records_settle_something(instrument: Instrument, queue: Seq<Lot>, incoming: Lot)
    requires
        queue_wf(queue),
    ensures
        forall|i: int|
            0 <= i < match_queue(instrument, queue, incoming).records.len() ==> 0 < (
            #[trigger] match_queue(instrument, queue, incoming).records[i]).quantity <= i32::MAX,
    decreases queue.len(), magnitude(incoming.quantity as int),
{
    if meets_front(queue, incoming) {
        let front = remainder(queue[0], incoming);
        let rest = remainder(incoming, queue[0]);
        let after = with_front(queue, front);
        let next = match_queue(instrument, after, rest);
        let matched = match_queue(instrument, queue, incoming);
        assert(queue[0].quantity != 0);
        lemma_front_kept_wf(queue, incoming);
        lemma_records_settle_something(instrument, after, rest);
        assert(0 < settled_quantity(incoming, queue[0]) <= i32::MAX);
        assert forall|i: int| 0 <= i < matched.records.len() implies 0 < (
        #[trigger] matched.records[i]).quantity <= i32::MAX by {
            if i > 0 {
                assert(matched.records[i] == next.records[i - 1]);
            }
        }
    }
}

/// A lot that a match has used up leaves the book for good: after any run
/// every queue of the book is well formed, so no lot in it is empty and
/// all lots of a queue are on one side.
pub proof fn lemma_book_stays_wf(transactions: Seq<(Instrument, Lot)>)
    ensures
        book_wf(ledger_of(transactions).book),
    decreases transactions.len(),
{
    if transactions.len() > 0 {
        let before = ledger_of(transactions.drop_last());
        lemma_book_stays_wf(transactions.drop_last());
        lemma_posted_keeps_wf(before, transactions.last().0, transactions.last().1);
    }
}

/// One more transaction leaves a well-formed book well formed.
pub proof fn lemma_posted_keeps_wf(state: LedgerView, instrument: Instrument, lot: Lot)
    requires
        book_wf(state.book),
    ensures
        book_wf(posted(state, instrument, lot).book),
{
    let queue = queue_of(state.book, instrument);
    if state.book.dom().contains(instrument) {
        assert(queue_wf(state.book[instrument]));
    }
    lemma_match_queue_wf(instrument, queue, lot);
    let after = posted(state, instrument, lot).book;
    assert forall|other: Instrument| #[trigger] after.dom().contains(other) implies queue_wf(
        after[other],
    ) by {
        if other != instrument {
            assert(state.book.dom().contains(other));
        }
    }
}

/// A transaction touches the queue of its own instrument only.
pub proof fn lemma_other_queues_untouched(
    state: LedgerView,
    instrument: Instrument,
    lot: Lot,
    other: Instrument,
)
    requires
        other != instrument,
    ensures
        queue_of(posted(state, instrument, lot).book, other) == queue_of(state.book, other),
{
}

/// A transaction of no quantity is matched against nothing and joins no
/// queue.
pub proof fn lemma_empty_lot_changes_nothing(
    state: LedgerView,
    instrument: Instrument,
    lot: Lot,
    other: Instrument,
)
    requires
        lot.quantity == 0,
    ensures
        posted(state, instrument, lot).settlements == state.settlements,
        queue_of(posted(state, instrument, lot).book, other) == queue_of(state.book, other),
{
    let queue = queue_of(state.book, instrument);
    assert(!meets_front(queue, lot));
    assert(queue_after(instrument, queue, lot) == queue);
    assert(state.settlements + Seq::empty() =~= state.settlements);
}

/// A lot that meets no lot of the other side is queued whole, and no
/// record is made.
pub proof fn lemma_unmatched_lot_waits(state: LedgerView, instrument: Instrument, lot: Lot)
    requires
        lot.quantity != 0,
        !meets_front(queue_of(state.book, instrument), lot),
    ensures
        posted(state, instrument, lot).settlements == state.settlements,
        queue_of(posted(state, instrument, lot).book, instrument) == queue_of(
            state.book,
            instrument,
        ).push(lot),
{
    assert(state.settlements + Seq::empty() =~= state.settlements);
}

/// Of two lots bought one after the other, the first is the first that a
/// later sale closes; the same holds of two lots sold and a later purchase.
pub proof fn lemma_oldest_lot_closes_first(instrument: Instrument, a: Lot, b: Lot, c: Lot)
    requires
        (a.quantity > 0 && b.quantity > 0 && c.quantity < 0) || (a.quantity < 0 && b.quantity < 0
            && c.quantity > 0),
    ensures
        ({
            let records = ledger_of(seq![(instrument, a), (instrument, b), (instrument, c)]).settlements;
            &&& records.len() >= 1
            &&& records[0].open == a.date
            &&& records[0].close == c.date
            &&& records[0].quantity == settled_quantity(c, a)
            &&& records.len() >= 2 ==> records[1].open == b.date && magnitude(c.quantity as int)
                > magnitude(a.quantity as int)
        }),
{
    let t1 = seq![(instrument, a)];
    let t2 = seq![(instrument, a), (instrument, b)];
    let t3 = seq![(instrument, a), (instrument, b), (instrument, c)];
    assert(t1.drop_last() =~= Seq::<(Instrument, Lot)>::empty());
    assert(t2.drop_last() =~= t1);
    assert(t3.drop_last() =~= t2);
    let s0 = opening();
    assert(ledger_of(t1.drop_last()) == s0);
    let s1 = posted(s0, instrument, a);
    assert(ledger_of(t1) == s1);
    let s2 = posted(s1, instrument, b);
    assert(ledger_of(t2) == s2);
    let s3 = posted(s2, instrument, c);
    assert(ledger_of(t3) == s3);
    let q0 = queue_of(s0.book, instrument);
    assert(q0 =~= Seq::<Lot>::empty());
    assert(!meets_front(q0, a));
    lemma_unmatched_lot_waits(s0, instrument, a);
    let q1 = queue_of(s1.book, instrument);
    assert(q1 =~= seq![a]);
    assert(!meets_front(q1, b));
    lemma_unmatched_lot_waits(s1, instrument, b);
    let q2 = queue_of(s2.book, instrument);
    assert(q2 =~= seq![a, b]);
    assert(s2.settlements =~= Seq::empty());
    assert(meets_front(q2, c));
    lemma_first_in_first_out(instrument, q2, c);
    let matched = match_queue(instrument, q2, c);
    assert(s3.settlements =~= matched.records);
    lemma_quantity_conserved(a, c);
    let front = remainder(a, c);
    let rest = remainder(c, a);
    let next = match_queue(instrument, with_front(q2, front), rest);
    assert(matched.records =~= seq![record_of(instrument, a, c)] + next.records);
    if rest.quantity == 0 {
        assert(next.records.len() == 0);
    } else {
        assert(settled_quantity(a, c) == magnitude(a.quantity as int));
        assert(magnitude(c.quantity as int) > magnitude(a.quantity as int));
    }
    let records = ledger_of(t3).settlements;
    assert(records == matched.records);
    assert(records[0] == record_of(instrument, q2[0], c));
    if records.len() >= 2 {
        assert(records[1].open == q2[1].date);
    }
}

} // verus!
