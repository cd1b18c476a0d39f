//! The position book: for every instrument seen, the queue of its open lots,
//! oldest first.

use crate::{Commodity, Instrument, Lot};
use std::collections::VecDeque;
use vstd::prelude::*;

verus! {

/// A queue of open lots is well formed when no lot in it is empty and all
/// of its lots are on the same side of the market.
pub open spec fn queue_wf(queue: Seq<Lot>) -> bool {
    &&& forall|i: int| 0 <= i < queue.len() ==> (#[trigger] queue[i]).quantity != 0
    &&& forall|i: int, j: int|
        0 <= i < queue.len() && 0 <= j < queue.len() ==> ((#[trigger] queue[i]).quantity > 0 <==> (
        #[trigger] queue[j]).quantity > 0)
}

/// Whether `lot` may join `queue` at its tail: it is not empty, and it is on
/// the side of the lots that wait there.
pub open spec fn joins(queue: Seq<Lot>, lot: Lot) -> bool {
    &&& lot.quantity != 0
    &&& forall|i: int|
        0 <= i < queue.len() ==> ((#[trigger] queue[i]).quantity > 0 <==> lot.quantity > 0)
}

/// The queue that a book keeps for an instrument; empty where it keeps none.
pub open spec fn queue_of(book: Map<Instrument, Seq<Lot>>, instrument: Instrument) -> Seq<Lot> {
    if book.dom().contains(instrument) {
        book[instrument]
    } else {
        Seq::empty()
    }
}

/// Every queue of the book is well formed.
pub open spec fn book_wf(book: Map<Instrument, Seq<Lot>>) -> bool {
    forall|instrument: Instrument| #[trigger]
        book.dom().contains(instrument) ==> queue_wf(book[instrument])
}

struct Entry {
    commodity: Commodity,
    lots: VecDeque<Lot>,
}

spec fn keys(entries: Seq<Entry>) -> Seq<Instrument> {
    Seq::new(entries.len(), |i: int| entries[i].commodity@)
}

spec fn position(entries: Seq<Entry>, instrument: Instrument) -> int {
    choose|i: int| 0 <= i < entries.len() && entries[i].commodity@ == instrument
}

/// The open lots of every instrument, one FIFO queue each. A queue is
/// reached through its handle, a number that stays valid for the life of
/// the book.
pub struct PositionBook {
    entries: Vec<Entry>,
}

impl View for PositionBook {
    type V = Map<Instrument, Seq<Lot>>;

    /// The book as a map from each instrument to its queue, oldest lot first.
    closed spec fn view(&self) -> Map<Instrument, Seq<Lot>> {
        Map::new(
            |instrument: Instrument| keys(self.entries@).contains(instrument),
            |instrument: Instrument| self.entries@[position(self.entries@, instrument)].lots@,
        )
    }
}

impl PositionBook {
    /// The instruments of the book by handle: handle `h` stands for the
    /// queue of `handles()[h]`.
    pub closed spec fn handles(&self) -> Seq<Instrument> {
        keys(self.entries@)
    }

    /// The queue that a handle stands for.
    pub open spec fn queue(&self, handle: int) -> Seq<Lot> {
        self@[self.handles()[handle]]
    }

    /// No instrument has two handles, the instruments with a handle are
    /// those with a queue, and every queue is well formed.
    pub open spec fn wf(&self) -> bool {
        &&& self.handles().no_duplicates()
        &&& self@.dom() == self.handles().to_set()
        &&& book_wf(self@)
    }

    proof fn lemma_position(&self, handle: int)
        requires
            self.handles().no_duplicates(),
            0 <= handle < self.entries@.len(),
        ensures
            position(self.entries@, self.entries@[handle].commodity@) == handle,
            self@.dom().contains(self.entries@[handle].commodity@),
            self@[self.entries@[handle].commodity@] == self.entries@[handle].lots@,
            self.handles()[handle] == self.entries@[handle].commodity@,
    {
        let k = self.entries@[handle].commodity@;
        let p = position(self.entries@, k);
        assert(keys(self.entries@)[handle] == k);
        assert(keys(self.entries@)[p] == k);
    }

    proof fn lemma_dom(&self)
        ensures
            self@.dom() == self.handles().to_set(),
    {
        assert(self@.dom() =~= self.handles().to_set());
    }

    /// The queue behind a handle is a queue of the book, and well formed.
    pub proof fn lemma_queue_wf(&self, handle: int)
        requires
            self.wf(),
            0 <= handle < self.handles().len(),
        ensures
            self@.dom().contains(self.handles()[handle]),
            queue_wf(self.queue(handle)),
    {
        assert(self.handles().to_set().contains(self.handles()[handle]));
    }

    /// A book without queues.
    pub fn new() -> (book: Self)
        ensures
            book.wf(),
            book@ == Map::<Instrument, Seq<Lot>>::empty(),
            book.handles() == Seq::<Instrument>::empty(),
    {
        let book = PositionBook { entries: Vec::new() };
        proof {
            assert(book.handles() =~= Seq::<Instrument>::empty());
            assert(book@ =~= Map::<Instrument, Seq<Lot>>::empty());
            book.lemma_dom();
        }
        book
    }

    /// The number of queues in the book.
    pub fn len(&self) -> (count: usize)
        ensures
            count == self.handles().len(),
    {
        self.entries.len()
    }

    /// The handle of the queue kept for `commodity`, if there is one.
    pub fn find(&self, commodity: &Commodity) -> (found: Option<usize>)
        requires
            self.wf(),
        ensures
            match found {
                Some(handle) => handle < self.handles().len() && self.handles()[handle as int]
                    == commodity@,
                None => !self@.dom().contains(commodity@),
            },
    {
        let mut i: usize = 0;
        while i < self.entries.len()
            invariant
                i <= self.entries@.len(),
                forall|j: int| 0 <= j < i ==> (#[trigger] self.entries@[j]).commodity@ != commodity@,
            decreases self.entries@.len() - i,
        {
            if self.entries[i].commodity == *commodity {
                return Some(i);
            }
            i = i + 1;
        }
        None
    }

    /// The handle of the queue kept for `commodity`; where the book keeps
    /// none yet, an empty queue is opened for it first.
    pub fn get_or_create_queue(&mut self, commodity: &Commodity) -> (handle: usize)
        requires
            old(self).wf(),
        ensures
            final(self).wf(),
            handle < final(self).handles().len(),
            final(self).handles()[handle as int] == commodity@,
            final(self)@ == if old(self)@.dom().contains(commodity@) {
                old(self)@
            } else {
                old(self)@.insert(commodity@, Seq::empty())
            },
            final(self).handles() == if old(self)@.dom().contains(commodity@) {
                old(self).handles()
            } else {
                old(self).handles().push(commodity@)
            },
    {
        match self.find(commodity) {
            Some(handle) => handle,
            None => {
                let handle = self.entries.len();
                self.entries.push(Entry { commodity: commodity.clone(), lots: VecDeque::new() });
                proof {
                    let before = old(self);
                    assert(self.handles() =~= before.handles().push(commodity@));
                    assert(self.handles().no_duplicates());
                    assert forall|k: Instrument| #[trigger]
                        before@.dom().contains(k) implies position(self.entries@, k) == position(
                        before.entries@,
                        k,
                    ) by {
                        let p = position(before.entries@, k);
                        assert(keys(before.entries@)[p] == k);
                        self.lemma_position(p);
                    }
                    self.lemma_position(handle as int);
                    let after = before@.insert(commodity@, Seq::empty());
                    assert forall|k: Instrument| self@.dom().contains(k) <==> after.dom().contains(
                        k,
                    ) by {
                        if self@.dom().contains(k) {
                            let p = position(self.entries@, k);
                            assert(keys(self.entries@)[p] == k);
                            if p < handle {
                                assert(keys(before.entries@)[p] == k);
                            }
                        }
                        if before@.dom().contains(k) {
                            let p = position(before.entries@, k);
                            assert(keys(before.entries@)[p] == k);
                            assert(keys(self.entries@)[p] == k);
                        }
                        if k == commodity@ {
                            assert(keys(self.entries@)[handle as int] == k);
                        }
                    }
                    assert forall|k: Instrument| #[trigger]
                        self@.dom().contains(k) implies self@[k] == after[k] by {
                        if k != commodity@ {
                            assert(before@.dom().contains(k));
                            let p = position(before.entries@, k);
                            assert(keys(before.entries@)[p] == k);
                            assert(self.entries@[p] == before.entries@[p]);
                        }
                    }
                    assert(self@ =~= after);
                    self.lemma_dom();
                }
                handle
            },
        }
    }

    /// The oldest lot of a queue, if the queue holds any.
    pub fn peek_front(&self, handle: usize) -> (front: Option<Lot>)
        requires
            self.wf(),
            handle < self.handles().len(),
        ensures
            front == if self.queue(handle as int).len() > 0 {
                Some(self.queue(handle as int)[0])
            } else {
                None
            },
    {
        proof {
            self.lemma_position(handle as int);
        }
        if self.entries[handle].lots.len() > 0 {
            Some(self.entries[handle].lots[0])
        } else {
            None
        }
    }

    /// The lots of a queue, oldest first.
    pub fn open_lots(&self, handle: usize) -> (lots: Vec<Lot>)
        requires
            self.wf(),
            handle < self.handles().len(),
        ensures
            lots@ == self.queue(handle as int),
    {
        proof {
            self.lemma_position(handle as int);
        }
        let mut lots: Vec<Lot> = Vec::new();
        let mut i: usize = 0;
        while i < self.entries[handle].lots.len()
            invariant
                handle < self.entries@.len(),
                i <= self.entries@[handle as int].lots@.len(),
                lots@ == self.entries@[handle as int].lots@.take(i as int),
            decreases self.entries@[handle as int].lots@.len() - i,
        {
            lots.push(self.entries[handle].lots[i]);
            i = i + 1;
            assert(lots@ =~= self.entries@[handle as int].lots@.take(i as int));
        }
        assert(lots@ =~= self.entries@[handle as int].lots@);
        lots
    }

    proof fn lemma_queue_replaced(&self, before: &Self, handle: int, queue: Seq<Lot>)
        requires
            before.wf(),
            0 <= handle < before.entries@.len(),
            self.entries@.len() == before.entries@.len(),
            forall|i: int|
                0 <= i < before.entries@.len() ==> (#[trigger] self.entries@[i]).commodity@
                    == before.entries@[i].commodity@,
            forall|i: int|
                0 <= i < before.entries@.len() && i != handle ==> (#[trigger] self.entries@[i]).lots@
                    == before.entries@[i].lots@,
            self.entries@[handle].lots@ == queue,
            queue_wf(queue),
        ensures
            self.wf(),
            self.handles() == before.handles(),
            self@ == before@.insert(before.handles()[handle], queue),
    {
        assert(self.handles() =~= before.handles());
        self.lemma_dom();
        before.lemma_position(handle);
        assert forall|k: Instrument| #[trigger] self@.dom().contains(k) implies self@[k] == (
        before@.insert(before.handles()[handle], queue))[k] by {
            let p = position(self.entries@, k);
            assert(keys(self.entries@)[p] == k);
            self.lemma_position(p);
            before.lemma_position(p);
        }
        assert(self@ =~= before@.insert(before.handles()[handle], queue));
    }

    /// Takes the oldest lot out of a queue. The engine does so as soon as
    /// its match has used that lot up.
    pub fn remove_front(&mut self, handle: usize)
        requires
            old(self).wf(),
            handle < old(self).handles().len(),
            old(self).queue(handle as int).len() > 0,
        ensures
            final(self).wf(),
            final(self).handles() == old(self).handles(),
            final(self)@ == old(self)@.insert(
                old(self).handles()[handle as int],
                old(self).queue(handle as int).drop_first(),
            ),
    {
        proof {
            self.lemma_position(handle as int);
        }
        let _ = self.entries[handle].lots.pop_front();
        proof {
            let queue = old(self).queue(handle as int);
            assert(self.entries@[handle as int].lots@ =~= queue.drop_first());
            self.lemma_queue_replaced(old(self), handle as int, queue.drop_first());
        }
    }

    /// Writes back the oldest lot of a queue after a match has settled a
    /// part of it.
    pub fn set_front(&mut self, handle: usize, lot: Lot)
        requires
            old(self).wf(),
            handle < old(self).handles().len(),
            old(self).queue(handle as int).len() > 0,
            queue_wf(old(self).queue(handle as int).update(0, lot)),
        ensures
            final(self).wf(),
            final(self).handles() == old(self).handles(),
            final(self)@ == old(self)@.insert(
                old(self).handles()[handle as int],
                old(self).queue(handle as int).update(0, lot),
            ),
    {
        proof {
            self.lemma_position(handle as int);
        }
        let _ = self.entries[handle].lots.pop_front();
        self.entries[handle].lots.push_front(lot);
        proof {
            let queue = old(self).queue(handle as int);
            assert(self.entries@[handle as int].lots@ =~= queue.update(0, lot));
            self.lemma_queue_replaced(old(self), handle as int, queue.update(0, lot));
        }
    }

    /// Appends a lot to the tail of a queue.
    pub fn push_back(&mut self, handle: usize, lot: Lot)
        requires
            old(self).wf(),
            handle < old(self).handles().len(),
            joins(old(self).queue(handle as int), lot),
        ensures
            final(self).wf(),
            final(self).handles() == old(self).handles(),
            final(self)@ == old(self)@.insert(
                old(self).handles()[handle as int],
                old(self).queue(handle as int).push(lot),
            ),
    {
        proof {
            self.lemma_position(handle as int);
        }
        self.entries[handle].lots.push_back(lot);
        proof {
            let queue = old(self).queue(handle as int);
            self.lemma_queue_replaced(old(self), handle as int, queue.push(lot));
        }
    }
}

} // verus!
