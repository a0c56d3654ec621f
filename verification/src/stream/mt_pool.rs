//! What goes between a writer and its workers: a pool of buffers, and the turn in which
//! workers get blocks.
use crate::stream::Concurrency;
use vstd::prelude::*;

verus! {

/// A pool that keeps up to a number of empty buffers for further use.
#[derive(Debug)]
pub struct BufferPool {
    items: Vec<Vec<u8>>,
    max_items: usize,
    cap_hint: usize,
}

impl BufferPool {
    /// How many buffers the pool holds.
    pub closed spec fn count(&self) -> nat {
        self.items@.len()
    }

    /// How many buffers the pool holds at most.
    pub closed spec fn limit(&self) -> usize {
        self.max_items
    }

    /// The pool holds no more than it may, and only empty buffers.
    pub closed spec fn wf(&self) -> bool {
        &&& self.items@.len() <= self.max_items
        &&& forall|i: int| 0 <= i < self.items@.len() ==> (#[trigger] self.items@[i])@.len() == 0
    }

    /// A pool without buffers that holds at most `max_items`; those it makes have room for
    /// `cap_hint` bytes.
    pub fn new(max_items: usize, cap_hint: usize) -> (r: Self)
        ensures
            r.wf(),
            r.count() == 0,
            r.limit() == max_items,
    {
        BufferPool { items: Vec::new(), max_items, cap_hint }
    }

    /// Takes a buffer from the pool, or makes one. It is empty.
    pub fn acquire(&mut self) -> (r: Vec<u8>)
        requires
            old(self).wf(),
        ensures
            final(self).wf(),
            final(self).limit() == old(self).limit(),
            r@ == Seq::<u8>::empty(),
            final(self).count() == if old(self).count() > 0 {
                (old(self).count() - 1) as nat
            } else {
                0
            },
    {
        match self.items.pop() {
            Some(b) => {
                assert(b@ == old(self).items@[old(self).items@.len() - 1]@);
                assert(b@ =~= Seq::<u8>::empty());
                assert forall|i: int| 0 <= i < self.items@.len() implies (
                #[trigger] self.items@[i])@.len() == 0 by {
                    assert(self.items@[i] == old(self).items@[i]);
                }
                b
            },
            None => Vec::with_capacity(self.cap_hint),
        }
    }

    /// Empties a buffer and puts it back; where the pool is full, the buffer is dropped.
    pub fn release(&mut self, buf: Vec<u8>)
        requires
            old(self).wf(),
        ensures
            final(self).wf(),
            final(self).limit() == old(self).limit(),
            final(self).count() == if old(self).count() < old(self).limit() {
                old(self).count() + 1
            } else {
                old(self).count()
            },
    {
        let mut b: Vec<u8> = buf;
        b.clear();
        if self.items.len() < self.max_items {
            self.items.push(b);
            assert forall|i: int| 0 <= i < self.items@.len() implies (
            #[trigger] self.items@[i])@.len() == 0 by {
                if i < old(self).items@.len() {
                    assert(self.items@[i] == old(self).items@[i]);
                }
            }
        }
    }
}

/// The worker that is asked as number `tried`, where `first` is asked first.
pub open spec fn turn(first: usize, tried: usize, workers: usize) -> int {
    (first + tried) % (workers as int)
}

/// Workers that get blocks in turn.
///
/// A block is offered to one worker after the other until one takes it. Where none does,
/// the last one is waited for.
#[derive(Debug, Clone, Copy)]
pub struct RoundRobin {
    workers: usize,
    next: usize,
}

/// A block that is offered: to which worker, and how many others were asked before.
#[derive(Debug, Clone, Copy)]
pub struct Offer {
    first: usize,
    tried: usize,
    slot: usize,
}

/// What to do with a block that a worker did not take.
#[derive(Debug, Clone, Copy)]
pub enum Refused {
    /// Offer it to another worker.
    Ask(Offer),
    /// Wait until this worker takes it.
    Wait(usize),
}

impl Offer {
    /// The worker that was asked first.
    pub closed spec fn first(self) -> usize {
        self.first
    }

    /// How many offers were refused before.
    pub closed spec fn tried(self) -> usize {
        self.tried
    }

    /// The offer is one of `n` workers.
    pub closed spec fn wf(self, n: usize) -> bool {
        &&& n >= 1
        &&& self.first < n
        &&& self.slot < n
        &&& self.slot == turn(self.first, self.tried, n)
        &&& self.tried <= 1 || self.tried < n
    }

    /// Returns the worker that is asked.
    pub fn slot(&self, workers: &RoundRobin) -> (r: usize)
        requires
            self.wf(workers.count()),
        ensures
            r == turn(self.first(), self.tried(), workers.count()),
            r < workers.count(),
    {
        self.slot
    }
}

/// The number that follows in turn.
fn after(slot: usize, n: usize) -> (r: usize)
    requires
        slot < n,
    ensures
        r == (slot + 1) % (n as int),
        r < n,
{
    proof {
        if slot + 1 < n {
            vstd::arithmetic::div_mod::lemma_small_mod((slot + 1) as nat, n as nat);
        } else {
            vstd::arithmetic::div_mod::lemma_mod_self_0(n as int);
        }
    }
    if slot + 1 < n {
        slot + 1
    } else {
        0
    }
}

impl RoundRobin {
    /// How many workers there are.
    pub closed spec fn count(self) -> usize {
        self.workers
    }

    /// The worker that is asked first for the next block.
    pub closed spec fn next(self) -> usize {
        self.next
    }

    /// There is a worker, and it can be asked.
    pub closed spec fn wf(self) -> bool {
        self.workers >= 1 && self.next < self.workers
    }

    /// Workers of which the first is asked first.
    pub fn new(workers: Concurrency) -> (r: Self)
        ensures
            r.wf(),
            r.count() == workers.count(),
            r.next() == 0,
    {
        RoundRobin { workers: workers.get(), next: 0 }
    }

    /// Offers a block to the worker whose turn it is. The next block goes to the next
    /// worker first.
    pub fn offer(&mut self) -> (r: Offer)
        requires
            old(self).wf(),
        ensures
            final(self).wf(),
            final(self).count() == old(self).count(),
            final(self).next() == turn(old(self).next(), 1, old(self).count()),
            r.wf(old(self).count()),
            r.first() == old(self).next(),
            r.tried() == 0,
    {
        let first: usize = self.next;
        proof {
            vstd::arithmetic::div_mod::lemma_small_mod(first as nat, self.workers as nat);
        }
        self.next = after(first, self.workers);
        Offer { first, tried: 0, slot: first }
    }

    /// A worker took the block. Where others were asked before, the next block goes first
    /// to the worker behind it.
    pub fn taken(&mut self, o: Offer)
        requires
            old(self).wf(),
            o.wf(old(self).count()),
        ensures
            final(self).wf(),
            final(self).count() == old(self).count(),
            o.tried() == 0 ==> final(self).next() == old(self).next(),
            o.tried() > 0 ==> final(self).next() == (turn(o.first(), o.tried(), old(self).count())
                + 1) % (old(self).count() as int),
    {
        if o.tried > 0 {
            self.next = after(o.slot, self.workers);
        }
    }

    /// A worker did not take the block. It is offered to the next one; where at least one
    /// offer besides the first was refused, and every worker was asked, the last one is
    /// waited for.
    pub fn refused(&self, o: Offer) -> (r: Refused)
        requires
            self.wf(),
            o.wf(self.count()),
        ensures
            (match r {
                Refused::Ask(x) => {
                    &&& x.wf(self.count())
                    &&& x.first() == o.first()
                    &&& x.tried() == o.tried() + 1
                    &&& o.tried() == 0 || o.tried() + 1 < self.count()
                },
                Refused::Wait(slot) => {
                    &&& slot == turn(o.first(), o.tried(), self.count())
                    &&& slot < self.count()
                    &&& o.tried() > 0 && o.tried() + 1 >= self.count()
                },
            }),
    {
        if o.tried > 0 && o.tried >= self.workers - 1 {
            return Refused::Wait(o.slot);
        }
        proof {
            let n = self.workers as int;
            vstd::arithmetic::div_mod::lemma_add_mod_noop(o.first + o.tried, 1, n);
            if n == 1 {
                assert(o.slot == 0);
            } else {
                vstd::arithmetic::div_mod::lemma_small_mod(1, n as nat);
            }
            vstd::arithmetic::div_mod::lemma_mod_bound(o.first + o.tried + 1, n);
            vstd::arithmetic::div_mod::lemma_add_mod_noop(o.slot as int, 1, n);
            vstd::arithmetic::div_mod::lemma_small_mod(o.slot as nat, n as nat);
        }
        Refused::Ask(
            Offer { first: o.first, tried: o.tried + 1, slot: after(o.slot, self.workers) },
        )
    }
}

/// Where a block is offered as often as there are workers, every worker is asked.
pub proof fn law_every_worker_asked(first: usize, workers: usize, w: usize) -> (k: usize)
    requires
        workers >= 1,
        first < workers,
        w < workers,
    ensures
        k < workers,
        turn(first, k, workers) == w,
{
    let n = workers as int;
    if w >= first {
        let k = (w - first) as usize;
        vstd::arithmetic::div_mod::lemma_small_mod(w as nat, workers as nat);
        k
    } else {
        let k = (w - first + workers) as usize;
        assert(first + k == w + n);
        vstd::arithmetic::div_mod::lemma_mod_add_multiples_vanish(w as int, n);
        vstd::arithmetic::div_mod::lemma_small_mod(w as nat, workers as nat);
        k
    }
}

} // verus!
