use std::collections::VecDeque;
use std::sync::{Arc, Condvar, Mutex, MutexGuard, PoisonError};
use vstd::prelude::*;

verus! {

#[verifier::external_type_specification]
#[verifier::external_body]
#[verifier::reject_recursive_types(T)]
pub struct ExMutex<T: ?Sized>(Mutex<T>);

#[verifier::external_type_specification]
#[verifier::external_body]
#[verifier::reject_recursive_types(T)]
pub struct ExMutexGuard<'a, T: ?Sized + 'a>(MutexGuard<'a, T>);

#[verifier::external_type_specification]
#[verifier::external_body]
pub struct ExCondvar(Condvar);

pub assume_specification<T>[ Mutex::<T>::new ](t: T) -> Mutex<T>;

pub assume_specification[ Condvar::new ]() -> Condvar;

/// Relies on `Mutex::lock`: returns once the calling thread holds the lock.
/// It may panic or never return if this thread already holds it. No critical
/// section of this module can panic, so the lock is never poisoned;
/// `PoisonError::into_inner` only unwraps the guard.
#[verifier::external_body]
fn lock<T>(m: &Mutex<T>) -> MutexGuard<'_, T> {
    m.lock().unwrap_or_else(PoisonError::into_inner)
}

/// Relies on `Mutex::lock`, as `lock` does, for a sender that is being
/// dropped, where nothing may unwind. `Mutex::lock` panics only where the
/// calling thread already holds the lock; the lock of a channel is private to
/// this module, and every guard of it is released within the block that took
/// it, before any handle can be dropped, so that input never arises.
#[verifier::external_body]
fn lock_for_drop<T>(shared: &Shared<T>) -> MutexGuard<'_, BehindMutex<T>>
    opens_invariants none
    no_unwind
{
    shared.mutex.lock().unwrap_or_else(PoisonError::into_inner)
}

/// Relies on `MutexGuard`'s `DerefMut`: the guard lends out the value under the lock.
#[verifier::external_body]
fn locked<'a, 'b, T>(g: &'b mut MutexGuard<'a, T>) -> &'b mut T
    opens_invariants none
    no_unwind
{
    &mut **g
}

/// Relies on `Condvar::wait`: releases the lock, sleeps until notified (or
/// woken spuriously) and returns holding the lock again. It may panic if the
/// condition variable is used with more than one mutex.
#[verifier::external_body]
fn wait<'a, T>(shared: &'a Shared<T>, g: MutexGuard<'a, BehindMutex<T>>) -> MutexGuard<
    'a,
    BehindMutex<T>,
> {
    shared.avail.wait(g).unwrap_or_else(PoisonError::into_inner)
}

/// Relies on `Condvar::notify_one`: wakes one thread waiting on `cv`, if any.
#[verifier::external_body]
fn notify_one(cv: &Condvar)
    opens_invariants none
    no_unwind
{
    cv.notify_one()
}

/// What `take` found under the lock.
pub enum Taken<T> {
    /// The front of the queue.
    Value(T),
    /// No value is queued and no sender is left: the channel is closed.
    Closed,
    /// No value is queued yet, but a sender is still alive.
    Empty,
}

/// The state that the senders and the receiver share under one lock.
pub struct BehindMutex<T> {
    queue: VecDeque<T>,
    senders_count: usize,
}

impl<T> BehindMutex<T> {
    /// The values waiting in the queue, front first.
    pub closed spec fn queued(&self) -> Seq<T> {
        self.queue@
    }

    /// How many sender handles are alive.
    pub closed spec fn senders(&self) -> nat {
        self.senders_count as nat
    }

    /// Appends `t` at the back of the queue.
    pub fn enqueue(&mut self, t: T)
        ensures
            final(self).queued() == old(self).queued().push(t),
            final(self).senders() == old(self).senders(),
    {
        self.queue.push_back(t);
    }

    /// Counts one more sender.
    pub fn add_sender(&mut self)
        requires
            old(self).senders() < usize::MAX,
        ensures
            final(self).queued() == old(self).queued(),
            final(self).senders() == old(self).senders() + 1,
    {
        self.senders_count = self.senders_count + 1;
    }

    /// Counts one sender less; true when it was the last one.
    pub fn remove_sender(&mut self) -> (last: bool)
        requires
            old(self).senders() > 0,
        ensures
            final(self).queued() == old(self).queued(),
            final(self).senders() == old(self).senders() - 1,
            last == (final(self).senders() == 0),
        opens_invariants none
        no_unwind
    {
        self.senders_count = self.senders_count - 1;
        self.senders_count == 0
    }

    /// Takes the front of the queue; what remains behind it moves into
    /// `buffer` at once, so that it can be handed out without the lock.
    pub fn take(&mut self, buffer: &mut VecDeque<T>) -> (r: Taken<T>)
        requires
            old(buffer)@.len() == 0,
        ensures
            final(self).senders() == old(self).senders(),
            final(self).queued() == Seq::<T>::empty(),
            (r, final(buffer)@) == take_spec(old(self).queued(), old(self).senders()),
    {
        match self.queue.pop_front() {
            Some(t) => {
                if self.queue.len() > 0 {
                    std::mem::swap(buffer, &mut self.queue);
                }
                Taken::Value(t)
            },
            None => {
                if self.senders_count == 0 {
                    Taken::Closed
                } else {
                    Taken::Empty
                }
            },
        }
    }
}

impl<T> Default for BehindMutex<T> {
    /// A fresh channel: nothing queued, one sender.
    fn default() -> (r: Self)
        ensures
            r.queued() == Seq::<T>::empty(),
            r.senders() == 1,
    {
        BehindMutex { queue: VecDeque::new(), senders_count: 1 }
    }
}

#[verifier::reject_recursive_types(T)]
struct Shared<T> {
    mutex: Mutex<BehindMutex<T>>,
    avail: Condvar,
}

/// A producer handle. Clones share the channel; each counts as one sender.
#[verifier::reject_recursive_types(T)]
pub struct Sender<T> {
    shared: Arc<Shared<T>>,
}

impl<T> Sender<T> {
    /// Both handles feed the same channel.
    pub closed spec fn same_channel(&self, other: &Sender<T>) -> bool {
        self.shared == other.shared
    }

    /// This handle feeds the channel that `rx` drains.
    pub closed spec fn feeds(&self, rx: &Receiver<T>) -> bool {
        self.shared == rx.shared
    }

    /// Queues `t` for the receiver and wakes it. Never blocks on data and
    /// never fails.
    pub fn send(&mut self, t: T)
        ensures
            *final(self) == *old(self),
    {
        {
            let mut guard = lock(&self.shared.mutex);
            locked(&mut guard).enqueue(t);
        }
        notify_one(&self.shared.avail);
    }
}

impl<T> Clone for Sender<T> {
    fn clone(&self) -> (r: Self)
        ensures
            r.same_channel(self),
    {
        {
            let mut guard = lock(&self.shared.mutex);
            let state = locked(&mut guard);
            // Every sender holds a clone of the `Arc`, whose own count stops
            // far below `usize::MAX`, so the test always holds.
            if state.senders_count < usize::MAX {
                state.add_sender();
            }
        }
        Sender { shared: self.shared.clone() }
    }
}

impl<T> Drop for Sender<T> {
    fn drop(&mut self)
        opens_invariants none
        no_unwind
    {
        let last = {
            let mut guard = lock_for_drop(&self.shared);
            let state = locked(&mut guard);
            // This handle is counted, so the count is positive.
            state.senders_count > 0 && state.remove_sender()
        };
        if last {
            notify_one(&self.shared.avail);
        }
    }
}

/// The single consumer handle.
#[verifier::reject_recursive_types(T)]
pub struct Receiver<T> {
    shared: Arc<Shared<T>>,
    swap_buffer: VecDeque<T>,
}

impl<T> Receiver<T> {
    /// The values that this receiver already holds, front first.
    pub closed spec fn buffered(&self) -> Seq<T> {
        self.swap_buffer@
    }

    /// The next value: from the local buffer if it holds one, else from the
    /// shared queue, waiting while it is empty and a sender is alive. `None`
    /// once every sender is gone and nothing is left.
    pub fn recv(&mut self) -> (r: Option<T>)
        ensures
            old(self).buffered().len() > 0 ==> r == Some(old(self).buffered()[0])
                && final(self).buffered() == old(self).buffered().drop_first(),
            old(self).buffered().len() == 0 && r is None ==> final(self).buffered()
                == Seq::<T>::empty(),
    {
        if let Some(t) = self.swap_buffer.pop_front() {
            return Some(t);
        }
        let mut guard = lock(&self.shared.mutex);
        // The bound only makes the loop provably finite: each round waits
        // for a notification, and a closed channel ends the loop first.
        let mut rounds: usize = 0;
        while rounds < usize::MAX
            invariant
                self.swap_buffer@.len() == 0,
                old(self).swap_buffer@.len() == 0,
            decreases usize::MAX - rounds,
        {
            match locked(&mut guard).take(&mut self.swap_buffer) {
                Taken::Value(t) => {
                    return Some(t);
                },
                Taken::Closed => {
                    return None;
                },
                Taken::Empty => {
                    guard = wait(&self.shared, guard);
                },
            }
            rounds = rounds + 1;
        }
        None
    }
}

/// A new channel: one sender and the receiver, sharing one empty queue.
pub fn channel<T>() -> (r: (Sender<T>, Receiver<T>))
    ensures
        r.0.feeds(&r.1),
        r.1.buffered() == Seq::<T>::empty(),
{
    let shared = Shared { mutex: Mutex::new(BehindMutex::default()), avail: Condvar::new() };
    let arc_shared = Arc::new(shared);
    (
        Sender { shared: arc_shared.clone() },
        Receiver { shared: arc_shared, swap_buffer: VecDeque::new() },
    )
}


/// A channel as its users observe it: the values the receiver already holds,
/// the values still in the shared queue, and the live senders. Every
/// operation runs under the lock (or, for the receiver's own buffer, on the
/// receiver's thread alone), so any concurrent run is one sequence of the
/// steps below.
pub struct ChannelModel<T> {
    pub buffer: Seq<T>,
    pub queue: Seq<T>,
    pub senders: nat,
}

/// One operation on a channel.
pub enum Op<T> {
    Send(T),
    Recv,
    Clone,
    Drop,
}

/// The model of a new channel.
pub open spec fn fresh<T>() -> ChannelModel<T> {
    ChannelModel { buffer: Seq::empty(), queue: Seq::empty(), senders: 1 }
}

/// What `take` does to the shared state: the outcome, and what it leaves in
/// the receiver's buffer.
pub open spec fn take_spec<T>(queue: Seq<T>, senders: nat) -> (Taken<T>, Seq<T>) {
    if queue.len() > 0 {
        (Taken::Value(queue[0]), queue.drop_first())
    } else if senders == 0 {
        (Taken::Closed, Seq::empty())
    } else {
        (Taken::Empty, Seq::empty())
    }
}

/// Whether `op` can happen in `m`: sending, cloning and dropping need a live
/// sender; a receive that would wait is not a step.
pub open spec fn enabled<T>(m: ChannelModel<T>, op: Op<T>) -> bool {
    match op {
        Op::Recv => m.buffer.len() > 0 || m.queue.len() > 0 || m.senders == 0,
        _ => m.senders > 0,
    }
}

/// One step: the next state, the value delivered by a receive, and whether
/// the last sender was just dropped (the one notification of closure).
pub open spec fn step<T>(m: ChannelModel<T>, op: Op<T>) -> (ChannelModel<T>, Option<T>, bool) {
    match op {
        Op::Send(v) => (ChannelModel { queue: m.queue.push(v), ..m }, None, false),
        Op::Recv => if m.buffer.len() > 0 {
            (ChannelModel { buffer: m.buffer.drop_first(), ..m }, Some(m.buffer[0]), false)
        } else {
            let (t, rest) = take_spec(m.queue, m.senders);
            match t {
                Taken::Value(v) => (
                    ChannelModel { buffer: rest, queue: Seq::empty(), ..m },
                    Some(v),
                    false,
                ),
                _ => (m, None, false),
            }
        },
        Op::Clone => (ChannelModel { senders: m.senders + 1, ..m }, None, false),
        Op::Drop => (
            ChannelModel { senders: (m.senders - 1) as nat, ..m },
            None,
            m.senders == 1,
        ),
    }
}

/// The state after `ops`.
pub open spec fn run<T>(m: ChannelModel<T>, ops: Seq<Op<T>>) -> ChannelModel<T>
    decreases ops.len(),
{
    if ops.len() == 0 {
        m
    } else {
        step(run(m, ops.drop_last()), ops.last()).0
    }
}

/// Every operation of `ops` can happen where it stands.
pub open spec fn valid<T>(m: ChannelModel<T>, ops: Seq<Op<T>>) -> bool
    decreases ops.len(),
{
    ops.len() == 0 || (valid(m, ops.drop_last()) && enabled(run(m, ops.drop_last()), ops.last()))
}

/// The values that the receives of `ops` deliver, in order.
pub open spec fn received<T>(m: ChannelModel<T>, ops: Seq<Op<T>>) -> Seq<T>
    decreases ops.len(),
{
    if ops.len() == 0 {
        Seq::empty()
    } else {
        received(m, ops.drop_last()) + match step(run(m, ops.drop_last()), ops.last()).1 {
            Some(v) => seq![v],
            None => Seq::empty(),
        }
    }
}

/// The results of the receives of `ops`, in order (`None` for closed).
pub open spec fn recv_results<T>(m: ChannelModel<T>, ops: Seq<Op<T>>) -> Seq<Option<T>>
    decreases ops.len(),
{
    if ops.len() == 0 {
        Seq::empty()
    } else {
        recv_results(m, ops.drop_last()) + match ops.last() {
            Op::Recv => seq![step(run(m, ops.drop_last()), ops.last()).1],
            _ => Seq::empty(),
        }
    }
}

/// How many closure notifications `ops` raise.
pub open spec fn signals<T>(m: ChannelModel<T>, ops: Seq<Op<T>>) -> nat
    decreases ops.len(),
{
    if ops.len() == 0 {
        0
    } else {
        signals(m, ops.drop_last()) + if step(run(m, ops.drop_last()), ops.last()).2 {
            1nat
        } else {
            0nat
        }
    }
}

/// The values that the sends of `ops` hand over, in order.
pub open spec fn sent<T>(ops: Seq<Op<T>>) -> Seq<T>
    decreases ops.len(),
{
    if ops.len() == 0 {
        Seq::empty()
    } else {
        sent(ops.drop_last()) + match ops.last() {
            Op::Send(v) => seq![v],
            _ => Seq::empty(),
        }
    }
}

/// How many clones, and how many drops, `ops` hold.
pub open spec fn count_ops<T>(ops: Seq<Op<T>>, clone: bool) -> nat
    decreases ops.len(),
{
    if ops.len() == 0 {
        0
    } else {
        count_ops(ops.drop_last(), clone) + match (ops.last(), clone) {
            (Op::Clone, true) => 1nat,
            (Op::Drop, false) => 1nat,
            _ => 0nat,
        }
    }
}

/// Nothing is lost, duplicated, changed or reordered: what the receiver got,
/// followed by what is still pending, is exactly what was sent, in the order
/// of the sends; whether a receive moved the rest of the queue into the
/// receiver's buffer or not makes no difference.
pub proof fn lemma_delivery<T>(m: ChannelModel<T>, ops: Seq<Op<T>>)
    ensures
        received(m, ops) + run(m, ops).buffer + run(m, ops).queue == m.buffer + m.queue + sent(
            ops,
        ),
    decreases ops.len(),
{
    if ops.len() > 0 {
        let pre = ops.drop_last();
        lemma_delivery(m, pre);
        let s = run(m, pre);
        let r = received(m, pre);
        match ops.last() {
            Op::Send(v) => {
                assert(r + s.buffer + s.queue.push(v) =~= (r + s.buffer + s.queue).push(v));
                assert(m.buffer + m.queue + sent(ops) =~= (m.buffer + m.queue + sent(pre)).push(v));
            },
            Op::Recv => {
                if s.buffer.len() > 0 {
                    assert(r.push(s.buffer[0]) + s.buffer.drop_first() + s.queue =~= r + s.buffer
                        + s.queue);
                } else if s.queue.len() > 0 {
                    assert(r.push(s.queue[0]) + s.queue.drop_first() + Seq::<T>::empty() =~= r
                        + s.buffer + s.queue);
                } else {
                    assert(r + Seq::<T>::empty() =~= r);
                }
                assert(sent(ops) =~= sent(pre));
            },
            _ => {
                assert(r + Seq::<T>::empty() =~= r);
                assert(sent(ops) =~= sent(pre));
            },
        }
    }
}

/// A receive hands out the front of everything pending (the receiver's
/// buffer, then the shared queue) and leaves the rest in order, whether or
/// not it moves the rest of the queue into the buffer.
pub proof fn lemma_recv_pops_pending<T>(m: ChannelModel<T>)
    requires
        m.buffer.len() + m.queue.len() > 0,
    ensures
        step(m, Op::Recv).1 == Some((m.buffer + m.queue)[0]),
        step(m, Op::Recv).0.buffer + step(m, Op::Recv).0.queue == (m.buffer + m.queue).drop_first(),
        step(m, Op::Recv).0.senders == m.senders,
{
    let p = m.buffer + m.queue;
    if m.buffer.len() > 0 {
        assert(m.buffer.drop_first() + m.queue =~= p.drop_first());
    } else {
        assert(m.queue.drop_first() + Seq::<T>::empty() =~= p.drop_first());
        assert(p =~= m.queue);
    }
}

/// From a new channel, the receiver gets a prefix of the sent values, in
/// send order, each once.
pub proof fn lemma_fifo<T>(ops: Seq<Op<T>>)
    ensures
        received(fresh(), ops) == sent(ops).subrange(0, received(fresh(), ops).len() as int),
{
    lemma_delivery(fresh(), ops);
    let r = received(fresh::<T>(), ops);
    let s = run(fresh::<T>(), ops);
    assert(fresh::<T>().buffer + fresh::<T>().queue + sent(ops) =~= sent(ops));
    assert((r + s.buffer + s.queue).subrange(0, r.len() as int) =~= r);
}

/// Whatever the interleaving of producers, the values of any one producer
/// (those that `mine` picks out) reach the receiver in that producer's order,
/// each once: they form a prefix of what that producer sent.
pub proof fn lemma_per_producer<T>(ops: Seq<Op<T>>, mine: spec_fn(T) -> bool)
    ensures
        received(fresh(), ops).filter(mine) == sent(ops).filter(mine).subrange(
            0,
            received(fresh(), ops).filter(mine).len() as int,
        ),
{
    broadcast use Seq::filter_distributes_over_add;

    lemma_delivery(fresh(), ops);
    let r = received(fresh::<T>(), ops);
    let s = run(fresh::<T>(), ops);
    assert(fresh::<T>().buffer + fresh::<T>().queue + sent(ops) =~= sent(ops));
    assert(r + s.buffer + s.queue =~= r + (s.buffer + s.queue));
    let rf = r.filter(mine);
    assert((r + (s.buffer + s.queue)).filter(mine) == rf + (s.buffer + s.queue).filter(mine));
    assert((rf + (s.buffer + s.queue).filter(mine)).subrange(0, rf.len() as int) =~= rf);
}

/// Closure is final: once no sender is left and nothing is pending, every
/// receive returns `None` and the state stays as it is.
pub proof fn lemma_closed_stays_closed<T>(m: ChannelModel<T>, ops: Seq<Op<T>>)
    requires
        m.senders == 0,
        m.buffer.len() == 0,
        m.queue.len() == 0,
        valid(m, ops),
    ensures
        run(m, ops) == m,
        forall|i: int| 0 <= i < recv_results(m, ops).len() ==> recv_results(m, ops)[i] is None,
    decreases ops.len(),
{
    if ops.len() > 0 {
        lemma_closed_stays_closed(m, ops.drop_last());
        let pre = recv_results(m, ops.drop_last());
        assert forall|i: int| 0 <= i < recv_results(m, ops).len() implies recv_results(m, ops)[i] is None by {
            if i >= pre.len() {
                assert(ops.last() is Recv);
            } else {
                assert(recv_results(m, ops)[i] == pre[i]);
            }
        }
    }
}

/// The sender count is one plus the clones minus the drops, and closure is
/// notified exactly once if it has reached zero, never otherwise.
pub proof fn lemma_sender_count<T>(ops: Seq<Op<T>>)
    requires
        valid(fresh(), ops),
    ensures
        run(fresh(), ops).senders + count_ops(ops, false) == 1 + count_ops(ops, true),
        signals(fresh(), ops) == if run(fresh(), ops).senders == 0 {
            1nat
        } else {
            0nat
        },
    decreases ops.len(),
{
    if ops.len() > 0 {
        lemma_sender_count(ops.drop_last());
    }
}

} // verus!
