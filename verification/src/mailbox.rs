//! The mailbox: a bounded, idle-evicting FIFO queue of messages for a single
//! connection, with a coalesced wake flag so a suspended consumer can be woken
//! exactly once per burst of sends.
//!
//! The queue does not deduplicate: distinct sends of identical content are
//! distinct entries.

use vstd::prelude::*;

use crate::proto::has_header;
use crate::proto::Message;
use crate::proto::MessageV;

verus! {

/// A mailbox whose last read or write is more than this many milliseconds in
/// the past is eligible for idle eviction (20 minutes).
pub const SESSION_POLL_TIMEOUT_MS: u64 = 1_200_000;

/// What a sender observes of one enqueue: the message goes to the back, and
/// when the queue is at capacity the oldest entry is dropped first.
pub open spec fn push_drop_oldest(q: Seq<MessageV>, m: MessageV, cap: nat) -> Seq<MessageV> {
    if q.len() < cap {
        q.push(m)
    } else {
        q.drop_first().push(m)
    }
}

/// The queue after a whole burst of sends, oldest-dropping at each step.
pub open spec fn push_all_drop_oldest(q: Seq<MessageV>, ms: Seq<MessageV>, cap: nat) -> Seq<
    MessageV,
>
    decreases ms.len(),
{
    if ms.len() == 0 {
        q
    } else {
        push_all_drop_oldest(push_drop_oldest(q, ms.first(), cap), ms.drop_first(), cap)
    }
}

/// Mathematical image of a [`Mailbox`].
#[verifier::ext_equal]
pub ghost struct MailboxV {
    /// Pending messages, oldest first.
    pub msgs: Seq<MessageV>,
    /// Whether a wake signal is pending; sends between two drains coalesce
    /// into one pending signal.
    pub wake: bool,
    /// Milliseconds timestamp of the last send or drain.
    pub touched: u64,
}

/// A bounded FIFO queue of pending messages with a coalesced wake flag and an
/// idle timer.
pub struct Mailbox {
    queue: Vec<Message>,
    capacity: usize,
    wake: bool,
    touched: u64,
}

impl View for Mailbox {
    type V = MailboxV;

    closed spec fn view(&self) -> MailboxV {
        MailboxV {
            msgs: self.queue@.map_values(|m: Message| m@),
            wake: self.wake,
            touched: self.touched,
        }
    }
}

impl Mailbox {
    /// At most this many messages are retained.
    pub closed spec fn spec_capacity(&self) -> nat {
        self.capacity as nat
    }

    /// A mailbox never holds more than its capacity, the capacity is at
    /// least one, and every pending message carries a routing header: only
    /// client-originated messages enter a mailbox, while keep-alive pings are
    /// synthesized on the consumer edge and never pass through one.
    pub open spec fn wf(&self) -> bool {
        &&& self@.msgs.len() <= self.spec_capacity()
        &&& self.spec_capacity() >= 1
        &&& forall|i: int| 0 <= i < self@.msgs.len() ==> has_header(#[trigger] self@.msgs[i])
    }

    /// A fresh, empty mailbox. A capacity below one is raised to one.
    pub fn new(capacity: usize, now: u64) -> (r: Mailbox)
        ensures
            r.wf(),
            r@.msgs == Seq::<MessageV>::empty(),
            !r@.wake,
            r@.touched == now,
            capacity >= 1 ==> r.spec_capacity() == capacity,
    {
        let cap: usize = if capacity >= 1 {
            capacity
        } else {
            1
        };
        Mailbox { queue: Vec::new(), capacity: cap, wake: false, touched: now }
    }

    /// Enqueue one message, dropping the oldest entry when full, touch the
    /// idle timer, and leave a wake signal pending. The result says whether
    /// this send must wake a suspended consumer: true exactly on the edge
    /// where no signal was pending yet, so a burst of sends wakes at most one
    /// consumer once.
    pub fn send(&mut self, msg: Message, now: u64) -> (fire: bool)
        requires
            old(self).wf(),
            has_header(msg@),
        ensures
            final(self).wf(),
            final(self).spec_capacity() == old(self).spec_capacity(),
            final(self)@.msgs == push_drop_oldest(
                old(self)@.msgs,
                msg@,
                old(self).spec_capacity(),
            ),
            final(self)@.wake,
            final(self)@.touched == now,
            fire == !old(self)@.wake,
    {
        if self.queue.len() == self.capacity {
            self.queue.remove(0);
        }
        self.queue.push(msg);
        proof {
            assert(self@.msgs =~= push_drop_oldest(
                old(self)@.msgs,
                msg@,
                old(self).spec_capacity(),
            ));
        }
        let fire = !self.wake;
        self.wake = true;
        self.touched = now;
        fire
    }

    /// Remove and return all pending messages, oldest first, touch the idle
    /// timer, and consume any pending wake signal.
    pub fn drain(&mut self, now: u64) -> (r: Vec<Message>)
        requires
            old(self).wf(),
        ensures
            final(self).wf(),
            final(self).spec_capacity() == old(self).spec_capacity(),
            r@.map_values(|m: Message| m@) == old(self)@.msgs,
            final(self)@.msgs == Seq::<MessageV>::empty(),
            !final(self)@.wake,
            final(self)@.touched == now,
    {
        let mut out: Vec<Message> = Vec::new();
        core::mem::swap(&mut out, &mut self.queue);
        self.wake = false;
        self.touched = now;
        proof {
            assert(self@.msgs =~= Seq::<MessageV>::empty());
        }
        out
    }

    /// Refresh the idle timer without reading or writing the queue, as a
    /// lookup of the mailbox does.
    pub fn touch(&mut self, now: u64)
        requires
            old(self).wf(),
        ensures
            final(self).wf(),
            final(self).spec_capacity() == old(self).spec_capacity(),
            final(self)@ == (MailboxV { touched: now, ..old(self)@ }),
    {
        self.touched = now;
    }

    /// Whether the queue holds no message.
    pub fn is_empty(&self) -> (r: bool)
        ensures
            r == (self@.msgs.len() == 0),
    {
        self.queue.len() == 0
    }

    /// Whether the mailbox is eligible for idle eviction at `now`: its last
    /// send or drain lies at least the poll timeout in the past.
    pub fn is_idle(&self, now: u64) -> (r: bool)
        ensures
            r == spec_is_idle(self@, now),
    {
        now >= self.touched && now - self.touched >= SESSION_POLL_TIMEOUT_MS
    }
}

/// Idle-eviction eligibility: the last touch lies at least the poll timeout
/// before `now`.
pub open spec fn spec_is_idle(m: MailboxV, now: u64) -> bool {
    now >= m.touched && now - m.touched >= SESSION_POLL_TIMEOUT_MS
}

/// Capacity is never exceeded, and a burst longer than the capacity leaves
/// exactly the newest `cap` messages of the burst, in send order: the queue
/// after a burst is the suffix of the prior queue followed by the burst,
/// truncated to the capacity.
pub proof fn lemma_push_all_drop_oldest(q: Seq<MessageV>, ms: Seq<MessageV>, cap: nat)
    requires
        q.len() <= cap,
        cap >= 1,
    ensures
        push_all_drop_oldest(q, ms, cap) == (q + ms).skip(
            if q.len() + ms.len() > cap {
                q.len() + ms.len() - cap
            } else {
                0
            },
        ),
        push_all_drop_oldest(q, ms, cap).len() <= cap,
    decreases ms.len(),
{
    if ms.len() == 0 {
        assert(push_all_drop_oldest(q, ms, cap) =~= (q + ms).skip(0));
    } else {
        let q1 = push_drop_oldest(q, ms.first(), cap);
        assert(q1.len() <= cap);
        lemma_push_all_drop_oldest(q1, ms.drop_first(), cap);
        assert(q1 + ms.drop_first() =~= if q.len() < cap {
            (q + ms)
        } else {
            (q + ms).skip(1)
        });
        assert(push_all_drop_oldest(q, ms, cap) =~= (q + ms).skip(
            if q.len() + ms.len() > cap {
                q.len() + ms.len() - cap
            } else {
                0
            },
        ));
    }
}

/// Mailbox capacity law: after any burst of more sends than the capacity,
/// with no intervening drain, the queue holds exactly `cap` messages and they
/// are the most recent `cap` of the burst, in send-completion order.
pub proof fn lemma_capacity_keeps_newest(q: Seq<MessageV>, ms: Seq<MessageV>, cap: nat)
    requires
        q.len() <= cap,
        cap >= 1,
        ms.len() > cap,
    ensures
        push_all_drop_oldest(q, ms, cap) == ms.skip(ms.len() - cap),
        push_all_drop_oldest(q, ms, cap).len() == cap,
{
    lemma_push_all_drop_oldest(q, ms, cap);
    assert((q + ms).skip(q.len() + ms.len() - cap) =~= ms.skip(ms.len() - cap));
}

/// Exactly-once delivery law, mailbox side: a send that does not overflow the
/// queue adds exactly one occurrence of the sent message, so a following
/// drain returns it exactly once more than the queue already held it.
pub proof fn lemma_send_exactly_once(q: Seq<MessageV>, m: MessageV, cap: nat)
    requires
        q.len() < cap,
    ensures
        push_drop_oldest(q, m, cap).to_multiset().count(m) == q.to_multiset().count(m) + 1,
        push_drop_oldest(q, m, cap) == q.push(m),
{
    q.to_multiset_ensures();
}

/// Order law, mailbox side: a burst of sends that stays within capacity is
/// appended whole, in send-completion order, after what the queue already
/// held; a single drain then returns it in that order.
pub proof fn lemma_fifo_order(q: Seq<MessageV>, ms: Seq<MessageV>, cap: nat)
    requires
        q.len() + ms.len() <= cap,
        cap >= 1,
    ensures
        push_all_drop_oldest(q, ms, cap) == q + ms,
{
    lemma_push_all_drop_oldest(q, ms, cap);
}

} // verus!
