//! The report channel: a many-producer, single-consumer queue of status
//! messages, modelled as one sequential object.
//!
//! The model keeps the pending messages in arrival order, counts the live
//! sender handles, and remembers whether the consumer is still there.  A send
//! never blocks and fails exactly when the consumer has gone away; a receive
//! yields end-of-stream exactly when nothing is pending and every sender
//! handle has been dropped.

use vstd::prelude::*;

verus! {

/// One status line a worker can emit, identified by the worker's index.
#[derive(Clone, Copy, PartialEq, Eq, Structural, Debug)]
pub enum Message {
    /// The worker announced a fresh idea after a finished meal.
    NewIdea { who: usize },
    /// The worker acquired both of its resources and started to eat.
    Eating { who: usize },
    /// The worker held only its right resource and gave it back.
    MissingLeft { who: usize },
    /// The worker held only its left resource and gave it back.
    MissingRight { who: usize },
}

/// The abstract state of a [`ReportChannel`].
#[verifier::ext_equal]
pub struct ChannelView {
    /// Messages sent and not yet received, oldest first.
    pub queue: Seq<Message>,
    /// Live sender handles.
    pub senders: nat,
    /// Whether the consumer side still exists.
    pub receiver_alive: bool,
}

/// A many-producer, single-consumer report queue.
pub struct ReportChannel {
    queue: Vec<Message>,
    senders: usize,
    receiver_alive: bool,
}

impl View for ReportChannel {
    type V = ChannelView;

    closed spec fn view(&self) -> ChannelView {
        ChannelView {
            queue: self.queue@,
            senders: self.senders as nat,
            receiver_alive: self.receiver_alive,
        }
    }
}

impl ReportChannel {
    /// A fresh channel with `senders` live sender handles and a live consumer.
    pub fn new(senders: usize) -> (c: ReportChannel)
        ensures
            c@.queue.len() == 0,
            c@.senders == senders,
            c@.receiver_alive,
    {
        ReportChannel { queue: Vec::new(), senders, receiver_alive: true }
    }

    /// Enqueues `m` without blocking.  Returns whether the message was
    /// delivered: it is not exactly when the consumer has gone away, which a
    /// producer must treat as its cue to shut down, not as a fault.
    pub fn send(&mut self, m: Message) -> (delivered: bool)
        ensures
            delivered == old(self)@.receiver_alive,
            delivered ==> final(self)@.queue == old(self)@.queue.push(m),
            !delivered ==> final(self)@.queue == old(self)@.queue,
            final(self)@.senders == old(self)@.senders,
            final(self)@.receiver_alive == old(self)@.receiver_alive,
    {
        if self.receiver_alive {
            self.queue.push(m);
            true
        } else {
            false
        }
    }

    /// Dequeues the oldest pending message, or reports end-of-stream with
    /// `None` once every sender handle is gone and nothing is pending.  The
    /// real receive blocks while the queue is empty and senders remain, so the
    /// model refuses to be called in that state.
    pub fn recv(&mut self) -> (r: Option<Message>)
        requires
            old(self)@.queue.len() > 0 || old(self)@.senders == 0,
        ensures
            old(self)@.queue.len() > 0 ==> r == Some(old(self)@.queue[0])
                && final(self)@.queue == old(self)@.queue.drop_first(),
            old(self)@.queue.len() == 0 ==> r is None && final(self)@.queue == old(self)@.queue,
            (r is None) <==> (old(self)@.queue.len() == 0 && old(self)@.senders == 0),
            final(self)@.senders == old(self)@.senders,
            final(self)@.receiver_alive == old(self)@.receiver_alive,
    {
        if self.queue.len() > 0 {
            let m = self.queue.remove(0);
            proof {
                assert(self.queue@ =~= old(self).queue@.drop_first());
            }
            Some(m)
        } else {
            None
        }
    }

    /// One producer drops its sender handle.
    pub fn drop_sender(&mut self)
        requires
            old(self)@.senders > 0,
        ensures
            final(self)@.senders == old(self)@.senders - 1,
            final(self)@.queue == old(self)@.queue,
            final(self)@.receiver_alive == old(self)@.receiver_alive,
    {
        self.senders = self.senders - 1;
    }

    /// The consumer goes away; every later send will fail.
    pub fn close_receiver(&mut self)
        ensures
            !final(self)@.receiver_alive,
            final(self)@.queue == old(self)@.queue,
            final(self)@.senders == old(self)@.senders,
    {
        self.receiver_alive = false;
    }

    /// Receives until end-of-stream, returning every pending message exactly
    /// once, in order: nothing is lost and nothing is duplicated.
    pub fn drain(&mut self) -> (r: Vec<Message>)
        requires
            old(self)@.senders == 0,
        ensures
            r@ == old(self)@.queue,
            final(self)@.queue.len() == 0,
            final(self)@.senders == 0,
            final(self)@.receiver_alive == old(self)@.receiver_alive,
    {
        let mut out: Vec<Message> = Vec::new();
        while self.pending() > 0
            invariant
                self@.senders == 0,
                self@.receiver_alive == old(self)@.receiver_alive,
                out@ + self@.queue == old(self)@.queue,
            decreases self@.queue.len(),
        {
            match self.recv() {
                Some(m) => {
                    out.push(m);
                    proof {
                        assert(out@ + self@.queue =~= old(self)@.queue);
                    }
                }
                None => {
                    proof {
                        assert(false);
                    }
                }
            }
        }
        proof {
            assert(out@ =~= old(self)@.queue);
        }
        out
    }

    /// How many messages are pending.
    pub fn pending(&self) -> (n: usize)
        ensures
            n == self@.queue.len(),
    {
        self.queue.len()
    }

    /// The pending message at position `i` (oldest is position 0).
    pub fn peek(&self, i: usize) -> (m: Message)
        requires
            i < self@.queue.len(),
        ensures
            m == self@.queue[i as int],
    {
        self.queue[i]
    }

    /// How many sender handles are live.
    pub fn sender_count(&self) -> (n: usize)
        ensures
            n == self@.senders,
    {
        self.senders
    }

    /// Whether the consumer side still exists.
    pub fn receiver_alive(&self) -> (b: bool)
        ensures
            b == self@.receiver_alive,
    {
        self.receiver_alive
    }
}

} // verus!
