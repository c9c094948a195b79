//! The bounded first-in-first-out queue that carries control messages
//! from the user interface to the session machine. A full queue turns a
//! send away instead of dropping anything, so a burst of clicks is either
//! kept in order or visibly refused.

use vstd::prelude::*;
use crate::timer::EventMessage;

verus! {

/// How many messages the queue holds at most.
pub const QUEUE_CAPACITY: usize = 16;

/// A bounded queue of control messages, oldest first.
#[derive(Debug)]
pub struct CommandQueue {
    items: Vec<EventMessage>,
}

impl CommandQueue {
    /// The messages in arrival order.
    pub closed spec fn view(&self) -> Seq<EventMessage> {
        self.items@
    }

    pub fn new() -> (r: CommandQueue)
        ensures
            r@ == Seq::<EventMessage>::empty(),
    {
        CommandQueue { items: Vec::new() }
    }

    pub fn len(&self) -> (r: usize)
        ensures
            r == self@.len(),
    {
        self.items.len()
    }

    /// Accepts the message unless the queue is full; a refused message
    /// leaves the queue unchanged so the caller can signal "busy".
    pub fn try_send(&mut self, msg: EventMessage) -> (accepted: bool)
        ensures
            accepted == (old(self)@.len() < QUEUE_CAPACITY),
            accepted ==> final(self)@ == old(self)@.push(msg),
            !accepted ==> final(self)@ == old(self)@,
    {
        if self.items.len() < QUEUE_CAPACITY {
            self.items.push(msg);
            true
        } else {
            false
        }
    }

    /// Takes the oldest message, if any; later messages keep their order.
    pub fn recv(&mut self) -> (r: Option<EventMessage>)
        ensures
            old(self)@.len() == 0 ==> r is None && final(self)@ == old(self)@,
            old(self)@.len() > 0 ==> r == Some(old(self)@[0]) && final(self)@ == old(
                self,
            )@.drop_first(),
    {
        if self.items.len() == 0 {
            None
        } else {
            let m = self.items.remove(0);
            proof {
                assert(self.items@ =~= old(self)@.drop_first());
            }
            Some(m)
        }
    }
}

} // verus!
