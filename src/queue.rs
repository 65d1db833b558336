use vstd::prelude::*;

verus! {

/// A bounded outbound queue: when full, a new message displaces the oldest
/// one, and the displacement is counted, so the receive path never waits on
/// sending.
pub struct SendQueue<T> {
    items: Vec<T>,
    capacity: usize,
    dropped: u64,
}

impl<T> View for SendQueue<T> {
    type V = Seq<T>;

    closed spec fn view(&self) -> Seq<T> {
        self.items@
    }
}

impl<T> SendQueue<T> {
    pub closed spec fn wf(&self) -> bool {
        self.capacity > 0 && self.items@.len() <= self.capacity
    }

    pub closed spec fn spec_capacity(&self) -> nat {
        self.capacity as nat
    }

    /// How many messages were displaced so far (saturating).
    pub closed spec fn spec_dropped(&self) -> u64 {
        self.dropped
    }

    pub fn new(capacity: usize) -> (r: SendQueue<T>)
        requires
            capacity > 0,
        ensures
            r.wf(),
            r@ == Seq::<T>::empty(),
            r.spec_capacity() == capacity,
            r.spec_dropped() == 0,
    {
        SendQueue { items: Vec::new(), capacity, dropped: 0 }
    }

    pub fn len(&self) -> (r: usize)
        ensures
            r == self@.len(),
    {
        self.items.len()
    }

    pub fn dropped(&self) -> (r: u64)
        ensures
            r == self.spec_dropped(),
    {
        self.dropped
    }

    /// Queues `msg` last; on a full queue the oldest message is dropped first.
    pub fn push(&mut self, msg: T)
        requires
            old(self).wf(),
        ensures
            final(self).wf(),
            final(self).spec_capacity() == old(self).spec_capacity(),
            old(self)@.len() < old(self).spec_capacity() ==> final(self)@ == old(self)@.push(msg)
                && final(self).spec_dropped() == old(self).spec_dropped(),
            old(self)@.len() == old(self).spec_capacity() ==> final(self)@ == old(self)@.drop_first().push(
                msg,
            ) && final(self).spec_dropped() == (if old(self).spec_dropped() == u64::MAX {
                u64::MAX
            } else {
                (old(self).spec_dropped() + 1) as u64
            }),
    {
        if self.items.len() == self.capacity {
            self.items.remove(0);
            assert(self.items@ =~= old(self).items@.drop_first());
            if self.dropped < u64::MAX {
                self.dropped = self.dropped + 1;
            }
        }
        self.items.push(msg);
    }

    /// Takes the oldest queued message.
    pub fn pop(&mut self) -> (r: Option<T>)
        requires
            old(self).wf(),
        ensures
            final(self).wf(),
            final(self).spec_capacity() == old(self).spec_capacity(),
            final(self).spec_dropped() == old(self).spec_dropped(),
            old(self)@.len() == 0 ==> r is None && final(self)@ == old(self)@,
            old(self)@.len() > 0 ==> r == Some(old(self)@[0]) && final(self)@ == old(
                self,
            )@.drop_first(),
    {
        if self.items.len() == 0 {
            None
        } else {
            let m = self.items.remove(0);
            assert(self.items@ =~= old(self).items@.drop_first());
            Some(m)
        }
    }
}

} // verus!
