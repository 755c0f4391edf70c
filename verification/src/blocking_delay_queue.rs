//! A capacity-bounded queue ordered by a per-item ready instant.
//!
//! Each entry carries the instant (milliseconds) at which it becomes
//! eligible for removal. The queue releases entries in ready order: the
//! entry with the smallest ready instant leaves first, and never before its
//! instant has passed. The view of the queue is its entries sorted by ready
//! instant in non-increasing order, so the next entry to leave is the last
//! of the view.

use vstd::prelude::*;

use crate::clock::now_millis;
use crate::clock::sleep_millis;

verus! {

broadcast use vstd::seq_lib::group_to_multiset_ensures;

/// An entry of the queue: a payload together with the instant at which it
/// becomes ready for removal.
pub struct DelayItem<T> {
    pub data: T,
    pub delay: u64,
}

impl<T> DelayItem<T> {
    /// An entry is expired once its ready instant is no longer in the future.
    pub open spec fn spec_is_expired(&self, now: u64) -> bool {
        self.delay <= now
    }

    pub fn is_expired(&self, now: u64) -> (r: bool)
        ensures
            r == self.spec_is_expired(now),
    {
        self.delay <= now
    }
}

/// The entries ordered by ready instant, latest first: the minimum is last.
pub open spec fn sorted_by_ready<T>(s: Seq<DelayItem<T>>) -> bool {
    forall|i: int, j: int| 0 <= i <= j < s.len() ==> s[i].delay >= s[j].delay
}

/// A bounded queue of delayed entries. The number of entries never exceeds
/// the capacity fixed at construction.
pub struct BlockingDelayQueue<T> {
    items: Vec<DelayItem<T>>,
    capacity: usize,
}

impl<T> View for BlockingDelayQueue<T> {
    type V = Seq<DelayItem<T>>;

    closed spec fn view(&self) -> Seq<DelayItem<T>> {
        self.items@
    }
}

impl<T> BlockingDelayQueue<T> {
    pub closed spec fn spec_capacity(&self) -> usize {
        self.capacity
    }

    /// Well-formed: at most `capacity` entries, held in ready order.
    pub open spec fn wf(&self) -> bool {
        &&& 1 <= self.spec_capacity()
        &&& self@.len() <= self.spec_capacity()
        &&& sorted_by_ready(self@)
    }

    pub fn new(capacity: usize) -> (r: Self)
        requires
            1 <= capacity,
        ensures
            r.wf(),
            r@ == Seq::<DelayItem<T>>::empty(),
            r.spec_capacity() == capacity,
    {
        BlockingDelayQueue { items: Vec::new(), capacity }
    }

    pub fn size(&self) -> (r: usize)
        ensures
            r == self@.len(),
    {
        self.items.len()
    }

    /// Insert one entry at its place in the ready order.
    fn push(&mut self, data: T, delay: u64)
        requires
            old(self).wf(),
            old(self)@.len() < old(self).spec_capacity(),
        ensures
            final(self).wf(),
            final(self).spec_capacity() == old(self).spec_capacity(),
            final(self)@.len() == old(self)@.len() + 1,
            exists|p: int|
                0 <= p <= old(self)@.len() && final(self)@ == old(self)@.insert(
                    p,
                    DelayItem { data, delay },
                ),
            final(self)@.to_multiset() == old(self)@.to_multiset().insert(
                DelayItem { data, delay },
            ),
    {
        let ghost old_items = self.items@;
        let mut i: usize = 0;
        while i < self.items.len() && self.items[i].delay > delay
            invariant
                i <= self.items@.len(),
                self.items@ == old_items,
                sorted_by_ready(old_items),
                forall|k: int| 0 <= k < i ==> self.items@[k].delay > delay,
            decreases self.items@.len() - i,
        {
            i = i + 1;
        }
        let item = DelayItem { data, delay };
        let ghost g_item = item;
        self.items.insert(i, item);
        proof {
            assert(self.items@ == old_items.insert(i as int, g_item));
            vstd::seq_lib::to_multiset_insert(old_items, i as int, g_item);
            assert forall|a: int, b: int| 0 <= a <= b < self.items@.len() implies self.items@[a].delay
                >= self.items@[b].delay by {
                if a < i && b < i {
                    assert(self.items@[a] == old_items[a]);
                } else if a < i && b == i {
                } else if a < i && b > i {
                    assert(self.items@[b] == old_items[b - 1]);
                } else if a == i && b > i {
                    assert(self.items@[b] == old_items[b - 1]);
                } else if a > i && b > i {
                    assert(self.items@[a] == old_items[a - 1]);
                    assert(self.items@[b] == old_items[b - 1]);
                }
            }
        }
    }

    /// Attempt to insert; a full queue refuses at once. The caller holds the
    /// queue exclusively, so no concurrent removal can free capacity within
    /// the insert timeout: there is nothing to wait for, and the entry is
    /// refused without blocking.
    pub fn offer(&mut self, data: T, delay: u64, _timeout_millis: u64) -> (r: bool)
        requires
            old(self).wf(),
        ensures
            final(self).wf(),
            final(self).spec_capacity() == old(self).spec_capacity(),
            r == (old(self)@.len() < old(self).spec_capacity()),
            r ==> final(self)@.len() == old(self)@.len() + 1 && final(self)@.to_multiset()
                == old(self)@.to_multiset().insert(DelayItem { data, delay }) && (exists|p: int|
                0 <= p <= old(self)@.len() && final(self)@ == old(self)@.insert(
                    p,
                    DelayItem { data, delay },
                )),
            !r ==> *final(self) == *old(self),
    {
        if self.items.len() < self.capacity {
            self.push(data, delay);
            true
        } else {
            false
        }
    }

    /// Insert into a queue that has room. The original blocks until capacity
    /// frees; under exclusive access a full queue can never drain, so the
    /// caller must leave room instead.
    pub fn put(&mut self, data: T, delay: u64)
        requires
            old(self).wf(),
            old(self)@.len() < old(self).spec_capacity(),
        ensures
            final(self).wf(),
            final(self).spec_capacity() == old(self).spec_capacity(),
            final(self)@.len() == old(self)@.len() + 1,
            exists|p: int|
                0 <= p <= old(self)@.len() && final(self)@ == old(self)@.insert(
                    p,
                    DelayItem { data, delay },
                ),
            final(self)@.to_multiset() == old(self)@.to_multiset().insert(
                DelayItem { data, delay },
            ),
    {
        self.push(data, delay);
    }

    /// Whether the next entry to leave is already due at `now`.
    pub fn peek_due(&self, now: u64) -> (r: bool)
        ensures
            r == (self@.len() > 0 && self@.last().delay <= now),
    {
        if self.items.len() == 0 {
            false
        } else {
            let idx = self.items.len() - 1;
            self.items[idx].delay <= now
        }
    }

    /// Remove the next entry if it is due at `now`: the queue hands an entry
    /// out only once its ready instant has passed, and always the one with
    /// the smallest ready instant.
    pub fn take_inner(&mut self, now: u64) -> (r: Option<T>)
        requires
            old(self).wf(),
        ensures
            final(self).wf(),
            final(self).spec_capacity() == old(self).spec_capacity(),
            r is Some <==> old(self)@.len() > 0 && old(self)@.last().delay <= now,
            r is Some ==> r->Some_0 == old(self)@.last().data && final(self)@ == old(
                self,
            )@.drop_last(),
            r is None ==> *final(self) == *old(self),
    {
        if self.items.len() > 0 {
            let idx = self.items.len() - 1;
            if self.items[idx].delay <= now {
                let item = self.pop();
                Some(item.data)
            } else {
                None
            }
        } else {
            None
        }
    }

    /// Remove the last entry of the view: the one readiest to leave.
    fn pop(&mut self) -> (r: DelayItem<T>)
        requires
            old(self).wf(),
            old(self)@.len() > 0,
        ensures
            final(self).wf(),
            final(self).spec_capacity() == old(self).spec_capacity(),
            r == old(self)@.last(),
            final(self)@ == old(self)@.drop_last(),
    {
        let r = self.items.pop().unwrap();
        proof {
            assert(sorted_by_ready(self.items@)) by {
                assert forall|i: int, j: int|
                    0 <= i <= j < self.items@.len() implies self.items@[i].delay
                    >= self.items@[j].delay by {
                    assert(self.items@[i] == old(self)@[i]);
                    assert(self.items@[j] == old(self)@[j]);
                }
            }
        }
        r
    }

    /// Remove and return the payload of the next entry, waiting out its
    /// ready instant first: if the entry is not yet due, the call parks for
    /// the remaining time before removing it, so the caller gets the entry
    /// no earlier than (up to scheduling slack) its ready instant. The queue
    /// must be non-empty: under exclusive access no concurrent insert can
    /// fill an empty queue, so a wait on one would never end.
    pub fn take(&mut self) -> (r: T)
        requires
            old(self).wf(),
            old(self)@.len() > 0,
        ensures
            final(self).wf(),
            final(self).spec_capacity() == old(self).spec_capacity(),
            r == old(self)@.last().data,
            final(self)@ == old(self)@.drop_last(),
    {
        let now = now_millis();
        let idx = self.items.len() - 1;
        let due_at = self.items[idx].delay;
        if now < due_at {
            sleep_millis(due_at - now);
        }
        let item = self.pop();
        item.data
    }

    /// Like `take`, but bounded: wait at most `timeout_millis` for the next
    /// entry to come due. An empty queue cannot fill under exclusive access,
    /// so it yields `None` after the wait; an entry due within the bound is
    /// removed and returned; one due later stays, and the call returns
    /// `None` once the bound has passed.
    pub fn poll(&mut self, timeout_millis: u64) -> (r: Option<T>)
        requires
            old(self).wf(),
        ensures
            final(self).wf(),
            final(self).spec_capacity() == old(self).spec_capacity(),
            old(self)@.len() == 0 ==> r is None,
            r is Some ==> old(self)@.len() > 0 && r->Some_0 == old(self)@.last().data
                && final(self)@ == old(self)@.drop_last(),
            r is None ==> *final(self) == *old(self),
    {
        if self.items.len() == 0 {
            sleep_millis(timeout_millis);
            return None;
        }
        let now = now_millis();
        let idx = self.items.len() - 1;
        let due_at = self.items[idx].delay;
        if due_at <= now {
            let item = self.pop();
            Some(item.data)
        } else if due_at - now <= timeout_millis {
            sleep_millis(due_at - now);
            let item = self.pop();
            Some(item.data)
        } else {
            sleep_millis(timeout_millis);
            None
        }
    }
}

/// Law: removals leave ready instants non-decreasing. The entry that `take`
/// removes next (the last of the view) is never later-ready than the one a
/// second `take` would remove after it.
pub proof fn lemma_take_order<T>(q: BlockingDelayQueue<T>)
    requires
        q.wf(),
        q@.len() >= 2,
    ensures
        q@.last().delay <= q@.drop_last().last().delay,
{
    assert(q@.drop_last().last() == q@[q@.len() - 2]);
}

} // verus!
