//! The two frontier queues: plain first-in-first-out for breadth-first
//! search, and a weighted queue that always hands out the lightest cursor,
//! breaking ties by the fixed direction priority.

use vstd::prelude::*;

verus! {

use crate::cursor::{Cursor, key_lt, cursor_before};

/// A queue that returns items in insertion order.
pub struct FIFOQueue<T> {
    /// Pending items, oldest first.
    pub buffer: Vec<T>,
}

impl<T> FIFOQueue<T> {
    /// The pending items, oldest first, for specifications.
    pub open spec fn contents(self) -> Seq<T> {
        self.buffer@
    }

    /// An empty queue.
    pub fn init() -> (q: Self)
        ensures
            q.contents() == Seq::<T>::empty(),
    {
        FIFOQueue { buffer: Vec::new() }
    }

    /// Adds an item at the back.
    pub fn queue(&mut self, item: T)
        ensures
            final(self).contents() == old(self).contents().push(item),
    {
        self.buffer.push(item);
    }

    /// Removes and returns the oldest item, or `None` when the queue is
    /// empty.
    pub fn dequeue(&mut self) -> (r: Option<T>)
        ensures
            old(self).contents().len() == 0 ==> r is None
                && final(self).contents() == old(self).contents(),
            old(self).contents().len() > 0 ==> r == Some(old(self).contents()[0])
                && final(self).contents() == old(self).contents().skip(1),
    {
        if self.buffer.len() == 0 {
            return None;
        }
        let item = self.buffer.remove(0);
        proof {
            assert(old(self).contents().remove(0) =~= old(self).contents().skip(1));
        }
        Some(item)
    }
}

/// Whether position `i` holds the cursor a weighted dequeue hands out: no
/// queued cursor orders strictly before it, and it orders strictly before
/// everything queued ahead of it (so the earliest insertion wins full ties).
pub open spec fn picks_first_min(s: Seq<Cursor>, i: int) -> bool {
    &&& 0 <= i < s.len()
    &&& forall|j: int| 0 <= j < s.len() ==> !key_lt(#[trigger] s[j], s[i])
    &&& forall|j: int| 0 <= j < i ==> key_lt(s[i], #[trigger] s[j])
}

/// A queue that returns the lightest-weighed cursor first. On weight ties
/// the cursor whose most recent move has the higher direction priority
/// (Up, then Left, then Down, then Right) wins; on full ties the earliest
/// inserted wins.
pub struct SortedQueue {
    /// The queued cursors, in insertion order.
    pub items: Vec<Cursor>,
}

impl SortedQueue {
    /// The queued cursors, in insertion order, for specifications.
    pub open spec fn contents(self) -> Seq<Cursor> {
        self.items@
    }

    /// An empty queue.
    pub fn init() -> (q: Self)
        ensures
            q.contents() == Seq::<Cursor>::empty(),
    {
        SortedQueue { items: Vec::new() }
    }

    /// Adds a cursor.
    pub fn queue(&mut self, item: Cursor)
        ensures
            final(self).contents() == old(self).contents().push(item),
    {
        self.items.push(item);
    }

    /// Removes and returns the best-ordered cursor, or `None` when the
    /// queue is empty.
    pub fn dequeue(&mut self) -> (r: Option<Cursor>)
        ensures
            old(self).contents().len() == 0 ==> r is None
                && final(self).contents() == old(self).contents(),
            old(self).contents().len() > 0 ==> exists|i: int|
                {
                    &&& picks_first_min(old(self).contents(), i)
                    &&& r == Some(old(self).contents()[i])
                    &&& final(self).contents() == old(self).contents().remove(i)
                },
    {
        let n = self.items.len();
        if n == 0 {
            return None;
        }
        let mut best: usize = 0;
        let mut j: usize = 1;
        while j < n
            invariant
                n == self.items@.len(),
                best < j <= n,
                forall|k: int| 0 <= k < j ==> !key_lt(#[trigger] self.items@[k], self.items@[best as int]),
                forall|k: int| 0 <= k < best ==> key_lt(self.items@[best as int], #[trigger] self.items@[k]),
            decreases n - j,
        {
            if cursor_before(&self.items[j], &self.items[best]) {
                best = j;
            }
            j += 1;
        }
        let item = self.items.remove(best);
        proof {
            assert(picks_first_min(old(self).contents(), best as int));
        }
        Some(item)
    }
}

} // verus!
