//! An append-only log that keeps only its most recent `max_len` entries.

use vstd::prelude::*;
use vstd::std_specs::iter::IteratorSpec;

verus! {

/// The entries kept after appending `e` to `s` with room for `max_len`:
/// the oldest entry drops out when the log would grow past its bound.
pub open spec fn appended<T>(s: Seq<T>, e: T, max_len: usize) -> Seq<T> {
    if s.len() + 1 > max_len { s.push(e).drop_first() } else { s.push(e) }
}

/// A bounded, append-only log.
#[derive(Debug, Clone)]
pub struct EventLog<T> {
    events: Vec<T>,
    max_len: usize,
}

impl<T> View for EventLog<T> {
    /// The kept entries, oldest first, and the bound.
    type V = (Seq<T>, usize);

    closed spec fn view(&self) -> (Seq<T>, usize) {
        (self.events@, self.max_len)
    }
}

impl<T> EventLog<T> {
    /// An empty log that keeps at most `max_len` entries.
    pub fn new(max_len: usize) -> (log: EventLog<T>)
        ensures
            log@ == (Seq::<T>::empty(), max_len),
    {
        EventLog { events: Vec::new(), max_len }
    }

    /// Appends an entry; when the log then holds more than its bound, the
    /// oldest entry is dropped.
    pub fn push(&mut self, event: T)
        ensures
            final(self)@ == (appended(old(self)@.0, event, old(self)@.1), old(self)@.1),
    {
        self.events.push(event);
        if self.events.len() > self.max_len {
            self.events.remove(0);
        }
        proof {
            let s = old(self)@.0.push(event);
            if s.len() > old(self)@.1 {
                assert(self.events@ =~= s.drop_first());
            }
        }
    }

    /// The number of kept entries.
    pub fn len(&self) -> (n: usize)
        ensures
            n == self@.0.len(),
    {
        self.events.len()
    }

    /// Whether no entry is kept.
    pub fn is_empty(&self) -> (b: bool)
        ensures
            b == (self@.0.len() == 0),
    {
        self.events.len() == 0
    }

    /// The newest entry, if any.
    pub fn last(&self) -> (r: Option<&T>)
        ensures
            self@.0.len() == 0 ==> r is None,
            self@.0.len() > 0 ==> r == Some(&self@.0.last()),
    {
        if self.events.len() == 0 {
            None
        } else {
            Some(&self.events[self.events.len() - 1])
        }
    }

    /// An iterator over the kept entries, oldest first.
    pub fn iter(&self) -> (it: std::slice::Iter<'_, T>)
        ensures
            it.remaining().unref() == self@.0,
    {
        self.events.as_slice().iter()
    }
}

/// A log never keeps more than its bound once it has been within it: every
/// append keeps the entries within `max_len`, the newest entry last.
pub proof fn lemma_appended_bounded<T>(s: Seq<T>, e: T, max_len: usize)
    requires
        s.len() <= max_len,
    ensures
        appended(s, e, max_len).len() <= max_len,
        max_len > 0 ==> appended(s, e, max_len).last() == e,
        max_len == 0 ==> appended(s, e, max_len).len() == 0,
{
}

} // verus!
