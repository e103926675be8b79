//! Worklists of pending node identifiers.
//!
//! A worklist is an ordered, duplicate-free collection of node ids that are
//! scheduled for (re-)evaluation.  Two extraction disciplines are offered:
//! `FiloWorklist` hands back the most recently inserted id first (stack
//! discipline), `FifoWorklist` the earliest inserted id first (queue
//! discipline).

use vstd::prelude::*;
use std::collections::VecDeque;

use crate::NodeId;

verus! {

/// The effect of `Worklist::insert` on the pending sequence: an id that is
/// already pending is left alone, a new id is appended.
pub open spec fn insert_spec(p: Seq<NodeId>, id: NodeId) -> Seq<NodeId> {
    if p.contains(id) {
        p
    } else {
        p.push(id)
    }
}

/// An ordered, duplicate-free collection of pending node identifiers.
///
/// `pending` is the sequence of ids currently scheduled, oldest first.
/// `takes_oldest_first` tells which end `extract` removes from: the front
/// (queue discipline) or the back (stack discipline).
pub trait Worklist: Sized {
    spec fn pending(&self) -> Seq<NodeId>;

    spec fn takes_oldest_first(&self) -> bool;

    /// A fresh worklist with nothing pending.
    fn new() -> (w: Self)
        ensures
            w.pending() == Seq::<NodeId>::empty(),
    ;

    /// Whether nothing is pending.
    fn empty(&self) -> (b: bool)
        ensures
            b == (self.pending().len() == 0),
    ;

    /// Schedules `id` unless it is already pending; reports whether it was
    /// newly added.  Inserting an id that is already pending is a no-op.
    fn insert(&mut self, id: NodeId) -> (newly: bool)
        ensures
            newly == !old(self).pending().contains(id),
            final(self).pending() == insert_spec(old(self).pending(), id),
            final(self).takes_oldest_first() == old(self).takes_oldest_first(),
    ;

    /// Removes and returns the next id per the extraction discipline, or
    /// `None`, leaving the worklist untouched, when nothing is pending.
    fn extract(&mut self) -> (r: Option<NodeId>)
        ensures
            final(self).takes_oldest_first() == old(self).takes_oldest_first(),
            old(self).pending().len() == 0 ==> r is None && final(self).pending()
                == old(self).pending(),
            old(self).pending().len() > 0 ==> r is Some && (if old(self).takes_oldest_first() {
                r == Some(old(self).pending().first()) && final(self).pending()
                    == old(self).pending().drop_first()
            } else {
                r == Some(old(self).pending().last()) && final(self).pending()
                    == old(self).pending().drop_last()
            }),
    ;

    /// Whether `id` is pending; no side effects.
    fn contains(&self, id: NodeId) -> (b: bool)
        ensures
            b == self.pending().contains(id),
    ;
}

/// First-in, last-out: `extract` returns the most recently inserted id.
pub struct FiloWorklist {
    data: VecDeque<NodeId>,
}

/// First-in, first-out: `extract` returns the earliest inserted id.
pub struct FifoWorklist {
    data: VecDeque<NodeId>,
}

/// Whether `d` holds `id` at some position.
fn deque_contains(d: &VecDeque<NodeId>, id: NodeId) -> (b: bool)
    ensures
        b == d@.contains(id),
{
    let n = d.len();
    for i in 0..n
        invariant
            n == d@.len(),
            forall|k: int| 0 <= k < i ==> d@[k] != id,
    {
        if d[i] == id {
            return true;
        }
    }
    false
}

impl Worklist for FiloWorklist {
    closed spec fn pending(&self) -> Seq<NodeId> {
        self.data@
    }

    open spec fn takes_oldest_first(&self) -> bool {
        false
    }

    fn new() -> (w: Self)
        ensures
            w.pending() == Seq::<NodeId>::empty(),
    {
        FiloWorklist { data: VecDeque::new() }
    }

    fn empty(&self) -> (b: bool)
        ensures
            b == (self.pending().len() == 0),
    {
        self.data.len() == 0
    }

    fn insert(&mut self, id: NodeId) -> (newly: bool)
        ensures
            newly == !old(self).pending().contains(id),
            final(self).pending() == insert_spec(old(self).pending(), id),
            final(self).takes_oldest_first() == old(self).takes_oldest_first(),
    {
        if deque_contains(&self.data, id) {
            false
        } else {
            self.data.push_back(id);
            true
        }
    }

    fn extract(&mut self) -> (r: Option<NodeId>)
        ensures
            final(self).takes_oldest_first() == old(self).takes_oldest_first(),
            old(self).pending().len() == 0 ==> r is None && final(self).pending()
                == old(self).pending(),
            old(self).pending().len() > 0 ==> r is Some && r == Some(
                old(self).pending().last(),
            ) && final(self).pending() == old(self).pending().drop_last(),
    {
        self.data.pop_back()
    }

    fn contains(&self, id: NodeId) -> (b: bool)
        ensures
            b == self.pending().contains(id),
    {
        deque_contains(&self.data, id)
    }
}

impl Worklist for FifoWorklist {
    closed spec fn pending(&self) -> Seq<NodeId> {
        self.data@
    }

    open spec fn takes_oldest_first(&self) -> bool {
        true
    }

    fn new() -> (w: Self)
        ensures
            w.pending() == Seq::<NodeId>::empty(),
    {
        FifoWorklist { data: VecDeque::new() }
    }

    fn empty(&self) -> (b: bool)
        ensures
            b == (self.pending().len() == 0),
    {
        self.data.len() == 0
    }

    fn insert(&mut self, id: NodeId) -> (newly: bool)
        ensures
            newly == !old(self).pending().contains(id),
            final(self).pending() == insert_spec(old(self).pending(), id),
            final(self).takes_oldest_first() == old(self).takes_oldest_first(),
    {
        if deque_contains(&self.data, id) {
            false
        } else {
            self.data.push_back(id);
            true
        }
    }

    fn extract(&mut self) -> (r: Option<NodeId>)
        ensures
            final(self).takes_oldest_first() == old(self).takes_oldest_first(),
            old(self).pending().len() == 0 ==> r is None && final(self).pending()
                == old(self).pending(),
            old(self).pending().len() > 0 ==> r is Some && r == Some(
                old(self).pending().first(),
            ) && final(self).pending() == old(self).pending().drop_first(),
    {
        self.data.pop_front()
    }

    fn contains(&self, id: NodeId) -> (b: bool)
        ensures
            b == self.pending().contains(id),
    {
        deque_contains(&self.data, id)
    }
}

impl Default for FiloWorklist {
    fn default() -> (w: Self)
        ensures
            w.pending() == Seq::<NodeId>::empty(),
    {
        FiloWorklist { data: VecDeque::new() }
    }
}

impl Default for FifoWorklist {
    fn default() -> (w: Self)
        ensures
            w.pending() == Seq::<NodeId>::empty(),
    {
        FifoWorklist { data: VecDeque::new() }
    }
}

/// Inserting an id twice in succession, with no extraction in between, leaves
/// the worklist exactly as a single insertion does: the id is pending, once.
pub proof fn lemma_insert_idempotent(p: Seq<NodeId>, id: NodeId)
    requires
        p.no_duplicates(),
    ensures
        insert_spec(insert_spec(p, id), id) == insert_spec(p, id),
        insert_spec(p, id).contains(id),
        insert_spec(p, id).no_duplicates(),
{
    if !p.contains(id) {
        assert(insert_spec(p, id) == p.push(id));
        assert(p.push(id)[p.len() as int] == id);
        assert(p.push(id).contains(id));
    }
}

} // verus!
