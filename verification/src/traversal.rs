//! The walk over a stream's forward edges, as a value that a reader drives:
//! it hands out the node to expand next, and takes that node's successors.
use vstd::prelude::*;
use crate::address::{texts, Address};
use crate::error::StoreError;
use crate::graph::{emitted_top, offer, reading, reopened_top, schedule, start, Node, Walk};

verus! {

/// The walk in progress.
pub struct Traversal {
    stack: Vec<(Address, bool)>,
    visited: Vec<Address>,
    emitted: Vec<Address>,
    more: bool,
}

/// The entries of a stack, each address by its text.
pub open spec fn entries(stack: Seq<(Address, bool)>) -> Seq<(Node, bool)> {
    Seq::new(stack.len(), |i: int| (stack[i].0@, stack[i].1))
}

/// Whether `address` is among `addresses`.
pub fn contains_address(addresses: &Vec<Address>, address: &Address) -> (found: bool)
    ensures
        found == texts(addresses@).contains(address@),
{
    let mut i: usize = 0;
    while i < addresses.len()
        invariant
            i <= addresses.len(),
            forall|j: int| 0 <= j < i ==> texts(addresses@)[j] != address@,
        decreases addresses.len() - i,
    {
        if addresses[i].same_as(address) {
            assert(texts(addresses@)[i as int] == address@);
            return true;
        }
        i = i + 1;
    }
    false
}

/// A copy of `addresses`, last to first.
pub fn reversed(addresses: &Vec<Address>) -> (backwards: Vec<Address>)
    ensures
        texts(backwards@) == texts(addresses@).reverse(),
{
    let mut backwards: Vec<Address> = Vec::new();
    let mut left: usize = addresses.len();
    while left > 0
        invariant
            left <= addresses.len(),
            backwards.len() == addresses.len() - left,
            forall|j: int|
                0 <= j < backwards.len() ==> backwards[j]@ == addresses[addresses.len() - 1 - j]@,
        decreases left,
    {
        left = left - 1;
        backwards.push(addresses[left].clone());
    }
    assert(texts(backwards@) =~= texts(addresses@).reverse());
    backwards
}

impl View for Traversal {
    type V = Walk;

    closed spec fn view(&self) -> Walk {
        Walk {
            stack: entries(self.stack@),
            visited: texts(self.visited@),
            emitted: texts(self.emitted@),
            more: self.more,
        }
    }
}

impl Traversal {
    /// Whether the walk is sound: no node was scheduled twice. The nodes that
    /// were scheduled are kept in the order in which they came, so that a node
    /// is found again by looking through them.
    pub open spec fn wf(&self) -> bool {
        self@.visited.no_duplicates()
    }

    /// The walk that is about to leave `since`.
    pub fn begin(since: &Address) -> (walk: Traversal)
        ensures
            walk@ == start(since@),
            walk.wf(),
    {
        let mut stack: Vec<(Address, bool)> = Vec::new();
        stack.push((since.clone(), false));
        let walk = Traversal { stack, visited: Vec::new(), emitted: Vec::new(), more: false };
        assert(walk@.stack =~= start(since@).stack);
        assert(walk@.visited =~= start(since@).visited);
        assert(walk@.emitted =~= start(since@).emitted);
        walk
    }

    /// Whether nothing is left to do.
    pub fn is_finished(&self) -> (finished: bool)
        ensures
            finished == (self@.stack.len() == 0),
    {
        self.stack.len() == 0
    }

    /// Takes the top entry off the stack. A node that was waiting to be
    /// emitted is emitted, and nothing is handed out. A node that was waiting
    /// to be expanded goes back to wait for its emission and is handed out:
    /// its successors are to be scheduled next. A walk that has nothing left
    /// to do stays as it is.
    pub fn advance(&mut self) -> (node: Option<Address>)
        ensures
            old(self)@.stack.len() == 0 ==> node is None && final(self)@ == old(self)@,
            old(self)@.stack.len() > 0 && old(self)@.stack.last().1 ==> node is None && final(self)@
                == emitted_top(old(self)@),
            old(self)@.stack.len() > 0 && !old(self)@.stack.last().1 ==> node is Some
                && node.unwrap()@ == old(self)@.stack.last().0 && final(self)@ == reopened_top(
                old(self)@,
            ),
            old(self).wf() ==> final(self).wf(),
    {
        let ghost before = self@;
        let top = self.stack.pop();
        match top {
            Some((current, true)) => {
                self.emitted.push(current);
                assert(self@.stack =~= emitted_top(before).stack);
                assert(self@.emitted =~= emitted_top(before).emitted);
                None
            },
            Some((current, false)) => {
                self.stack.push((current.clone(), true));
                assert(self@.stack =~= reopened_top(before).stack);
                Some(current)
            },
            None => {
                assert(self@.stack =~= before.stack);
                None
            },
        }
    }

    /// Offers one target to the walk.
    fn offer(&mut self, target: &Address, limit: Option<usize>)
        ensures
            final(self)@ == offer(target@, limit, old(self)@),
            old(self).wf() ==> final(self).wf(),
    {
        let ghost before = self@;
        if !contains_address(&self.visited, target) {
            let room = match limit {
                None => true,
                Some(most) => self.visited.len() < most,
            };
            if room {
                self.stack.push((target.clone(), false));
                self.visited.push(target.clone());
                assert(self@.stack =~= offer(target@, limit, before).stack);
                assert(self@.visited =~= offer(target@, limit, before).visited);
            } else {
                self.more = true;
            }
        }
    }

    /// Offers the successors of the node that was handed out last, in the
    /// order in which the store listed them.
    pub fn schedule(&mut self, targets: &Vec<Address>, limit: Option<usize>)
        ensures
            final(self)@ == schedule(texts(targets@), limit, old(self)@),
            old(self).wf() ==> final(self).wf(),
    {
        let ghost before = self@;
        let ghost all = texts(targets@);
        let mut i: usize = 0;
        while i < targets.len()
            invariant
                i <= targets.len(),
                all == texts(targets@),
                self@ == schedule(all.subrange(0, i as int), limit, before),
                old(self).wf() ==> self.wf(),
            decreases targets.len() - i,
        {
            assert(all.subrange(0, i + 1).drop_last() =~= all.subrange(0, i as int));
            assert(all.subrange(0, i + 1).last() == targets[i as int]@);
            self.offer(&targets[i], limit);
            i = i + 1;
        }
        assert(all.subrange(0, i as int) =~= all);
    }

    /// Takes what the store answered when it was asked for the successors of
    /// the node that was handed out last: successors are scheduled, and a
    /// failure of the store is handed on as it came, with the walk left as it
    /// was.
    pub fn expand(&mut self, found: Result<Vec<Address>, StoreError>, limit: Option<usize>) -> (taken:
        Result<(), StoreError>)
        ensures
            match found {
                Ok(targets) => taken is Ok && final(self)@ == schedule(
                    texts(targets@),
                    limit,
                    old(self)@,
                ),
                Err(failure) => taken == Err::<(), StoreError>(failure) && final(self)@ == old(
                    self,
                )@,
            },
            old(self).wf() ==> final(self).wf(),
    {
        match found {
            Ok(targets) => {
                self.schedule(&targets, limit);
                Ok(())
            },
            Err(failure) => Err(failure),
        }
    }

    /// Ends the walk: the addresses in the order a reader sees them, and
    /// whether the limit left a node out.
    pub fn finish(self) -> (page: (Vec<Address>, bool))
        ensures
            texts(page.0@) == reading(self@),
            page.1 == self@.more,
    {
        let mut emitted = self.emitted;
        let ghost all = texts(emitted@);
        let last = emitted.pop();
        proof {
            if all.len() > 0 {
                assert(texts(emitted@) =~= all.drop_last());
            }
        }
        let order = reversed(&emitted);
        (order, self.more)
    }
}

} // verus!
