use vstd::prelude::*;

verus! {

/// Hands out a fixed list of work items one at a time, in order, each
/// paired with its position in the list. Workers that share one queue
/// behind a lock pull the next item when they are free.
pub struct WorkQueue<T> {
    /// Items not yet handed out, the next one last.
    pending: Vec<T>,
    /// Position of the next item to hand out.
    next: usize,
    /// The full list the queue was made with.
    items: Ghost<Seq<T>>,
}

impl<T> WorkQueue<T> {
    /// The full list the queue was made with.
    pub closed spec fn items(&self) -> Seq<T> {
        self.items@
    }

    /// How many items have been handed out so far.
    pub closed spec fn handed(&self) -> nat {
        self.next as nat
    }

    /// The items still to be handed out, in the order they will come.
    pub open spec fn remaining(&self) -> Seq<T> {
        self.items().subrange(self.handed() as int, self.items().len() as int)
    }

    pub closed spec fn wf(&self) -> bool {
        &&& self.next <= self.items@.len() <= usize::MAX
        &&& self.pending@.len() == self.items@.len() - self.next
        &&& forall|k: int| 0 <= k < self.pending@.len()
            ==> #[trigger] self.pending@[k] == self.items@[self.items@.len() - 1 - k]
    }

    /// A queue that will hand out `items` front to back.
    pub fn new(items: Vec<T>) -> (q: Self)
        ensures
            q.wf(),
            q.items() == items@,
            q.handed() == 0,
    {
        let ghost all = items@;
        let total = items.len();
        let mut source = items;
        let mut pending: Vec<T> = Vec::new();
        while source.len() > 0
            invariant
                source@ == all.subrange(0, all.len() - pending@.len()),
                pending@.len() <= all.len(),
                all.len() == total,
                forall|k: int| 0 <= k < pending@.len() ==> #[trigger] pending@[k] == all[all.len() - 1 - k],
            decreases source.len(),
        {
            let item = source.pop().unwrap();
            pending.push(item);
        }
        WorkQueue { pending, next: 0, items: Ghost(all) }
    }

    /// Number of items not yet handed out.
    pub fn len(&self) -> (r: usize)
        requires
            self.wf(),
        ensures
            r == self.remaining().len(),
    {
        self.pending.len()
    }

    /// Hands out the next item with its position, or `None` once every item
    /// has been handed out.
    pub fn pull(&mut self) -> (r: Option<(usize, T)>)
        requires
            old(self).wf(),
        ensures
            final(self).wf(),
            final(self).items() == old(self).items(),
            old(self).handed() < old(self).items().len() ==> {
                &&& r == Some((old(self).handed() as usize, old(self).items()[old(self).handed() as int]))
                &&& final(self).handed() == old(self).handed() + 1
            },
            old(self).handed() == old(self).items().len() ==> {
                &&& r.is_none()
                &&& final(self).handed() == old(self).handed()
            },
    {
        match self.pending.pop() {
            Some(item) => {
                let index = self.next;
                self.next = self.next + 1;
                Some((index, item))
            },
            None => None,
        }
    }
}

/// At every point the items handed out so far, followed by those still
/// pending, are exactly the list the queue was made with: nothing is
/// dropped and nothing is handed out twice.
pub proof fn lemma_queue_conserves_items<T>(q: WorkQueue<T>)
    requires
        q.wf(),
    ensures
        q.handed() <= q.items().len(),
        q.items().subrange(0, q.handed() as int) + q.remaining() == q.items(),
{
    assert(q.items().subrange(0, q.handed() as int) + q.remaining() =~= q.items());
}

} // verus!
