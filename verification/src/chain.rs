use vstd::prelude::*;

use crate::task::Task;

verus! {

/// A FIFO chain of task records sharing one rank. The chain preserves arrival
/// order; its first element is the chain's ordering representative. The
/// uniform-rank invariant is imposed where a chain is held by a tree node.
#[derive(Clone, Debug)]
pub struct RankChain {
    tasks: Vec<Task>,
}

impl RankChain {
    pub closed spec fn spec_tasks(self) -> Seq<Task> {
        self.tasks@
    }
}

impl View for RankChain {
    type V = Seq<Task>;

    open spec fn view(&self) -> Seq<Task> {
        self.spec_tasks()
    }
}

impl RankChain {
    pub fn new() -> (c: RankChain)
        ensures
            c@ == Seq::<Task>::empty(),
    {
        RankChain { tasks: Vec::new() }
    }

    pub fn len(&self) -> (n: usize)
        ensures
            n == self@.len(),
    {
        self.tasks.len()
    }

    /// Appends a task, preserving arrival order. A non-empty chain only takes
    /// tasks of its own rank.
    pub fn push_back(&mut self, task: Task)
        requires
            old(self)@.len() > 0 ==> task.rank == old(self)@[0].rank,
        ensures
            final(self)@ == old(self)@.push(task),
    {
        self.tasks.push(task);
    }

    /// The first element, without removing it; `None` only on an empty chain.
    pub fn head(&self) -> (r: Option<Task>)
        ensures
            match r {
                Some(t) => self@.len() > 0 && t == self@[0],
                None => self@.len() == 0,
            },
    {
        if self.tasks.len() > 0 {
            Some(self.tasks[0])
        } else {
            None
        }
    }

    pub fn get(&self, i: usize) -> (t: Task)
        requires
            i < self@.len(),
        ensures
            t == self@[i as int],
    {
        self.tasks[i]
    }

    /// The chain's tasks in insertion order.
    pub fn to_vec(&self) -> (v: Vec<Task>)
        ensures
            v@ == self@,
    {
        let mut v: Vec<Task> = Vec::new();
        let mut i: usize = 0;
        while i < self.tasks.len()
            invariant
                i <= self.tasks.len(),
                v@ == self.spec_tasks().take(i as int),
            decreases self.tasks.len() - i,
        {
            v.push(self.tasks[i]);
            i = i + 1;
        }
        proof {
            assert(self.spec_tasks().take(self.spec_tasks().len() as int) =~= self.spec_tasks());
        }
        v
    }
}

} // verus!
