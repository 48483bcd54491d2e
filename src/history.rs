//! Bounded undo and redo stacks of transactions.
use crate::transaction::Transaction;
use vstd::prelude::*;

verus! {

/// The most undo entries kept; pushing past it drops the oldest.
pub const MAX_HISTORY_SIZE: usize = 1000;

/// Undo and redo stacks; the last entry of each is the next one to pop.
#[derive(Debug)]
pub struct History {
    undo_stack: Vec<Transaction>,
    redo_stack: Vec<Transaction>,
}

impl History {
    /// The undo entries, oldest first.
    pub closed spec fn undo_entries(&self) -> Seq<Transaction> {
        self.undo_stack@
    }

    /// The redo entries, oldest first.
    pub closed spec fn redo_entries(&self) -> Seq<Transaction> {
        self.redo_stack@
    }

    /// The undo stack holds at most `MAX_HISTORY_SIZE` entries.
    pub open spec fn wf(&self) -> bool {
        self.undo_entries().len() <= MAX_HISTORY_SIZE
    }

    pub fn new() -> (r: History)
        ensures
            r.wf(),
            r.undo_entries() == Seq::<Transaction>::empty(),
            r.redo_entries() == Seq::<Transaction>::empty(),
    {
        History { undo_stack: Vec::new(), redo_stack: Vec::new() }
    }

    /// Records a new edit: clears the redo stack and pushes `tx` onto the undo
    /// stack, dropping the oldest entry if the stack would exceed its bound.
    pub fn push(&mut self, tx: Transaction)
        requires
            old(self).wf(),
        ensures
            final(self).wf(),
            final(self).redo_entries() == Seq::<Transaction>::empty(),
            old(self).undo_entries().len() < MAX_HISTORY_SIZE ==> final(self).undo_entries()
                == old(self).undo_entries().push(tx),
            old(self).undo_entries().len() == MAX_HISTORY_SIZE ==> final(self).undo_entries()
                == old(self).undo_entries().push(tx).drop_first(),
    {
        self.redo_stack.clear();
        self.push_undo(tx);
    }

    /// Pushes `tx` onto the undo stack, dropping the oldest entry if the stack
    /// would exceed its bound, and leaves the redo stack alone: this is how a
    /// redone edit goes back.
    pub fn push_undo(&mut self, tx: Transaction)
        requires
            old(self).wf(),
        ensures
            final(self).wf(),
            final(self).redo_entries() == old(self).redo_entries(),
            old(self).undo_entries().len() < MAX_HISTORY_SIZE ==> final(self).undo_entries()
                == old(self).undo_entries().push(tx),
            old(self).undo_entries().len() == MAX_HISTORY_SIZE ==> final(self).undo_entries()
                == old(self).undo_entries().push(tx).drop_first(),
    {
        self.undo_stack.push(tx);
        if self.undo_stack.len() > MAX_HISTORY_SIZE {
            let ghost pushed = self.undo_stack@;
            self.undo_stack.remove(0);
            assert(self.undo_stack@ =~= pushed.drop_first());
        }
    }

    /// Pushes `tx` onto the redo stack.
    pub fn push_redo(&mut self, tx: Transaction)
        ensures
            final(self).undo_entries() == old(self).undo_entries(),
            final(self).redo_entries() == old(self).redo_entries().push(tx),
    {
        self.redo_stack.push(tx);
    }

    /// Pops the newest undo entry.
    pub fn undo(&mut self) -> (r: Option<Transaction>)
        ensures
            final(self).redo_entries() == old(self).redo_entries(),
            old(self).undo_entries().len() == 0 ==> r is None && final(self).undo_entries()
                == old(self).undo_entries(),
            old(self).undo_entries().len() > 0 ==> r == Some(old(self).undo_entries().last())
                && final(self).undo_entries() == old(self).undo_entries().drop_last(),
    {
        self.undo_stack.pop()
    }

    /// Pops the newest redo entry.
    pub fn redo(&mut self) -> (r: Option<Transaction>)
        ensures
            final(self).undo_entries() == old(self).undo_entries(),
            old(self).redo_entries().len() == 0 ==> r is None && final(self).redo_entries()
                == old(self).redo_entries(),
            old(self).redo_entries().len() > 0 ==> r == Some(old(self).redo_entries().last())
                && final(self).redo_entries() == old(self).redo_entries().drop_last(),
    {
        self.redo_stack.pop()
    }

    pub fn can_undo(&self) -> (r: bool)
        ensures
            r == (self.undo_entries().len() > 0),
    {
        !self.undo_stack.is_empty()
    }

    pub fn can_redo(&self) -> (r: bool)
        ensures
            r == (self.redo_entries().len() > 0),
    {
        !self.redo_stack.is_empty()
    }

    /// Empties both stacks.
    pub fn clear(&mut self)
        ensures
            final(self).undo_entries() == Seq::<Transaction>::empty(),
            final(self).redo_entries() == Seq::<Transaction>::empty(),
    {
        self.undo_stack.clear();
        self.redo_stack.clear();
    }

    pub fn undo_count(&self) -> (r: usize)
        ensures
            r == self.undo_entries().len(),
    {
        self.undo_stack.len()
    }

    pub fn redo_count(&self) -> (r: usize)
        ensures
            r == self.redo_entries().len(),
    {
        self.redo_stack.len()
    }
}

impl Default for History {
    fn default() -> (r: History)
        ensures
            r.wf(),
            r.undo_entries() == Seq::<Transaction>::empty(),
            r.redo_entries() == Seq::<Transaction>::empty(),
    {
        History::new()
    }
}

} // verus!
