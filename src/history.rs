use vstd::prelude::*;

use crate::changeset::invert_ops;
use crate::transaction::{State, StateModel, Transaction, TransactionModel};

verus! {

/// One committed edit: the transaction that made it and the one that undoes it.
pub struct Revision {
    pub transaction: Transaction,
    pub inversion: Transaction,
}

pub struct RevisionModel {
    pub transaction: TransactionModel,
    pub inversion: TransactionModel,
}

impl View for Revision {
    type V = RevisionModel;

    open spec fn view(&self) -> RevisionModel {
        RevisionModel { transaction: self.transaction@, inversion: self.inversion@ }
    }
}

/// The revision that records `tx`, made on `original`.
pub open spec fn revision_of(tx: TransactionModel, original: StateModel) -> RevisionModel {
    RevisionModel {
        transaction: tx,
        inversion: TransactionModel {
            changes: invert_ops(tx.changes, original.doc),
            selection: Some(original.selection),
        },
    }
}

/// The two stacks of a history, top last.
pub struct HistoryModel {
    pub undo: Seq<RevisionModel>,
    pub redo: Seq<RevisionModel>,
}

/// Undo and redo stacks of committed edits.
pub struct History {
    undo_stack: Vec<Revision>,
    redo_stack: Vec<Revision>,
}

impl View for History {
    type V = HistoryModel;

    closed spec fn view(&self) -> HistoryModel {
        HistoryModel {
            undo: self.undo_stack@.map_values(|r: Revision| r@),
            redo: self.redo_stack@.map_values(|r: Revision| r@),
        }
    }
}

impl History {
    /// Every transaction held is well formed.
    pub closed spec fn wf(&self) -> bool {
        &&& forall|k: int|
            0 <= k < self.undo_stack@.len() ==> (#[trigger] self.undo_stack@[k]).transaction.wf()
                && self.undo_stack@[k].inversion.wf()
        &&& forall|k: int|
            0 <= k < self.redo_stack@.len() ==> (#[trigger] self.redo_stack@[k]).transaction.wf()
                && self.redo_stack@[k].inversion.wf()
    }

    /// A history with nothing to undo or redo.
    pub fn new() -> (r: History)
        ensures
            r.wf(),
            r@.undo == Seq::<RevisionModel>::empty(),
            r@.redo == Seq::<RevisionModel>::empty(),
    {
        let r = History { undo_stack: Vec::new(), redo_stack: Vec::new() };
        assert(r@.undo =~= Seq::<RevisionModel>::empty());
        assert(r@.redo =~= Seq::<RevisionModel>::empty());
        r
    }

    /// Records `transaction`, which was applied to `original`. Whatever
    /// could be redone is dropped.
    pub fn commit_revision(&mut self, transaction: Transaction, original: &State)
        requires
            old(self).wf(),
            transaction.wf(),
            original.wf(),
            transaction.changes.len_spec() == original.doc@.len(),
        ensures
            final(self).wf(),
            final(self)@.undo == old(self)@.undo.push(revision_of(transaction@, original@)),
            final(self)@.redo == Seq::<RevisionModel>::empty(),
    {
        let inversion = transaction.invert(original);
        let rev = Revision { transaction, inversion };
        let ghost prev = self.undo_stack@;
        self.undo_stack.push(rev);
        self.redo_stack = Vec::new();
        assert(self.undo_stack@.map_values(|r: Revision| r@) =~= prev.map_values(|r: Revision| r@).push(rev@));
        assert(self@.redo =~= Seq::<RevisionModel>::empty());
    }

    pub fn can_undo(&self) -> (r: bool)
        ensures
            r == (self@.undo.len() > 0),
    {
        self.undo_stack.len() > 0
    }

    pub fn can_redo(&self) -> (r: bool)
        ensures
            r == (self@.redo.len() > 0),
    {
        self.redo_stack.len() > 0
    }

    /// Moves the latest revision to the redo stack and hands out the
    /// transaction that undoes it; `None`, with nothing changed, when there
    /// is nothing to undo.
    pub fn undo(&mut self) -> (r: Option<Transaction>)
        requires
            old(self).wf(),
        ensures
            final(self).wf(),
            old(self)@.undo.len() == 0 ==> r is None && *final(self) == *old(self),
            old(self)@.undo.len() > 0 ==> {
                let rev = old(self)@.undo.last();
                &&& r is Some
                &&& r->Some_0@ == rev.inversion
                &&& r->Some_0.wf()
                &&& final(self)@.undo == old(self)@.undo.drop_last()
                &&& final(self)@.redo == old(self)@.redo.push(rev)
            },
    {
        if self.undo_stack.len() == 0 {
            return None;
        }
        let ghost u = self.undo_stack@;
        let ghost d = self.redo_stack@;
        let rev = self.undo_stack.pop().unwrap();
        let tx = rev.inversion.snapshot();
        self.redo_stack.push(rev);
        assert(self.undo_stack@.map_values(|r: Revision| r@) =~= u.map_values(|r: Revision| r@).drop_last());
        assert(self.redo_stack@.map_values(|r: Revision| r@) =~= d.map_values(|r: Revision| r@).push(rev@));
        Some(tx)
    }

    /// Moves the latest undone revision back to the undo stack and hands
    /// out its transaction; `None`, with nothing changed, when there is
    /// nothing to redo.
    pub fn redo(&mut self) -> (r: Option<Transaction>)
        requires
            old(self).wf(),
        ensures
            final(self).wf(),
            old(self)@.redo.len() == 0 ==> r is None && *final(self) == *old(self),
            old(self)@.redo.len() > 0 ==> {
                let rev = old(self)@.redo.last();
                &&& r is Some
                &&& r->Some_0@ == rev.transaction
                &&& r->Some_0.wf()
                &&& final(self)@.redo == old(self)@.redo.drop_last()
                &&& final(self)@.undo == old(self)@.undo.push(rev)
            },
    {
        if self.redo_stack.len() == 0 {
            return None;
        }
        let ghost u = self.undo_stack@;
        let ghost d = self.redo_stack@;
        let rev = self.redo_stack.pop().unwrap();
        let tx = rev.transaction.snapshot();
        self.undo_stack.push(rev);
        assert(self.redo_stack@.map_values(|r: Revision| r@) =~= d.map_values(|r: Revision| r@).drop_last());
        assert(self.undo_stack@.map_values(|r: Revision| r@) =~= u.map_values(|r: Revision| r@).push(rev@));
        Some(tx)
    }
}

} // verus!
