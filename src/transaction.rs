use vstd::prelude::*;

use crate::changeset::{
    apply_ops, cons, invert_ops, len_after, len_before, lemma_cons, lemma_ops_view_push,
    lemma_push_cons, ops_view, ops_wf, ChangeSet, Op, Operation,
};
use crate::text::copy_chars;
use crate::selection::{map_selection, Selection, SelectionModel};
use crate::text::Text;

verus! {

/// A text together with a selection over it.
pub struct State {
    pub doc: Text,
    pub selection: Selection,
}

/// What a state is: its characters and its selection.
pub struct StateModel {
    pub doc: Seq<char>,
    pub selection: SelectionModel,
}

impl View for State {
    type V = StateModel;

    open spec fn view(&self) -> StateModel {
        StateModel { doc: self.doc@, selection: self.selection@ }
    }
}

impl State {
    /// The selection is well formed and lies within the text.
    pub open spec fn wf(&self) -> bool {
        self.selection.wf() && self.selection.within(self.doc@.len())
    }

    /// A state over `doc` with a cursor at its start.
    pub fn new(doc: Text) -> (r: State)
        ensures
            r.wf(),
            r.doc@ == doc@,
            r.selection@.ranges == seq![crate::selection::Range { anchor: 0, head: 0 }],
            r.selection@.primary_index == 0,
    {
        State { doc, selection: Selection::single(0, 0) }
    }

    /// An independent copy.
    pub fn snapshot(&self) -> (r: State)
        ensures
            r@ == self@,
    {
        State { doc: self.doc.snapshot(), selection: self.selection.snapshot() }
    }
}

/// The selection a transaction leaves: its own if it has one, else the old
/// one moved through the changes.
pub open spec fn selection_after(
    changes: Seq<crate::changeset::Op>,
    selection: Option<SelectionModel>,
    old: SelectionModel,
) -> SelectionModel {
    match selection {
        Some(s) => s,
        None => map_selection(old, changes),
    }
}

/// What a transaction is: its operations and the selection it leaves, if any.
pub struct TransactionModel {
    pub changes: Seq<Op>,
    pub selection: Option<SelectionModel>,
}

/// The state after applying `tx` to `s`; `s` itself where `tx` was made
/// for a text of another length.
pub open spec fn apply_tx(tx: TransactionModel, s: StateModel) -> StateModel {
    if len_before(tx.changes) == s.doc.len() {
        StateModel {
            doc: apply_ops(tx.changes, s.doc),
            selection: selection_after(tx.changes, tx.selection, s.selection),
        }
    } else {
        s
    }
}

/// A change set and, optionally, the selection that goes with its result.
pub struct Transaction {
    pub changes: ChangeSet,
    pub selection: Option<Selection>,
}

impl View for Transaction {
    type V = TransactionModel;

    open spec fn view(&self) -> TransactionModel {
        TransactionModel { changes: self.changes@, selection: self.selection_model() }
    }
}

impl Transaction {
    pub open spec fn selection_model(&self) -> Option<SelectionModel> {
        match self.selection {
            Some(s) => Some(s@),
            None => None,
        }
    }

    /// The changes are well formed and the selection, if any, lies within the new text.
    pub open spec fn wf(&self) -> bool {
        &&& self.changes.wf()
        &&& match self.selection {
            Some(s) => s.wf() && s.within(self.changes.len_after_spec()),
            None => true,
        }
    }

    /// A transaction with the given changes and no selection of its own.
    pub fn from_changes(changes: ChangeSet) -> (r: Transaction)
        ensures
            r.changes == changes,
            r.selection is None,
    {
        Transaction { changes, selection: None }
    }

    /// The same transaction, leaving `selection` behind.
    pub fn with_selection(self, selection: Selection) -> (r: Transaction)
        ensures
            r.changes == self.changes,
            r.selection == Some(selection),
    {
        Transaction { changes: self.changes, selection: Some(selection) }
    }

    pub fn changes(&self) -> (r: &ChangeSet)
        ensures
            r == &self.changes,
    {
        &self.changes
    }

    pub fn selection(&self) -> (r: Option<&Selection>)
        ensures
            r == match self.selection {
                Some(s) => Some(&s),
                None => None::<&Selection>,
            },
    {
        match &self.selection {
            Some(s) => Some(s),
            None => None,
        }
    }

    /// An independent copy.
    pub fn snapshot(&self) -> (r: Transaction)
        ensures
            r@ == self@,
            r.changes.len_spec() == self.changes.len_spec(),
            r.changes.len_after_spec() == self.changes.len_after_spec(),
            r.wf() == self.wf(),
    {
        let selection = match &self.selection {
            Some(s) => Some(s.snapshot()),
            None => None,
        };
        Transaction { changes: self.changes.snapshot(), selection }
    }

    /// Applies the transaction to `state`.
    ///
    /// Fails, leaving `state` as it was, when the changes were made for a
    /// text of another length.
    pub fn apply(&self, state: &mut State) -> (r: bool)
        requires
            self.wf(),
            old(state).wf(),
        ensures
            r == (self.changes.len_spec() == old(state).doc@.len()),
            final(state)@ == apply_tx(self@, old(state)@),
            final(state).wf(),
    {
        if self.changes.len() != state.doc.len_chars() {
            return false;
        }
        let doc = self.changes.apply(&state.doc);
        let selection = match &self.selection {
            Some(s) => s.snapshot(),
            None => state.selection.map(&self.changes),
        };
        proof {
            crate::changeset::lemma_apply_len(self.changes@, state.doc@);
        }
        state.doc = doc;
        state.selection = selection;
        true
    }

    /// The transaction that takes the result of this one, applied to
    /// `original`, back to `original`, selection included.
    pub fn invert(&self, original: &State) -> (r: Transaction)
        requires
            self.wf(),
            original.wf(),
            self.changes.len_spec() == original.doc@.len(),
        ensures
            r.wf(),
            r.changes@ == invert_ops(self.changes@, original.doc@),
            r.changes.len_spec() == self.changes.len_after_spec(),
            r.changes.len_after_spec() == self.changes.len_spec(),
            r.selection_model() == Some(original.selection@),
    {
        let changes = self.changes.invert(&original.doc);
        Transaction { changes, selection: Some(original.selection.snapshot()) }
    }
}

/// One replacement: characters `from..to` give way to the text, if any.
pub type Edit = (usize, usize, Option<Vec<char>>);

pub open spec fn edit_view(e: Edit) -> (nat, nat, Seq<char>) {
    (
        e.0 as nat,
        e.1 as nat,
        match e.2 {
            Some(v) => v@,
            None => seq![],
        },
    )
}

pub open spec fn edits_view(edits: Seq<Edit>) -> Seq<(nat, nat, Seq<char>)> {
    edits.map_values(|e: Edit| edit_view(e))
}

/// The edits are ordered, do not overlap, start at or after `last` and lie
/// within a text of `n` characters.
pub open spec fn edits_ok(ev: Seq<(nat, nat, Seq<char>)>, last: nat, n: nat) -> bool
    decreases ev.len(),
{
    if ev.len() == 0 {
        last <= n
    } else {
        last <= ev[0].0 <= ev[0].1 <= n && edits_ok(ev.drop_first(), ev[0].1, n)
    }
}

pub open spec fn retain_then(k: nat, r: Seq<Op>) -> Seq<Op> {
    if k > 0 {
        cons(Op::Retain(k), r)
    } else {
        r
    }
}

pub open spec fn delete_then(k: nat, r: Seq<Op>) -> Seq<Op> {
    if k > 0 {
        cons(Op::Delete(k), r)
    } else {
        r
    }
}

pub open spec fn insert_then(s: Seq<char>, r: Seq<Op>) -> Seq<Op> {
    if s.len() > 0 {
        cons(Op::Insert(s), r)
    } else {
        r
    }
}

/// The operations that carry out the edits from offset `last` of a text of
/// `n` characters on.
pub open spec fn edit_ops(ev: Seq<(nat, nat, Seq<char>)>, last: nat, n: nat) -> Seq<Op>
    decreases ev.len(),
{
    if ev.len() == 0 {
        retain_then((n - last) as nat, seq![])
    } else {
        let e = ev[0];
        retain_then(
            (e.0 - last) as nat,
            delete_then((e.1 - e.0) as nat, insert_then(e.2, edit_ops(ev.drop_first(), e.1, n))),
        )
    }
}

/// The text from offset `last` of `t` on, with the edits made.
pub open spec fn edited(t: Seq<char>, ev: Seq<(nat, nat, Seq<char>)>, last: nat) -> Seq<char>
    decreases ev.len(),
{
    if ev.len() == 0 {
        t.skip(last as int)
    } else {
        t.subrange(last as int, ev[0].0 as int) + ev[0].2 + edited(t, ev.drop_first(), ev[0].1)
    }
}

proof fn lemma_edit_ops(t: Seq<char>, ev: Seq<(nat, nat, Seq<char>)>, last: nat)
    requires
        edits_ok(ev, last, t.len()),
    ensures
        apply_ops(edit_ops(ev, last, t.len()), t.skip(last as int)) == edited(t, ev, last),
        len_before(edit_ops(ev, last, t.len())) == t.len() - last,
        ops_wf(edit_ops(ev, last, t.len())),
    decreases ev.len(),
{
    broadcast use lemma_cons;

    let n = t.len();
    let x = t.skip(last as int);
    if ev.len() == 0 {
        if n > last {
            reveal_with_fuel(apply_ops, 2);
            reveal_with_fuel(len_before, 2);
            assert(x.take((n - last) as int) + x.skip((n - last) as int) =~= x);
        }
        assert(ops_wf(edit_ops(ev, last, n)));
    } else {
        let e = ev[0];
        let r = edit_ops(ev.drop_first(), e.1, n);
        lemma_edit_ops(t, ev.drop_first(), e.1);
        let a = (e.0 - last) as nat;
        let b = (e.1 - e.0) as nat;
        let y = x.skip(a as int);
        let z = y.skip(b as int);
        assert(z =~= t.skip(e.1 as int));
        assert(x.take(a as int) =~= t.subrange(last as int, e.0 as int));
        assert(y =~= t.skip(e.0 as int));
        let i = insert_then(e.2, r);
        assert(apply_ops(i, z) == e.2 + apply_ops(r, z));
        assert(len_before(i) == len_before(r));
        assert(ops_wf(i)) by {
            assert forall|k: int| 0 <= k < i.len() implies crate::changeset::op_nonempty(#[trigger] i[k]) by {
                if e.2.len() > 0 && k > 0 {
                    assert(i[k] == r[k - 1]);
                }
            }
        }
        let dd = delete_then(b, i);
        assert(apply_ops(dd, y) == apply_ops(i, z)) by {
            if b == 0 {
                assert(z =~= y);
            }
        }
        assert(ops_wf(dd)) by {
            assert forall|k: int| 0 <= k < dd.len() implies crate::changeset::op_nonempty(#[trigger] dd[k]) by {
                if b > 0 && k > 0 {
                    assert(dd[k] == i[k - 1]);
                }
            }
        }
        assert(len_before(dd) == b + len_before(i));
        let full = retain_then(a, dd);
        assert(len_before(full) == a + len_before(dd));
        assert(apply_ops(full, x) == x.take(a as int) + apply_ops(dd, y)) by {
            if a == 0 {
                assert(x.take(0) =~= Seq::<char>::empty());
                assert(y =~= x);
                assert(x.take(0) + apply_ops(dd, y) =~= apply_ops(dd, y));
            }
        }
        assert(ops_wf(full)) by {
            assert forall|k: int| 0 <= k < full.len() implies crate::changeset::op_nonempty(#[trigger] full[k]) by {
                if a > 0 && k > 0 {
                    assert(full[k] == dd[k - 1]);
                }
            }
        }
        assert(x.take(a as int) + (e.2 + apply_ops(r, z)) =~= t.subrange(last as int, e.0 as int) + e.2 + edited(t, ev.drop_first(), e.1));
    }
}

/// Edits that put `text` at the head of each range.
pub open spec fn insert_edits(ranges: Seq<crate::selection::Range>, text: Seq<char>) -> Seq<(nat, nat, Seq<char>)> {
    ranges.map_values(|r: crate::selection::Range| (r.head as nat, r.head as nat, text))
}

impl Transaction {
    /// The transaction that makes `edits` to the text of `state`: each
    /// replaces characters `from..to` by its text, if any. The edits come
    /// in order and do not overlap.
    pub fn change(state: &State, edits: Vec<Edit>) -> (r: Transaction)
        requires
            state.wf(),
            edits_ok(edits_view(edits@), 0, state.doc@.len()),
            len_after(edit_ops(edits_view(edits@), 0, state.doc@.len())) <= usize::MAX,
        ensures
            r.wf(),
            r.selection is None,
            r.changes@ == edit_ops(edits_view(edits@), 0, state.doc@.len()),
            r.changes.len_spec() == state.doc@.len(),
            apply_ops(r.changes@, state.doc@) == edited(state.doc@, edits_view(edits@), 0),
    {
        let n = state.doc.len_chars();
        let ghost ev = edits_view(edits@);
        let ghost total = len_after(edit_ops(ev, 0, n as nat));
        let mut out: Vec<Operation> = Vec::new();
        let mut last: usize = 0;
        let mut after: usize = 0;
        let mut k: usize = 0;
        proof {
            assert(ev.skip(0) =~= ev);
            assert(ops_view(out@) + edit_ops(ev, 0, n as nat) =~= edit_ops(ev, 0, n as nat));
        }
        while k < edits.len()
            invariant
                ev == edits_view(edits@),
                n == state.doc@.len(),
                total == len_after(edit_ops(ev, 0, n as nat)),
                total <= usize::MAX,
                k <= edits@.len(),
                last <= n,
                edits_ok(ev.skip(k as int), last as nat, n as nat),
                ops_view(out@) + edit_ops(ev.skip(k as int), last as nat, n as nat) == edit_ops(ev, 0, n as nat),
                after + len_after(edit_ops(ev.skip(k as int), last as nat, n as nat)) == total,
            decreases edits@.len() - k,
        {
            broadcast use lemma_cons;

            let e = &edits[k];
            let from = e.0;
            let to = e.1;
            let ghost ek = ev[k as int];
            proof {
                assert(ev.skip(k as int)[0] == ek);
                assert(ev.skip(k as int).drop_first() =~= ev.skip(k + 1));
            }
            let ghost rest = edit_ops(ev.skip(k + 1), to as nat, n as nat);
            let ghost i = insert_then(ek.2, rest);
            let ghost dd = delete_then((to - from) as nat, i);
            let ghost mut tail = retain_then((from - last) as nat, dd);
            proof {
                assert(ek == edit_view(edits@[k as int]));
                assert(edit_ops(ev.skip(k as int), last as nat, n as nat) == tail);
            }
            if from > last {
                proof {
                    lemma_ops_view_push(out@, Operation::Retain((from - last) as usize));
                    lemma_push_cons(ops_view(out@), Op::Retain((from - last) as nat), dd);
                }
                out.push(Operation::Retain(from - last));
                after = after + (from - last);
                proof {
                    tail = dd;
                }
            }
            assert(ops_view(out@) + dd == edit_ops(ev, 0, n as nat));
            assert(after + len_after(dd) == total);
            if to > from {
                proof {
                    lemma_ops_view_push(out@, Operation::Delete((to - from) as usize));
                    lemma_push_cons(ops_view(out@), Op::Delete((to - from) as nat), i);
                }
                out.push(Operation::Delete(to - from));
            }
            assert(ops_view(out@) + i == edit_ops(ev, 0, n as nat));
            assert(after + len_after(i) == total);
            match &e.2 {
                Some(v) => {
                    if v.len() > 0 {
                        let c = copy_chars(v, 0, v.len());
                        assert(c@ =~= v@);
                        proof {
                            lemma_ops_view_push(out@, Operation::Insert(c));
                            lemma_push_cons(ops_view(out@), Op::Insert(c@), rest);
                        }
                        after = after + c.len();
                        out.push(Operation::Insert(c));
                    }
                },
                None => {},
            }
            assert(ops_view(out@) + rest == edit_ops(ev, 0, n as nat));
            assert(after + len_after(rest) == total);
            last = to;
            k = k + 1;
        }
        proof {
            assert(ev.skip(k as int) =~= Seq::<(nat, nat, Seq<char>)>::empty());
        }
        let ghost fin = retain_then((n - last) as nat, seq![]);
        assert(edit_ops(ev.skip(k as int), last as nat, n as nat) == fin);
        if n > last {
            proof {
                reveal_with_fuel(len_after, 2);
                lemma_ops_view_push(out@, Operation::Retain((n - last) as usize));
                lemma_push_cons(ops_view(out@), Op::Retain((n - last) as nat), seq![]);
                broadcast use lemma_cons;
            }
            out.push(Operation::Retain(n - last));
            after = after + (n - last);
        }
        proof {
            assert(len_after(Seq::<Op>::empty()) == 0);
            assert(ops_view(out@) + Seq::<Op>::empty() =~= ops_view(out@));
            assert(ops_view(out@) == edit_ops(ev, 0, n as nat));
            assert(after == total);
            assert(state.doc@.skip(0) =~= state.doc@);
            lemma_edit_ops(state.doc@, ev, 0);
        }
        let changes = ChangeSet::from_ops(out, n, after);
        Transaction { changes, selection: None }
    }

    /// The transaction that puts `text` at the head of every range of the
    /// selection of `state`; the heads come in order.
    pub fn insert(state: &State, text: Vec<char>) -> (r: Transaction)
        requires
            state.wf(),
            edits_ok(insert_edits(state.selection@.ranges, text@), 0, state.doc@.len()),
            len_after(edit_ops(insert_edits(state.selection@.ranges, text@), 0, state.doc@.len()))
                <= usize::MAX,
        ensures
            r.wf(),
            r.selection is None,
            r.changes@ == edit_ops(insert_edits(state.selection@.ranges, text@), 0, state.doc@.len()),
            r.changes.len_spec() == state.doc@.len(),
            apply_ops(r.changes@, state.doc@) == edited(
                state.doc@,
                insert_edits(state.selection@.ranges, text@),
                0,
            ),
    {
        let ranges = state.selection.ranges();
        let mut edits: Vec<Edit> = Vec::new();
        let mut k: usize = 0;
        while k < ranges.len()
            invariant
                ranges@ == state.selection@.ranges,
                k <= ranges@.len(),
                edits_view(edits@) == insert_edits(ranges@, text@).take(k as int),
            decreases ranges@.len() - k,
        {
            let head = ranges[k].head;
            let c = copy_chars(&text, 0, text.len());
            assert(c@ =~= text@);
            let e: Edit = (head, head, Some(c));
            let ghost prev = edits@;
            edits.push(e);
            assert(edit_view(e) == (head as nat, head as nat, text@));
            assert(edits_view(edits@) =~= edits_view(prev).push(edit_view(e)));
            assert(edits_view(edits@) =~= insert_edits(ranges@, text@).take(k + 1));
            k = k + 1;
        }
        assert(insert_edits(ranges@, text@).take(k as int) =~= insert_edits(ranges@, text@));
        Transaction::change(state, edits)
    }
}

} // verus!
