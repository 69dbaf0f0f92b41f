use vstd::prelude::*;

use crate::text::{copy_chars, Text};

verus! {

/// Which side of an insertion a position at the insertion point sticks to.
#[derive(Copy, Clone, PartialEq, Eq, Structural)]
pub enum Assoc {
    Before,
    After,
}

/// One step of a change set, walked left to right over the original text.
pub enum Operation {
    /// Keep the next `n` characters.
    Retain(usize),
    /// Drop the next `n` characters.
    Delete(usize),
    /// Put these characters in at the current point.
    Insert(Vec<char>),
}

/// The mathematical form of an [`Operation`].
pub enum Op {
    Retain(nat),
    Delete(nat),
    Insert(Seq<char>),
}

impl View for Operation {
    type V = Op;

    open spec fn view(&self) -> Op {
        match self {
            Operation::Retain(n) => Op::Retain(*n as nat),
            Operation::Delete(n) => Op::Delete(*n as nat),
            Operation::Insert(s) => Op::Insert(s@),
        }
    }
}

pub open spec fn cons(x: Op, t: Seq<Op>) -> Seq<Op> {
    seq![x] + t
}

pub broadcast proof fn lemma_cons(x: Op, t: Seq<Op>)
    ensures
        #[trigger] cons(x, t).len() == t.len() + 1,
        cons(x, t)[0] == x,
        cons(x, t).drop_first() == t,
{
    assert(cons(x, t).drop_first() =~= t);
}

/// Characters of the original text that an operation consumes.
pub open spec fn op_old_len(op: Op) -> nat {
    match op {
        Op::Retain(n) => n,
        Op::Delete(n) => n,
        Op::Insert(_) => 0,
    }
}

/// Characters of the new text that an operation produces.
pub open spec fn op_new_len(op: Op) -> nat {
    match op {
        Op::Retain(n) => n,
        Op::Delete(_) => 0,
        Op::Insert(s) => s.len(),
    }
}

/// Length of the text a sequence of operations applies to.
pub open spec fn len_before(ops: Seq<Op>) -> nat
    decreases ops.len(),
{
    if ops.len() == 0 {
        0
    } else {
        op_old_len(ops[0]) + len_before(ops.drop_first())
    }
}

/// Length of the text a sequence of operations produces.
pub open spec fn len_after(ops: Seq<Op>) -> nat
    decreases ops.len(),
{
    if ops.len() == 0 {
        0
    } else {
        op_new_len(ops[0]) + len_after(ops.drop_first())
    }
}

/// The text that results from running `ops` over `t`.
pub open spec fn apply_ops(ops: Seq<Op>, t: Seq<char>) -> Seq<char>
    decreases ops.len(),
{
    if ops.len() == 0 {
        t
    } else {
        match ops[0] {
            Op::Retain(n) => t.take(n as int) + apply_ops(ops.drop_first(), t.skip(n as int)),
            Op::Delete(n) => apply_ops(ops.drop_first(), t.skip(n as int)),
            Op::Insert(s) => s + apply_ops(ops.drop_first(), t),
        }
    }
}

/// Where position `pos` of the original text lands after `ops`.
///
/// A position inside a retained run moves with it. A position inside a
/// deleted run collapses onto the end of that run, and then, like any
/// position that sits exactly where an insertion happens, goes before the
/// inserted text under `Assoc::Before` and after it under `Assoc::After`.
pub open spec fn map_ops(ops: Seq<Op>, pos: nat, assoc: Assoc) -> nat
    decreases ops.len(),
{
    if ops.len() == 0 {
        pos
    } else {
        match ops[0] {
            Op::Retain(n) => if pos < n {
                pos
            } else {
                n + map_ops(ops.drop_first(), (pos - n) as nat, assoc)
            },
            Op::Delete(n) => if pos < n {
                map_ops(ops.drop_first(), 0, assoc)
            } else {
                map_ops(ops.drop_first(), (pos - n) as nat, assoc)
            },
            Op::Insert(s) => if pos == 0 && assoc == Assoc::Before {
                0
            } else {
                s.len() + map_ops(ops.drop_first(), pos, assoc)
            },
        }
    }
}

/// The operations that undo `ops` when run over `ops` applied to `t`.
pub open spec fn invert_ops(ops: Seq<Op>, t: Seq<char>) -> Seq<Op>
    decreases ops.len(),
{
    if ops.len() == 0 {
        seq![]
    } else {
        match ops[0] {
            Op::Retain(n) => cons(Op::Retain(n), invert_ops(ops.drop_first(), t.skip(n as int))),
            Op::Delete(n) => cons(
                Op::Insert(t.take(n as int)),
                invert_ops(ops.drop_first(), t.skip(n as int)),
            ),
            Op::Insert(s) => cons(Op::Delete(s.len()), invert_ops(ops.drop_first(), t)),
        }
    }
}

pub open spec fn op_size(op: Op) -> nat {
    op_old_len(op) + op_new_len(op) + 1
}

pub open spec fn ops_size(ops: Seq<Op>) -> nat
    decreases ops.len(),
{
    if ops.len() == 0 {
        0
    } else {
        op_size(ops[0]) + ops_size(ops.drop_first())
    }
}

/// Runs `a` then `b` as one sequence of operations.
pub open spec fn compose_ops(a: Seq<Op>, b: Seq<Op>) -> Seq<Op>
    decreases ops_size(a) + ops_size(b),
    via compose_ops_decreases
{
    if a.len() > 0 && a[0] is Delete {
        cons(a[0], compose_ops(a.drop_first(), b))
    } else if b.len() > 0 && b[0] is Insert {
        cons(b[0], compose_ops(a, b.drop_first()))
    } else if a.len() == 0 || b.len() == 0 {
        a + b
    } else {
        let ra = a.drop_first();
        let rb = b.drop_first();
        match (a[0], b[0]) {
            (Op::Retain(i), Op::Retain(j)) => if i < j {
                cons(Op::Retain(i), compose_ops(ra, cons(Op::Retain((j - i) as nat), rb)))
            } else if i == j {
                cons(Op::Retain(i), compose_ops(ra, rb))
            } else {
                cons(Op::Retain(j), compose_ops(cons(Op::Retain((i - j) as nat), ra), rb))
            },
            (Op::Retain(i), Op::Delete(j)) => if i < j {
                cons(Op::Delete(i), compose_ops(ra, cons(Op::Delete((j - i) as nat), rb)))
            } else if i == j {
                cons(Op::Delete(i), compose_ops(ra, rb))
            } else {
                cons(Op::Delete(j), compose_ops(cons(Op::Retain((i - j) as nat), ra), rb))
            },
            (Op::Insert(s), Op::Retain(j)) => if s.len() < j {
                cons(Op::Insert(s), compose_ops(ra, cons(Op::Retain((j - s.len()) as nat), rb)))
            } else if s.len() == j {
                cons(Op::Insert(s), compose_ops(ra, rb))
            } else {
                cons(
                    Op::Insert(s.take(j as int)),
                    compose_ops(cons(Op::Insert(s.skip(j as int)), ra), rb),
                )
            },
            (Op::Insert(s), Op::Delete(j)) => if s.len() < j {
                compose_ops(ra, cons(Op::Delete((j - s.len()) as nat), rb))
            } else if s.len() == j {
                compose_ops(ra, rb)
            } else {
                compose_ops(cons(Op::Insert(s.skip(j as int)), ra), rb)
            },
            _ => a + b,
        }
    }
}

proof fn lemma_size_cons(x: Op, t: Seq<Op>)
    ensures
        ops_size(cons(x, t)) == op_size(x) + ops_size(t),
{
    broadcast use lemma_cons;

    reveal_with_fuel(ops_size, 2);
}

#[via_fn]
proof fn compose_ops_decreases(a: Seq<Op>, b: Seq<Op>) {
    broadcast use lemma_cons;

    if a.len() > 0 {
        reveal_with_fuel(ops_size, 2);
    }
    if b.len() > 0 {
        reveal_with_fuel(ops_size, 2);
    }
    if a.len() > 0 && a[0] is Delete {
    } else if b.len() > 0 && b[0] is Insert {
    } else if a.len() == 0 || b.len() == 0 {
    } else {
        let ra = a.drop_first();
        let rb = b.drop_first();
        match (a[0], b[0]) {
            (Op::Retain(i), Op::Retain(j)) => {
                lemma_size_cons(Op::Retain((j - i) as nat), rb);
                lemma_size_cons(Op::Retain((i - j) as nat), ra);
            },
            (Op::Retain(i), Op::Delete(j)) => {
                lemma_size_cons(Op::Delete((j - i) as nat), rb);
                lemma_size_cons(Op::Retain((i - j) as nat), ra);
            },
            (Op::Insert(s), Op::Retain(j)) => {
                lemma_size_cons(Op::Retain((j - s.len()) as nat), rb);
                lemma_size_cons(Op::Insert(s.skip(j as int)), ra);
            },
            (Op::Insert(s), Op::Delete(j)) => {
                lemma_size_cons(Op::Delete((j - s.len()) as nat), rb);
                lemma_size_cons(Op::Insert(s.skip(j as int)), ra);
            },
            _ => {},
        }
    }
}


/// No operation of the sequence is empty.
pub open spec fn op_nonempty(op: Op) -> bool {
    match op {
        Op::Retain(n) => n > 0,
        Op::Delete(n) => n > 0,
        Op::Insert(s) => s.len() > 0,
    }
}

pub open spec fn ops_wf(ops: Seq<Op>) -> bool {
    forall|k: int| 0 <= k < ops.len() ==> op_nonempty(#[trigger] ops[k])
}

proof fn lemma_wf_cons(x: Op, t: Seq<Op>)
    ensures
        ops_wf(cons(x, t)) == (op_nonempty(x) && ops_wf(t)),
{
    broadcast use lemma_cons;

    if op_nonempty(x) && ops_wf(t) {
        assert forall|k: int| 0 <= k < cons(x, t).len() implies op_nonempty(#[trigger] cons(x, t)[k]) by {
            if k > 0 {
                assert(cons(x, t)[k] == t[k - 1]);
            }
        }
    }
    if ops_wf(cons(x, t)) {
        assert(op_nonempty(cons(x, t)[0]));
        assert forall|k: int| 0 <= k < t.len() implies op_nonempty(#[trigger] t[k]) by {
            assert(cons(x, t)[k + 1] == t[k]);
        }
    }
}

proof fn lemma_wf_tail(ops: Seq<Op>)
    requires
        ops.len() > 0,
    ensures
        ops_wf(ops) == (op_nonempty(ops[0]) && ops_wf(ops.drop_first())),
{
    broadcast use lemma_cons;

    assert(ops =~= cons(ops[0], ops.drop_first()));
    lemma_wf_cons(ops[0], ops.drop_first());
}

/// A position at the very start stays there when it sticks to what precedes it.
pub proof fn lemma_map_start_before(ops: Seq<Op>)
    ensures
        map_ops(ops, 0, Assoc::Before) == 0,
    decreases ops.len(),
{
    if ops.len() > 0 {
        lemma_map_start_before(ops.drop_first());
    }
}

pub proof fn lemma_apply_len(ops: Seq<Op>, t: Seq<char>)
    requires
        t.len() == len_before(ops),
    ensures
        apply_ops(ops, t).len() == len_after(ops),
    decreases ops.len(),
{
    if ops.len() > 0 {
        match ops[0] {
            Op::Retain(n) => lemma_apply_len(ops.drop_first(), t.skip(n as int)),
            Op::Delete(n) => lemma_apply_len(ops.drop_first(), t.skip(n as int)),
            Op::Insert(s) => lemma_apply_len(ops.drop_first(), t),
        }
    }
}

pub proof fn lemma_map_bound(ops: Seq<Op>, pos: nat, assoc: Assoc)
    requires
        pos <= len_before(ops),
    ensures
        map_ops(ops, pos, assoc) <= len_after(ops),
    decreases ops.len(),
{
    if ops.len() > 0 {
        let r = ops.drop_first();
        match ops[0] {
            Op::Retain(n) => if pos >= n {
                lemma_map_bound(r, (pos - n) as nat, assoc);
            },
            Op::Delete(n) => if pos < n {
                lemma_map_bound(r, 0, assoc);
            } else {
                lemma_map_bound(r, (pos - n) as nat, assoc);
            },
            Op::Insert(s) => lemma_map_bound(r, pos, assoc),
        }
    }
}

/// Composition keeps the lengths at both ends and the absence of empty operations.
pub proof fn lemma_compose_shape(a: Seq<Op>, b: Seq<Op>)
    requires
        len_after(a) == len_before(b),
        ops_wf(a),
        ops_wf(b),
    ensures
        len_before(compose_ops(a, b)) == len_before(a),
        len_after(compose_ops(a, b)) == len_after(b),
        ops_wf(compose_ops(a, b)),
    decreases ops_size(a) + ops_size(b),
{
    broadcast use lemma_cons;

    if a.len() > 0 {
        lemma_wf_tail(a);
    }
    if b.len() > 0 {
        lemma_wf_tail(b);
    }
    if a.len() > 0 && a[0] is Delete {
        lemma_compose_shape(a.drop_first(), b);
        lemma_wf_cons(a[0], compose_ops(a.drop_first(), b));
    } else if b.len() > 0 && b[0] is Insert {
        lemma_compose_shape(a, b.drop_first());
        lemma_wf_cons(b[0], compose_ops(a, b.drop_first()));
    } else if a.len() == 0 || b.len() == 0 {
    } else {
        let ra = a.drop_first();
        let rb = b.drop_first();
        match (a[0], b[0]) {
            (Op::Retain(i), Op::Retain(j)) => if i < j {
                let nb = cons(Op::Retain((j - i) as nat), rb);
                lemma_size_cons(Op::Retain((j - i) as nat), rb);
                lemma_wf_cons(Op::Retain((j - i) as nat), rb);
                lemma_compose_shape(ra, nb);
                lemma_wf_cons(Op::Retain(i), compose_ops(ra, nb));
            } else if i == j {
                lemma_compose_shape(ra, rb);
                lemma_wf_cons(Op::Retain(i), compose_ops(ra, rb));
            } else {
                let na = cons(Op::Retain((i - j) as nat), ra);
                lemma_size_cons(Op::Retain((i - j) as nat), ra);
                lemma_wf_cons(Op::Retain((i - j) as nat), ra);
                lemma_compose_shape(na, rb);
                lemma_wf_cons(Op::Retain(j), compose_ops(na, rb));
            },
            (Op::Retain(i), Op::Delete(j)) => if i < j {
                let nb = cons(Op::Delete((j - i) as nat), rb);
                lemma_size_cons(Op::Delete((j - i) as nat), rb);
                lemma_wf_cons(Op::Delete((j - i) as nat), rb);
                lemma_compose_shape(ra, nb);
                lemma_wf_cons(Op::Delete(i), compose_ops(ra, nb));
            } else if i == j {
                lemma_compose_shape(ra, rb);
                lemma_wf_cons(Op::Delete(i), compose_ops(ra, rb));
            } else {
                let na = cons(Op::Retain((i - j) as nat), ra);
                lemma_size_cons(Op::Retain((i - j) as nat), ra);
                lemma_wf_cons(Op::Retain((i - j) as nat), ra);
                lemma_compose_shape(na, rb);
                lemma_wf_cons(Op::Delete(j), compose_ops(na, rb));
            },
            (Op::Insert(s), Op::Retain(j)) => if s.len() < j {
                let nb = cons(Op::Retain((j - s.len()) as nat), rb);
                lemma_size_cons(Op::Retain((j - s.len()) as nat), rb);
                lemma_wf_cons(Op::Retain((j - s.len()) as nat), rb);
                lemma_compose_shape(ra, nb);
                lemma_wf_cons(Op::Insert(s), compose_ops(ra, nb));
            } else if s.len() == j {
                lemma_compose_shape(ra, rb);
                lemma_wf_cons(Op::Insert(s), compose_ops(ra, rb));
            } else {
                let na = cons(Op::Insert(s.skip(j as int)), ra);
                lemma_size_cons(Op::Insert(s.skip(j as int)), ra);
                lemma_wf_cons(Op::Insert(s.skip(j as int)), ra);
                lemma_compose_shape(na, rb);
                lemma_wf_cons(Op::Insert(s.take(j as int)), compose_ops(na, rb));
            },
            (Op::Insert(s), Op::Delete(j)) => if s.len() < j {
                let nb = cons(Op::Delete((j - s.len()) as nat), rb);
                lemma_size_cons(Op::Delete((j - s.len()) as nat), rb);
                lemma_wf_cons(Op::Delete((j - s.len()) as nat), rb);
                lemma_compose_shape(ra, nb);
            } else if s.len() == j {
                lemma_compose_shape(ra, rb);
            } else {
                let na = cons(Op::Insert(s.skip(j as int)), ra);
                lemma_size_cons(Op::Insert(s.skip(j as int)), ra);
                lemma_wf_cons(Op::Insert(s.skip(j as int)), ra);
                lemma_compose_shape(na, rb);
            },
            _ => {},
        }
    }
}


proof fn lemma_split_concat(x: Seq<char>, y: Seq<char>, n: int)
    requires
        x.len() <= n <= x.len() + y.len(),
    ensures
        (x + y).take(n) == x + y.take(n - x.len()),
        (x + y).skip(n) == y.skip(n - x.len()),
{
    assert((x + y).take(n) =~= x + y.take(n - x.len()));
    assert((x + y).skip(n) =~= y.skip(n - x.len()));
}

proof fn lemma_concat_assoc(x: Seq<char>, y: Seq<char>, z: Seq<char>)
    ensures
        x + (y + z) == (x + y) + z,
{
    assert(x + (y + z) =~= (x + y) + z);
}

proof fn lemma_split_twice(t: Seq<char>, i: int, j: int)
    requires
        0 <= i <= j <= t.len(),
    ensures
        t.skip(i).take(j - i) == t.subrange(i, j),
        t.skip(i).skip(j - i) == t.skip(j),
        t.take(j) == t.take(i) + t.subrange(i, j),
{
    assert(t.skip(i).take(j - i) =~= t.subrange(i, j));
    assert(t.skip(i).skip(j - i) =~= t.skip(j));
    assert(t.take(j) =~= t.take(i) + t.subrange(i, j));
}

/// Running the composition is running `a`, then `b`.
pub proof fn lemma_compose_apply(a: Seq<Op>, b: Seq<Op>, t: Seq<char>)
    requires
        t.len() == len_before(a),
        len_after(a) == len_before(b),
    ensures
        apply_ops(compose_ops(a, b), t) == apply_ops(b, apply_ops(a, t)),
    decreases ops_size(a) + ops_size(b), 1nat,
{
    broadcast use lemma_cons;

    if a.len() > 0 && a[0] is Delete {
        let n = op_old_len(a[0]) as int;
        lemma_compose_apply(a.drop_first(), b, t.skip(n));
    } else if b.len() > 0 && b[0] is Insert {
        lemma_compose_apply(a, b.drop_first(), t);
    } else if a.len() == 0 || b.len() == 0 {
        if a.len() == 0 {
            assert(a + b =~= b);
        } else {
            assert(a + b =~= a);
        }
    } else if a[0] is Retain && b[0] is Retain {
        lemma_compose_apply_rr(a, b, t);
    } else if a[0] is Retain && b[0] is Delete {
        lemma_compose_apply_rd(a, b, t);
    } else if a[0] is Insert && b[0] is Retain {
        lemma_compose_apply_ir(a, b, t);
    } else {
        lemma_compose_apply_id(a, b, t);
    }
}

proof fn lemma_compose_apply_rr(a: Seq<Op>, b: Seq<Op>, t: Seq<char>)
    requires
        t.len() == len_before(a),
        len_after(a) == len_before(b),
        a.len() > 0,
        b.len() > 0,
        a[0] is Retain,
        b[0] is Retain,
    ensures
        apply_ops(compose_ops(a, b), t) == apply_ops(b, apply_ops(a, t)),
    decreases ops_size(a) + ops_size(b), 0nat,
{
    broadcast use lemma_cons;

    let ra = a.drop_first();
    let rb = b.drop_first();
    let i = a[0]->Retain_0;
    let j = b[0]->Retain_0;
    let ii = i as int;
    let jj = j as int;
    let x = apply_ops(ra, t.skip(ii));
    lemma_apply_len(ra, t.skip(ii));
    if i < j {
        let nb = cons(Op::Retain((j - i) as nat), rb);
        lemma_size_cons(Op::Retain((j - i) as nat), rb);
        lemma_compose_apply(ra, nb, t.skip(ii));
        lemma_split_concat(t.take(ii), x, jj);
    } else if i == j {
        lemma_compose_apply(ra, rb, t.skip(ii));
        lemma_split_concat(t.take(ii), x, jj);
        assert(x.take(0) =~= seq![]);
        assert(x.skip(0) =~= x);
        assert(t.take(ii) + seq![] =~= t.take(ii));
    } else {
        let na = cons(Op::Retain((i - j) as nat), ra);
        lemma_size_cons(Op::Retain((i - j) as nat), ra);
        lemma_compose_apply(na, rb, t.skip(jj));
        lemma_split_twice(t, jj, ii);
        assert((t.take(ii) + x).take(jj) =~= t.take(jj));
        assert((t.take(ii) + x).skip(jj) =~= t.subrange(jj, ii) + x);
    }
}

proof fn lemma_compose_apply_rd(a: Seq<Op>, b: Seq<Op>, t: Seq<char>)
    requires
        t.len() == len_before(a),
        len_after(a) == len_before(b),
        a.len() > 0,
        b.len() > 0,
        a[0] is Retain,
        b[0] is Delete,
    ensures
        apply_ops(compose_ops(a, b), t) == apply_ops(b, apply_ops(a, t)),
    decreases ops_size(a) + ops_size(b), 0nat,
{
    broadcast use lemma_cons;

    let ra = a.drop_first();
    let rb = b.drop_first();
    let i = a[0]->Retain_0;
    let j = b[0]->Delete_0;
    let ii = i as int;
    let jj = j as int;
    let x = apply_ops(ra, t.skip(ii));
    lemma_apply_len(ra, t.skip(ii));
    if i < j {
        let nb = cons(Op::Delete((j - i) as nat), rb);
        lemma_size_cons(Op::Delete((j - i) as nat), rb);
        lemma_compose_apply(ra, nb, t.skip(ii));
        lemma_split_concat(t.take(ii), x, jj);
    } else if i == j {
        lemma_compose_apply(ra, rb, t.skip(ii));
        lemma_split_concat(t.take(ii), x, jj);
        assert(x.skip(0) =~= x);
    } else {
        let na = cons(Op::Retain((i - j) as nat), ra);
        lemma_size_cons(Op::Retain((i - j) as nat), ra);
        lemma_compose_apply(na, rb, t.skip(jj));
        lemma_split_twice(t, jj, ii);
        assert((t.take(ii) + x).take(jj) =~= t.take(jj));
        assert((t.take(ii) + x).skip(jj) =~= t.subrange(jj, ii) + x);
    }
}

proof fn lemma_compose_apply_ir(a: Seq<Op>, b: Seq<Op>, t: Seq<char>)
    requires
        t.len() == len_before(a),
        len_after(a) == len_before(b),
        a.len() > 0,
        b.len() > 0,
        a[0] is Insert,
        b[0] is Retain,
    ensures
        apply_ops(compose_ops(a, b), t) == apply_ops(b, apply_ops(a, t)),
    decreases ops_size(a) + ops_size(b), 0nat,
{
    broadcast use lemma_cons;

    let ra = a.drop_first();
    let rb = b.drop_first();
    let s = a[0]->Insert_0;
    let j = b[0]->Retain_0;
    let jj = j as int;
    let x = apply_ops(ra, t);
    lemma_apply_len(ra, t);
    if s.len() < j {
        let nb = cons(Op::Retain((j - s.len()) as nat), rb);
        lemma_size_cons(Op::Retain((j - s.len()) as nat), rb);
        lemma_compose_apply(ra, nb, t);
        lemma_split_concat(s, x, jj);
        let k = jj - s.len();
        lemma_concat_assoc(s, x.take(k), apply_ops(rb, x.skip(k)));
    } else if s.len() == j {
        lemma_compose_apply(ra, rb, t);
        assert((s + x).take(jj) =~= s);
        assert((s + x).skip(jj) =~= x);
    } else {
        let na = cons(Op::Insert(s.skip(jj)), ra);
        lemma_size_cons(Op::Insert(s.skip(jj)), ra);
        lemma_compose_apply(na, rb, t);
        assert((s + x).take(jj) =~= s.take(jj));
        assert((s + x).skip(jj) =~= s.skip(jj) + x);
    }
}

proof fn lemma_compose_apply_id(a: Seq<Op>, b: Seq<Op>, t: Seq<char>)
    requires
        t.len() == len_before(a),
        len_after(a) == len_before(b),
        a.len() > 0,
        b.len() > 0,
        a[0] is Insert,
        b[0] is Delete,
    ensures
        apply_ops(compose_ops(a, b), t) == apply_ops(b, apply_ops(a, t)),
    decreases ops_size(a) + ops_size(b), 0nat,
{
    broadcast use lemma_cons;

    let ra = a.drop_first();
    let rb = b.drop_first();
    let s = a[0]->Insert_0;
    let j = b[0]->Delete_0;
    let jj = j as int;
    let x = apply_ops(ra, t);
    lemma_apply_len(ra, t);
    if s.len() < j {
        let nb = cons(Op::Delete((j - s.len()) as nat), rb);
        lemma_size_cons(Op::Delete((j - s.len()) as nat), rb);
        lemma_compose_apply(ra, nb, t);
        lemma_split_concat(s, x, jj);
    } else if s.len() == j {
        lemma_compose_apply(ra, rb, t);
        lemma_split_concat(s, x, jj);
        assert(x.skip(0) =~= x);
    } else {
        let na = cons(Op::Insert(s.skip(jj)), ra);
        lemma_size_cons(Op::Insert(s.skip(jj)), ra);
        lemma_compose_apply(na, rb, t);
        assert((s + x).skip(jj) =~= s.skip(jj) + x);
    }
}


/// Mapping a position through the composition is mapping it through `a`,
/// then through `b`.
pub proof fn lemma_compose_map(a: Seq<Op>, b: Seq<Op>, p: nat, assoc: Assoc)
    requires
        p <= len_before(a),
        len_after(a) == len_before(b),
        ops_wf(a),
        ops_wf(b),
        assoc == Assoc::Before,
    ensures
        map_ops(compose_ops(a, b), p, assoc) == map_ops(b, map_ops(a, p, assoc), assoc),
    decreases ops_size(a) + ops_size(b), 1nat,
{
    broadcast use lemma_cons;

    if a.len() > 0 {
        lemma_wf_tail(a);
    }
    if b.len() > 0 {
        lemma_wf_tail(b);
    }
    if a.len() > 0 && a[0] is Delete {
        let n = op_old_len(a[0]);
        if p < n {
            lemma_compose_map(a.drop_first(), b, 0, assoc);
        } else {
            lemma_compose_map(a.drop_first(), b, (p - n) as nat, assoc);
        }
    } else if b.len() > 0 && b[0] is Insert {
        lemma_compose_map(a, b.drop_first(), p, assoc);
        if p == 0 {
            lemma_map_start_before(a);
        } else if a.len() > 0 {
            lemma_map_positive(a, p, assoc);
        }
    } else if a.len() == 0 || b.len() == 0 {
        if a.len() == 0 {
            assert(a + b =~= b);
        } else {
            assert(a + b =~= a);
        }
    } else if a[0] is Retain && b[0] is Retain {
        lemma_compose_map_rr(a, b, p, assoc);
    } else if a[0] is Retain && b[0] is Delete {
        lemma_compose_map_rd(a, b, p, assoc);
    } else if a[0] is Insert && b[0] is Retain {
        lemma_compose_map_ir(a, b, p, assoc);
    } else {
        lemma_compose_map_id(a, b, p, assoc);
    }
}

/// Positions past the start stay past the start unless a deletion comes first.
proof fn lemma_map_positive(ops: Seq<Op>, p: nat, assoc: Assoc)
    requires
        ops_wf(ops),
        ops.len() > 0,
        !(ops[0] is Delete),
        p > 0,
    ensures
        map_ops(ops, p, assoc) > 0,
{
    lemma_wf_tail(ops);
}

proof fn lemma_compose_map_rr(a: Seq<Op>, b: Seq<Op>, p: nat, assoc: Assoc)
    requires
        p <= len_before(a),
        len_after(a) == len_before(b),
        ops_wf(a),
        ops_wf(b),
        assoc == Assoc::Before,
        a.len() > 0,
        b.len() > 0,
        a[0] is Retain,
        b[0] is Retain,
    ensures
        map_ops(compose_ops(a, b), p, assoc) == map_ops(b, map_ops(a, p, assoc), assoc),
    decreases ops_size(a) + ops_size(b), 0nat,
{
    broadcast use lemma_cons;

    let ra = a.drop_first();
    let rb = b.drop_first();
    lemma_wf_tail(a);
    lemma_wf_tail(b);
    let i = a[0]->Retain_0;
    let j = b[0]->Retain_0;
    if p >= i {
        lemma_map_bound(ra, (p - i) as nat, assoc);
    }
    if i < j {
        let nb = cons(Op::Retain((j - i) as nat), rb);
        lemma_size_cons(Op::Retain((j - i) as nat), rb);
        lemma_wf_cons(Op::Retain((j - i) as nat), rb);
        if p >= i {
            lemma_compose_map(ra, nb, (p - i) as nat, assoc);
        }
    } else if i == j {
        if p >= i {
            lemma_compose_map(ra, rb, (p - i) as nat, assoc);
        }
    } else {
        let na = cons(Op::Retain((i - j) as nat), ra);
        lemma_size_cons(Op::Retain((i - j) as nat), ra);
        lemma_wf_cons(Op::Retain((i - j) as nat), ra);
        if p >= j {
            lemma_compose_map(na, rb, (p - j) as nat, assoc);
        }
    }
}

proof fn lemma_compose_map_rd(a: Seq<Op>, b: Seq<Op>, p: nat, assoc: Assoc)
    requires
        p <= len_before(a),
        len_after(a) == len_before(b),
        ops_wf(a),
        ops_wf(b),
        assoc == Assoc::Before,
        a.len() > 0,
        b.len() > 0,
        a[0] is Retain,
        b[0] is Delete,
    ensures
        map_ops(compose_ops(a, b), p, assoc) == map_ops(b, map_ops(a, p, assoc), assoc),
    decreases ops_size(a) + ops_size(b), 0nat,
{
    broadcast use lemma_cons;

    let ra = a.drop_first();
    let rb = b.drop_first();
    lemma_wf_tail(a);
    lemma_wf_tail(b);
    let i = a[0]->Retain_0;
    let j = b[0]->Delete_0;
    if p >= i {
        lemma_map_bound(ra, (p - i) as nat, assoc);
    }
    if i < j {
        let nb = cons(Op::Delete((j - i) as nat), rb);
        lemma_size_cons(Op::Delete((j - i) as nat), rb);
        lemma_wf_cons(Op::Delete((j - i) as nat), rb);
        if p >= i {
            lemma_compose_map(ra, nb, (p - i) as nat, assoc);
        } else {
            lemma_compose_map(ra, nb, 0, assoc);
            lemma_map_start_before(ra);
        }
    } else if i == j {
        if p >= i {
            lemma_compose_map(ra, rb, (p - i) as nat, assoc);
        } else {
            lemma_compose_map(ra, rb, 0, assoc);
            lemma_map_start_before(ra);
        }
    } else {
        let na = cons(Op::Retain((i - j) as nat), ra);
        lemma_size_cons(Op::Retain((i - j) as nat), ra);
        lemma_wf_cons(Op::Retain((i - j) as nat), ra);
        if p >= j {
            lemma_compose_map(na, rb, (p - j) as nat, assoc);
        } else {
            lemma_compose_map(na, rb, 0, assoc);
        }
    }
}

proof fn lemma_compose_map_ir(a: Seq<Op>, b: Seq<Op>, p: nat, assoc: Assoc)
    requires
        p <= len_before(a),
        len_after(a) == len_before(b),
        ops_wf(a),
        ops_wf(b),
        assoc == Assoc::Before,
        a.len() > 0,
        b.len() > 0,
        a[0] is Insert,
        b[0] is Retain,
    ensures
        map_ops(compose_ops(a, b), p, assoc) == map_ops(b, map_ops(a, p, assoc), assoc),
    decreases ops_size(a) + ops_size(b), 0nat,
{
    broadcast use lemma_cons;

    let ra = a.drop_first();
    let rb = b.drop_first();
    lemma_wf_tail(a);
    lemma_wf_tail(b);
    let s = a[0]->Insert_0;
    let j = b[0]->Retain_0;
    lemma_map_bound(ra, p, assoc);
    lemma_map_start_before(ra);
    if s.len() < j {
        let nb = cons(Op::Retain((j - s.len()) as nat), rb);
        lemma_size_cons(Op::Retain((j - s.len()) as nat), rb);
        lemma_wf_cons(Op::Retain((j - s.len()) as nat), rb);
        lemma_compose_map(ra, nb, p, assoc);
    } else if s.len() == j {
        lemma_compose_map(ra, rb, p, assoc);
    } else {
        let na = cons(Op::Insert(s.skip(j as int)), ra);
        lemma_size_cons(Op::Insert(s.skip(j as int)), ra);
        lemma_wf_cons(Op::Insert(s.skip(j as int)), ra);
        lemma_compose_map(na, rb, p, assoc);
    }
}

proof fn lemma_compose_map_id(a: Seq<Op>, b: Seq<Op>, p: nat, assoc: Assoc)
    requires
        p <= len_before(a),
        len_after(a) == len_before(b),
        ops_wf(a),
        ops_wf(b),
        assoc == Assoc::Before,
        a.len() > 0,
        b.len() > 0,
        a[0] is Insert,
        b[0] is Delete,
    ensures
        map_ops(compose_ops(a, b), p, assoc) == map_ops(b, map_ops(a, p, assoc), assoc),
    decreases ops_size(a) + ops_size(b), 0nat,
{
    broadcast use lemma_cons;

    let ra = a.drop_first();
    let rb = b.drop_first();
    lemma_wf_tail(a);
    lemma_wf_tail(b);
    let s = a[0]->Insert_0;
    let j = b[0]->Delete_0;
    lemma_map_bound(ra, p, assoc);
    lemma_map_start_before(ra);
    lemma_map_start_before(rb);
    if s.len() < j {
        let nb = cons(Op::Delete((j - s.len()) as nat), rb);
        lemma_size_cons(Op::Delete((j - s.len()) as nat), rb);
        lemma_wf_cons(Op::Delete((j - s.len()) as nat), rb);
        lemma_compose_map(ra, nb, p, assoc);
    } else if s.len() == j {
        lemma_compose_map(ra, rb, p, assoc);
    } else {
        let na = cons(Op::Insert(s.skip(j as int)), ra);
        lemma_size_cons(Op::Insert(s.skip(j as int)), ra);
        lemma_wf_cons(Op::Insert(s.skip(j as int)), ra);
        lemma_compose_map(na, rb, p, assoc);
    }
}


/// The inverse takes the new text back to the old one, and keeps the shape.
pub proof fn lemma_invert(ops: Seq<Op>, t: Seq<char>)
    requires
        t.len() == len_before(ops),
    ensures
        apply_ops(invert_ops(ops, t), apply_ops(ops, t)) == t,
        len_before(invert_ops(ops, t)) == len_after(ops),
        len_after(invert_ops(ops, t)) == len_before(ops),
        ops_wf(ops) ==> ops_wf(invert_ops(ops, t)),
    decreases ops.len(),
{
    broadcast use lemma_cons;

    if ops.len() == 0 {
        assert(t =~= seq![]);
    } else {
        let r = ops.drop_first();
        lemma_wf_tail(ops);
        match ops[0] {
            Op::Retain(n) => {
                let k = n as int;
                lemma_invert(r, t.skip(k));
                let x = apply_ops(r, t.skip(k));
                assert((t.take(k) + x).take(k) =~= t.take(k));
                assert((t.take(k) + x).skip(k) =~= x);
                assert(t.take(k) + t.skip(k) =~= t);
                lemma_wf_cons(Op::Retain(n), invert_ops(r, t.skip(k)));
            },
            Op::Delete(n) => {
                let k = n as int;
                lemma_invert(r, t.skip(k));
                assert(t.take(k) + t.skip(k) =~= t);
                lemma_wf_cons(Op::Insert(t.take(k)), invert_ops(r, t.skip(k)));
            },
            Op::Insert(s) => {
                lemma_invert(r, t);
                let x = apply_ops(r, t);
                assert((s + x).skip(s.len() as int) =~= x);
                lemma_wf_cons(Op::Delete(s.len()), invert_ops(r, t));
            },
        }
    }
}


/// The mathematical form of a vector of operations.
pub open spec fn ops_view(v: Seq<Operation>) -> Seq<Op> {
    v.map_values(|o: Operation| o@)
}

pub proof fn lemma_ops_view_push(v: Seq<Operation>, x: Operation)
    ensures
        ops_view(v.push(x)) == ops_view(v).push(x@),
{
    assert(ops_view(v.push(x)) =~= ops_view(v).push(x@));
}

pub proof fn lemma_skip_step(v: Seq<Op>, i: int)
    requires
        0 <= i < v.len(),
    ensures
        v.skip(i) == cons(v[i], v.skip(i + 1)),
{
    assert(v.skip(i) =~= cons(v[i], v.skip(i + 1)));
}

pub proof fn lemma_push_cons(o: Seq<Op>, x: Op, c: Seq<Op>)
    ensures
        o.push(x) + c == o + cons(x, c),
{
    assert(o.push(x) + c =~= o + cons(x, c));
}

/// An independent copy of an operation.
fn copy_op(op: &Operation) -> (r: Operation)
    ensures
        r@ == op@,
{
    match op {
        Operation::Retain(n) => Operation::Retain(*n),
        Operation::Delete(n) => Operation::Delete(*n),
        Operation::Insert(s) => {
            let c = copy_chars(s, 0, s.len());
            assert(c@ =~= s@);
            Operation::Insert(c)
        },
    }
}

/// What is left of one side of a composition: the split-off head, if any,
/// then the operations from `i` on.
pub open spec fn rest(head: Option<Operation>, v: Seq<Op>, i: int) -> Seq<Op> {
    match head {
        Some(o) => cons(o@, v.skip(i)),
        None => v.skip(i),
    }
}

/// A description of an edit: retain, delete and insert runs that together
/// consume an original text of `len` characters and produce one of
/// `len_after` characters.
pub struct ChangeSet {
    changes: Vec<Operation>,
    len: usize,
    len_after: usize,
}

impl View for ChangeSet {
    type V = Seq<Op>;

    closed spec fn view(&self) -> Seq<Op> {
        ops_view(self.changes@)
    }
}

impl ChangeSet {
    /// Length of the text this change set applies to.
    pub closed spec fn len_spec(&self) -> nat {
        self.len as nat
    }

    /// Length of the text this change set produces.
    pub closed spec fn len_after_spec(&self) -> nat {
        self.len_after as nat
    }

    /// The stored lengths agree with the operations, and no operation is empty.
    pub open spec fn wf(&self) -> bool {
        &&& ops_wf(self@)
        &&& len_before(self@) == self.len_spec()
        &&& len_after(self@) == self.len_after_spec()
        &&& self.len_spec() <= usize::MAX
        &&& self.len_after_spec() <= usize::MAX
    }

    /// The change set that keeps all of `text`.
    pub fn new(text: &Text) -> (r: ChangeSet)
        ensures
            r.wf(),
            r.len_spec() == text@.len(),
            r.len_after_spec() == text@.len(),
            apply_ops(r@, text@) == text@,
            is_identity(r@),
            text@.len() > 0 ==> r@ == seq![Op::Retain(text@.len())],
            text@.len() == 0 ==> r@ == Seq::<Op>::empty(),
    {
        let r = Self::identity(text.len_chars());
        proof {
            if text@.len() > 0 {
                let t = text@;
                let n = t.len() as int;
                assert(r@.drop_first() =~= Seq::<Op>::empty());
                assert(t.take(n) + t.skip(n) =~= t);
                reveal_with_fuel(apply_ops, 2);
            }
        }
        r
    }

    /// The change set that keeps all of a text of `len` characters.
    pub fn identity(len: usize) -> (r: ChangeSet)
        ensures
            r.wf(),
            r.len_spec() == len,
            r.len_after_spec() == len,
            is_identity(r@),
            len > 0 ==> r@ == seq![Op::Retain(len as nat)],
            len == 0 ==> r@ == Seq::<Op>::empty(),
    {
        let mut changes: Vec<Operation> = Vec::new();
        if len > 0 {
            changes.push(Operation::Retain(len));
        }
        let r = ChangeSet { changes, len, len_after: len };
        proof {
            broadcast use lemma_cons;

            if len > 0 {
                assert(r@ =~= seq![Op::Retain(len as nat)]);
                assert(r@.drop_first() =~= Seq::<Op>::empty());
                reveal_with_fuel(len_before, 2);
                reveal_with_fuel(len_after, 2);
            } else {
                assert(r@ =~= Seq::<Op>::empty());
            }
        }
        r
    }

    pub fn len(&self) -> (r: usize)
        ensures
            r == self.len_spec(),
    {
        self.len
    }

    pub fn len_after(&self) -> (r: usize)
        ensures
            r == self.len_after_spec(),
    {
        self.len_after
    }

    pub fn changes(&self) -> (r: &Vec<Operation>)
        ensures
            ops_view(r@) == self@,
    {
        &self.changes
    }

    /// Whether this change set leaves every text unchanged: it only retains.
    pub fn is_empty(&self) -> (r: bool)
        ensures
            r == is_identity(self@),
    {
        let mut k: usize = 0;
        while k < self.changes.len()
            invariant
                k <= self.changes@.len(),
                forall|m: int| 0 <= m < k ==> (#[trigger] self@[m]) is Retain,
            decreases self.changes@.len() - k,
        {
            match &self.changes[k] {
                Operation::Retain(_) => {},
                _ => {
                    assert(!(self@[k as int] is Retain));
                    return false;
                },
            }
            k = k + 1;
        }
        true
    }

    /// Runs the change set over `text`.
    pub fn apply(&self, text: &Text) -> (r: Text)
        requires
            self.wf(),
            text@.len() == self.len_spec(),
        ensures
            r@ == apply_ops(self@, text@),
    {
        let ghost ops = self@;
        let ghost t = text@;
        let mut out: Vec<char> = Vec::new();
        let mut pos: usize = 0;
        let mut k: usize = 0;
        proof {
            assert(ops.skip(0) =~= ops);
            assert(t.skip(0) =~= t);
            assert(out@ + apply_ops(ops, t) =~= apply_ops(ops, t));
        }
        while k < self.changes.len()
            invariant
                self.wf(),
                ops == self@,
                t == text@,
                t.len() == len_before(ops),
                k <= self.changes@.len(),
                pos <= t.len(),
                len_before(ops.skip(k as int)) == t.len() - pos,
                out@ + apply_ops(ops.skip(k as int), t.skip(pos as int)) == apply_ops(ops, t),
            decreases self.changes@.len() - k,
        {
            proof {
                broadcast use lemma_cons;

                lemma_skip_step(ops, k as int);
            }
            let ghost before = out@;
            let ghost rest_t = t.skip(pos as int);
            match &self.changes[k] {
                Operation::Retain(n) => {
                    let n = *n;
                    let mut m: usize = 0;
                    while m < n
                        invariant
                            m <= n,
                            pos + n <= t.len(),
                            t.len() <= usize::MAX,
                            t == text@,
                            out@ == before + t.subrange(pos as int, pos + m),
                        decreases n - m,
                    {
                        out.push(text.char_at(pos + m));
                        m = m + 1;
                        assert(out@ =~= before + t.subrange(pos as int, pos + m));
                    }
                    proof {
                        assert(rest_t.take(n as int) =~= t.subrange(pos as int, pos + n));
                        assert(rest_t.skip(n as int) =~= t.skip(pos + n));
                        assert(out@ + apply_ops(ops.skip(k + 1), t.skip(pos + n)) =~= before + (
                        rest_t.take(n as int) + apply_ops(ops.skip(k + 1), rest_t.skip(n as int))));
                    }
                    pos = pos + n;
                },
                Operation::Delete(n) => {
                    proof {
                        assert(rest_t.skip(*n as int) =~= t.skip(pos + *n));
                    }
                    pos = pos + *n;
                },
                Operation::Insert(s) => {
                    let mut m: usize = 0;
                    while m < s.len()
                        invariant
                            m <= s@.len(),
                            out@ == before + s@.subrange(0, m as int),
                        decreases s@.len() - m,
                    {
                        out.push(s[m]);
                        m = m + 1;
                        assert(out@ =~= before + s@.subrange(0, m as int));
                    }
                    proof {
                        assert(s@.subrange(0, s@.len() as int) =~= s@);
                        assert(out@ + apply_ops(ops.skip(k + 1), rest_t) =~= before + (s@
                            + apply_ops(ops.skip(k + 1), rest_t)));
                    }
                },
            }
            k = k + 1;
        }
        proof {
            assert(ops.skip(k as int) =~= Seq::<Op>::empty());
            assert(t.skip(pos as int) =~= Seq::<char>::empty());
            assert(out@ + Seq::<char>::empty() =~= out@);
        }
        Text::from_chars(out)
    }
}

impl ChangeSet {
    /// Where position `pos` of the original text lands in the new text.
    pub fn map_pos(&self, pos: usize, assoc: Assoc) -> (r: usize)
        requires
            self.wf(),
            pos <= self.len_spec(),
        ensures
            r == map_ops(self@, pos as nat, assoc),
            r <= self.len_after_spec(),
    {
        let ghost ops = self@;
        let mut rel: usize = pos;
        let mut new_pos: usize = 0;
        let mut k: usize = 0;
        proof {
            assert(ops.skip(0) =~= ops);
            lemma_map_bound(ops, pos as nat, assoc);
        }
        while k < self.changes.len()
            invariant
                self.wf(),
                ops == self@,
                k <= self.changes@.len(),
                rel <= len_before(ops.skip(k as int)),
                new_pos + len_after(ops.skip(k as int)) == len_after(ops),
                new_pos + map_ops(ops.skip(k as int), rel as nat, assoc) == map_ops(ops, pos as nat, assoc),
            decreases self.changes@.len() - k,
        {
            proof {
                broadcast use lemma_cons;

                lemma_skip_step(ops, k as int);
                lemma_map_bound(ops.skip(k + 1), 0, assoc);
            }
            match &self.changes[k] {
                Operation::Retain(n) => {
                    if rel < *n {
                        return new_pos + rel;
                    }
                    new_pos = new_pos + *n;
                    rel = rel - *n;
                },
                Operation::Delete(n) => {
                    if rel < *n {
                        rel = 0;
                    } else {
                        rel = rel - *n;
                    }
                },
                Operation::Insert(s) => {
                    if rel == 0 && assoc == Assoc::Before {
                        return new_pos;
                    }
                    new_pos = new_pos + s.len();
                },
            }
            k = k + 1;
        }
        proof {
            assert(ops.skip(k as int) =~= Seq::<Op>::empty());
        }
        new_pos + rel
    }

    /// The change set that undoes this one, given the text it was made for.
    pub fn invert(&self, original: &Text) -> (r: ChangeSet)
        requires
            self.wf(),
            original@.len() == self.len_spec(),
        ensures
            r.wf(),
            r@ == invert_ops(self@, original@),
            r.len_spec() == self.len_after_spec(),
            r.len_after_spec() == self.len_spec(),
    {
        let ghost ops = self@;
        let ghost t = original@;
        let mut out: Vec<Operation> = Vec::new();
        let mut pos: usize = 0;
        let mut k: usize = 0;
        proof {
            assert(ops.skip(0) =~= ops);
            assert(t.skip(0) =~= t);
            assert(ops_view(out@) + invert_ops(ops, t) =~= invert_ops(ops, t));
        }
        while k < self.changes.len()
            invariant
                self.wf(),
                ops == self@,
                t == original@,
                t.len() == len_before(ops),
                k <= self.changes@.len(),
                pos <= t.len(),
                len_before(ops.skip(k as int)) == t.len() - pos,
                ops_view(out@) + invert_ops(ops.skip(k as int), t.skip(pos as int)) == invert_ops(ops, t),
            decreases self.changes@.len() - k,
        {
            proof {
                broadcast use lemma_cons;

                lemma_skip_step(ops, k as int);
            }
            let ghost before = ops_view(out@);
            let ghost rest_t = t.skip(pos as int);
            let op = match &self.changes[k] {
                Operation::Retain(n) => {
                    proof {
                        assert(rest_t.skip(*n as int) =~= t.skip(pos + *n));
                    }
                    pos = pos + *n;
                    Operation::Retain(*n)
                },
                Operation::Delete(n) => {
                    let chars = original.slice(pos, pos + *n);
                    proof {
                        assert(rest_t.skip(*n as int) =~= t.skip(pos + *n));
                        assert(rest_t.take(*n as int) =~= chars@);
                    }
                    pos = pos + *n;
                    Operation::Insert(chars)
                },
                Operation::Insert(s) => Operation::Delete(s.len()),
            };
            proof {
                lemma_ops_view_push(out@, op);
                lemma_push_cons(before, op@, invert_ops(ops.skip(k + 1), t.skip(pos as int)));
            }
            out.push(op);
            k = k + 1;
        }
        proof {
            assert(ops.skip(k as int) =~= Seq::<Op>::empty());
            assert(ops_view(out@) + Seq::<Op>::empty() =~= ops_view(out@));
            lemma_invert(ops, t);
        }
        ChangeSet { changes: out, len: self.len_after, len_after: self.len }
    }
}

proof fn lemma_rest_fetch(v: Seq<Op>, i: int, o: Operation)
    requires
        0 <= i < v.len(),
        o@ == v[i],
    ensures
        rest(Some(o), v, i + 1) == rest(None, v, i),
{
    lemma_skip_step(v, i);
}

impl ChangeSet {
    /// One change set that does what `self` and then `other` do.
    #[verifier::rlimit(100)]
    pub fn compose(self, other: ChangeSet) -> (r: ChangeSet)
        requires
            self.wf(),
            other.wf(),
            self.len_after_spec() == other.len_spec(),
        ensures
            r.wf(),
            r@ == compose_ops(self@, other@),
            r.len_spec() == self.len_spec(),
            r.len_after_spec() == other.len_after_spec(),
    {
        let ghost a = self@;
        let ghost b = other@;
        let mut out: Vec<Operation> = Vec::new();
        let mut ha: Option<Operation> = None;
        let mut hb: Option<Operation> = None;
        let mut i: usize = 0;
        let mut j: usize = 0;
        proof {
            assert(a.skip(0) =~= a);
            assert(b.skip(0) =~= b);
            assert(ops_view(out@) + compose_ops(a, b) =~= compose_ops(a, b));
        }
        loop
            invariant
                a == self@,
                b == other@,
                i <= self.changes@.len(),
                j <= other.changes@.len(),
                ops_view(out@) + compose_ops(rest(ha, a, i as int), rest(hb, b, j as int))
                    == compose_ops(a, b),
            ensures
                a == self@,
                b == other@,
                i <= self.changes@.len(),
                j <= other.changes@.len(),
                ops_view(out@) + (rest(ha, a, i as int) + rest(hb, b, j as int)) == compose_ops(a, b),
            decreases ops_size(rest(ha, a, i as int)) + ops_size(rest(hb, b, j as int)),
                (self.changes@.len() - i) + (other.changes@.len() - j),
        {
            broadcast use lemma_cons;

            if ha.is_none() && i < self.changes.len() {
                let o = copy_op(&self.changes[i]);
                proof {
                    lemma_rest_fetch(a, i as int, o);
                }
                ha = Some(o);
                i = i + 1;
            }
            if hb.is_none() && j < other.changes.len() {
                let o = copy_op(&other.changes[j]);
                proof {
                    lemma_rest_fetch(b, j as int, o);
                }
                hb = Some(o);
                j = j + 1;
            }
            let ghost ra = rest(ha, a, i as int);
            let ghost rb = rest(hb, b, j as int);
            let ghost before = ops_view(out@);
            proof {
                if ha is None {
                    assert(a.skip(i as int) =~= Seq::<Op>::empty());
                }
                if hb is None {
                    assert(b.skip(j as int) =~= Seq::<Op>::empty());
                }
            }
            match (ha, hb) {
                (Some(Operation::Delete(n)), h) => {
                    proof {
                        lemma_ops_view_push(out@, Operation::Delete(n));
                        lemma_push_cons(before, Op::Delete(n as nat), compose_ops(rest(None, a, i as int), rb));
                    }
                    out.push(Operation::Delete(n));
                    ha = None;
                    hb = h;
                },
                (h, Some(Operation::Insert(s))) => {
                    let ghost x = Operation::Insert(s)@;
                    proof {
                        lemma_push_cons(before, x, compose_ops(ra, rest(None, b, j as int)));
                    }
                    out.push(Operation::Insert(s));
                    proof {
                        assert(ops_view(out@) =~= before.push(x));
                    }
                    ha = h;
                    hb = None;
                },
                (Some(Operation::Retain(x)), Some(Operation::Retain(y))) => {
                    if x < y {
                        proof {
                            lemma_ops_view_push(out@, Operation::Retain(x));
                            lemma_push_cons(before, Op::Retain(x as nat), compose_ops(rest(None, a, i as int), rest(Some(Operation::Retain((y - x) as usize)), b, j as int)));
                        }
                        out.push(Operation::Retain(x));
                        ha = None;
                        hb = Some(Operation::Retain(y - x));
                    } else if x == y {
                        proof {
                            lemma_ops_view_push(out@, Operation::Retain(x));
                            lemma_push_cons(before, Op::Retain(x as nat), compose_ops(rest(None, a, i as int), rest(None, b, j as int)));
                        }
                        out.push(Operation::Retain(x));
                        ha = None;
                        hb = None;
                    } else {
                        proof {
                            lemma_ops_view_push(out@, Operation::Retain(y));
                            lemma_push_cons(before, Op::Retain(y as nat), compose_ops(rest(Some(Operation::Retain((x - y) as usize)), a, i as int), rest(None, b, j as int)));
                        }
                        out.push(Operation::Retain(y));
                        ha = Some(Operation::Retain(x - y));
                        hb = None;
                    }
                },
                (Some(Operation::Retain(x)), Some(Operation::Delete(y))) => {
                    if x < y {
                        proof {
                            lemma_ops_view_push(out@, Operation::Delete(x));
                            lemma_push_cons(before, Op::Delete(x as nat), compose_ops(rest(None, a, i as int), rest(Some(Operation::Delete((y - x) as usize)), b, j as int)));
                        }
                        out.push(Operation::Delete(x));
                        ha = None;
                        hb = Some(Operation::Delete(y - x));
                    } else if x == y {
                        proof {
                            lemma_ops_view_push(out@, Operation::Delete(x));
                            lemma_push_cons(before, Op::Delete(x as nat), compose_ops(rest(None, a, i as int), rest(None, b, j as int)));
                        }
                        out.push(Operation::Delete(x));
                        ha = None;
                        hb = None;
                    } else {
                        proof {
                            lemma_ops_view_push(out@, Operation::Delete(y));
                            lemma_push_cons(before, Op::Delete(y as nat), compose_ops(rest(Some(Operation::Retain((x - y) as usize)), a, i as int), rest(None, b, j as int)));
                        }
                        out.push(Operation::Delete(y));
                        ha = Some(Operation::Retain(x - y));
                        hb = None;
                    }
                },
                (Some(Operation::Insert(s)), Some(Operation::Retain(y))) => {
                    let len = s.len();
                    if len < y {
                        let ghost x = Operation::Insert(s)@;
                        proof {
                            lemma_push_cons(before, x, compose_ops(rest(None, a, i as int), rest(Some(Operation::Retain((y - len) as usize)), b, j as int)));
                        }
                        out.push(Operation::Insert(s));
                        proof {
                            assert(ops_view(out@) =~= before.push(x));
                        }
                        ha = None;
                        hb = Some(Operation::Retain(y - len));
                    } else if len == y {
                        let ghost x = Operation::Insert(s)@;
                        proof {
                            lemma_push_cons(before, x, compose_ops(rest(None, a, i as int), rest(None, b, j as int)));
                        }
                        out.push(Operation::Insert(s));
                        proof {
                            assert(ops_view(out@) =~= before.push(x));
                        }
                        ha = None;
                        hb = None;
                    } else {
                        let head = copy_chars(&s, 0, y);
                        let tail = copy_chars(&s, y, len);
                        proof {
                            assert(head@ =~= s@.take(y as int));
                            assert(tail@ =~= s@.skip(y as int));
                            lemma_ops_view_push(out@, Operation::Insert(head));
                        }
                        let ghost nh = Operation::Insert(tail);
                        proof {
                            lemma_push_cons(before, Op::Insert(head@), compose_ops(rest(Some(nh), a, i as int), rest(None, b, j as int)));
                        }
                        out.push(Operation::Insert(head));
                        ha = Some(Operation::Insert(tail));
                        hb = None;
                    }
                },
                (Some(Operation::Insert(s)), Some(Operation::Delete(y))) => {
                    let len = s.len();
                    if len < y {
                        ha = None;
                        hb = Some(Operation::Delete(y - len));
                    } else if len == y {
                        ha = None;
                        hb = None;
                    } else {
                        let tail = copy_chars(&s, y, len);
                        proof {
                            assert(tail@ =~= s@.skip(y as int));
                        }
                        ha = Some(Operation::Insert(tail));
                        hb = None;
                    }
                },
                (h1, h2) => {
                    ha = h1;
                    hb = h2;
                    proof {
                        assert(ha is None ==> ra =~= Seq::<Op>::empty());
                        assert(hb is None ==> rb =~= Seq::<Op>::empty());
                        assert(compose_ops(ra, rb) == ra + rb);
                    }
                    break;
                },
            }
        }
        let ghost ra = rest(ha, a, i as int);
        let ghost rb = rest(hb, b, j as int);
        let ghost target = compose_ops(a, b);
        proof {
            assert(ops_view(out@) + (ra + rb) == target);
        }
        match ha {
            Some(o) => {
                proof {
                    lemma_ops_view_push(out@, o);
                    assert(ops_view(out@).push(o@) + (rest(None, a, i as int) + rb) =~= ops_view(out@) + (ra + rb));
                }
                out.push(o);
            },
            None => {},
        }
        while i < self.changes.len()
            invariant
                a == self@,
                i <= self.changes@.len(),
                ops_view(out@) + (rest(None, a, i as int) + rb) == target,
            decreases self.changes@.len() - i,
        {
            let o = copy_op(&self.changes[i]);
            proof {
                lemma_skip_step(a, i as int);
                lemma_ops_view_push(out@, o);
                assert(ops_view(out@).push(o@) + (a.skip(i + 1) + rb) =~= ops_view(out@) + (a.skip(i as int) + rb));
            }
            out.push(o);
            i = i + 1;
        }
        proof {
            assert(a.skip(i as int) + rb =~= rb);
        }
        match hb {
            Some(o) => {
                proof {
                    lemma_ops_view_push(out@, o);
                    assert(ops_view(out@).push(o@) + rest(None, b, j as int) =~= ops_view(out@) + rb);
                }
                out.push(o);
            },
            None => {},
        }
        while j < other.changes.len()
            invariant
                b == other@,
                j <= other.changes@.len(),
                ops_view(out@) + rest(None, b, j as int) == target,
            decreases other.changes@.len() - j,
        {
            let o = copy_op(&other.changes[j]);
            proof {
                lemma_skip_step(b, j as int);
                lemma_ops_view_push(out@, o);
                assert(ops_view(out@).push(o@) + b.skip(j + 1) =~= ops_view(out@) + b.skip(j as int));
            }
            out.push(o);
            j = j + 1;
        }
        proof {
            assert(ops_view(out@) + b.skip(j as int) =~= ops_view(out@));
            lemma_compose_shape(a, b);
        }
        ChangeSet { changes: out, len: self.len, len_after: other.len_after }
    }
}

impl ChangeSet {
    /// The change set made of `changes`, which consume `len` characters
    /// and produce `len_after`.
    pub(crate) fn from_ops(changes: Vec<Operation>, len: usize, len_after: usize) -> (r: ChangeSet)
        requires
            ops_wf(ops_view(changes@)),
            len_before(ops_view(changes@)) == len,
            crate::changeset::len_after(ops_view(changes@)) == len_after,
        ensures
            r.wf(),
            r@ == ops_view(changes@),
            r.len_spec() == len,
            r.len_after_spec() == len_after,
    {
        ChangeSet { changes, len, len_after }
    }

    /// An independent copy.
    pub fn snapshot(&self) -> (r: ChangeSet)
        ensures
            r@ == self@,
            r.len_spec() == self.len_spec(),
            r.len_after_spec() == self.len_after_spec(),
    {
        let mut out: Vec<Operation> = Vec::new();
        let mut k: usize = 0;
        while k < self.changes.len()
            invariant
                k <= self.changes@.len(),
                ops_view(out@) == self@.take(k as int),
            decreases self.changes@.len() - k,
        {
            let o = copy_op(&self.changes[k]);
            proof {
                lemma_ops_view_push(out@, o);
            }
            out.push(o);
            k = k + 1;
            assert(ops_view(out@) =~= self@.take(k as int));
        }
        assert(self@.take(k as int) =~= self@);
        ChangeSet { changes: out, len: self.len, len_after: self.len_after }
    }
}

/// Composing an identity with a change set that does something yields a
/// change set that does something.
pub proof fn lemma_compose_identity_left(a: Seq<Op>, b: Seq<Op>)
    requires
        is_identity(a),
        !is_identity(b),
    ensures
        !is_identity(compose_ops(a, b)),
    decreases ops_size(a) + ops_size(b),
{
    broadcast use lemma_cons;

    if a.len() > 0 {
        assert(a[0] is Retain);
    }
    if b.len() > 0 && b[0] is Insert {
        assert(!(compose_ops(a, b)[0] is Retain));
    } else if a.len() == 0 || b.len() == 0 {
        assert(a + b =~= b);
    } else {
        let ra = a.drop_first();
        let rb = b.drop_first();
        assert(is_identity(ra)) by {
            assert forall|k: int| 0 <= k < ra.len() implies (#[trigger] ra[k]) is Retain by {
                assert(ra[k] == a[k + 1]);
            }
        }
        let i = a[0]->Retain_0;
        match b[0] {
            Op::Retain(j) => {
                assert(!is_identity(rb)) by {
                    let k = choose|k: int| 0 <= k < b.len() && !(#[trigger] b[k] is Retain);
                    assert(rb[k - 1] == b[k]);
                }
                if i < j {
                    let nb = cons(Op::Retain((j - i) as nat), rb);
                    lemma_size_cons(Op::Retain((j - i) as nat), rb);
                    assert(!is_identity(nb)) by {
                        let k = choose|k: int| 0 <= k < rb.len() && !(#[trigger] rb[k] is Retain);
                        assert(nb[k + 1] == rb[k]);
                    }
                    lemma_compose_identity_left(ra, nb);
                    let c = compose_ops(ra, nb);
                    let k = choose|k: int| 0 <= k < c.len() && !(#[trigger] c[k] is Retain);
                    assert(compose_ops(a, b)[k + 1] == c[k]);
                } else if i == j {
                    lemma_compose_identity_left(ra, rb);
                    let c = compose_ops(ra, rb);
                    let k = choose|k: int| 0 <= k < c.len() && !(#[trigger] c[k] is Retain);
                    assert(compose_ops(a, b)[k + 1] == c[k]);
                } else {
                    let na = cons(Op::Retain((i - j) as nat), ra);
                    lemma_size_cons(Op::Retain((i - j) as nat), ra);
                    assert(is_identity(na)) by {
                        assert forall|k: int| 0 <= k < na.len() implies (#[trigger] na[k]) is Retain by {
                            if k > 0 {
                                assert(na[k] == ra[k - 1]);
                            }
                        }
                    }
                    lemma_compose_identity_left(na, rb);
                    let c = compose_ops(na, rb);
                    let k = choose|k: int| 0 <= k < c.len() && !(#[trigger] c[k] is Retain);
                    assert(compose_ops(a, b)[k + 1] == c[k]);
                }
            },
            _ => {
                assert(!(compose_ops(a, b)[0] is Retain));
            },
        }
    }
}

/// A change set that only retains produces as many characters as it consumes.
pub proof fn lemma_identity_len(ops: Seq<Op>)
    requires
        is_identity(ops),
    ensures
        len_after(ops) == len_before(ops),
    decreases ops.len(),
{
    if ops.len() > 0 {
        assert(is_identity(ops.drop_first())) by {
            assert forall|k: int| 0 <= k < ops.drop_first().len() implies (#[trigger] ops.drop_first()[k]) is Retain by {
                assert(ops.drop_first()[k] == ops[k + 1]);
            }
        }
        assert(ops[0] is Retain);
        lemma_identity_len(ops.drop_first());
    }
}

/// A change set that only retains leaves the text as it is.
pub proof fn lemma_identity_apply(ops: Seq<Op>, t: Seq<char>)
    requires
        is_identity(ops),
        t.len() == len_before(ops),
    ensures
        apply_ops(ops, t) == t,
        len_after(ops) == len_before(ops),
    decreases ops.len(),
{
    if ops.len() > 0 {
        let n = op_old_len(ops[0]) as int;
        assert(is_identity(ops.drop_first())) by {
            assert forall|k: int| 0 <= k < ops.drop_first().len() implies (#[trigger] ops.drop_first()[k]) is Retain by {
                assert(ops.drop_first()[k] == ops[k + 1]);
            }
        }
        assert(ops[0] is Retain);
        lemma_identity_apply(ops.drop_first(), t.skip(n));
        assert(t.take(n) + t.skip(n) =~= t);
    } else {
        assert(t =~= Seq::<char>::empty());
    }
}

/// Mapping a position through the composition of two change sets lands it
/// exactly where mapping it through the first and then the second does, for
/// positions that stick to what precedes them.
pub proof fn compose_maps_as_sequence(first: ChangeSet, second: ChangeSet, pos: nat)
    requires
        first.wf(),
        second.wf(),
        first.len_after_spec() == second.len_spec(),
        pos <= first.len_spec(),
    ensures
        map_ops(compose_ops(first@, second@), pos, Assoc::Before) == map_ops(
            second@,
            map_ops(first@, pos, Assoc::Before),
            Assoc::Before,
        ),
{
    lemma_compose_map(first@, second@, pos, Assoc::Before);
}

/// Running the composition of two change sets over a text gives what running
/// the first and then the second gives.
pub proof fn compose_applies_as_sequence(first: ChangeSet, second: ChangeSet, t: Seq<char>)
    requires
        first.wf(),
        second.wf(),
        first.len_after_spec() == second.len_spec(),
        t.len() == first.len_spec(),
    ensures
        apply_ops(compose_ops(first@, second@), t) == apply_ops(second@, apply_ops(first@, t)),
{
    lemma_compose_apply(first@, second@, t);
}

/// Composition is associative in what it does to a text.
pub proof fn compose_associative(a: ChangeSet, b: ChangeSet, c: ChangeSet, t: Seq<char>)
    requires
        a.wf(),
        b.wf(),
        c.wf(),
        a.len_after_spec() == b.len_spec(),
        b.len_after_spec() == c.len_spec(),
        t.len() == a.len_spec(),
    ensures
        apply_ops(compose_ops(compose_ops(a@, b@), c@), t) == apply_ops(
            compose_ops(a@, compose_ops(b@, c@)),
            t,
        ),
{
    lemma_compose_shape(a@, b@);
    lemma_compose_shape(b@, c@);
    lemma_compose_apply(compose_ops(a@, b@), c@, t);
    lemma_compose_apply(a@, b@, t);
    lemma_compose_apply(a@, compose_ops(b@, c@), t);
    lemma_apply_len(a@, t);
    lemma_compose_apply(b@, c@, apply_ops(a@, t));
}

/// A change set that only retains composes, on either side, as an identity.
pub proof fn identity_composes_as_identity(id: ChangeSet, c: ChangeSet, t: Seq<char>)
    requires
        id.wf(),
        c.wf(),
        is_identity(id@),
        t.len() == c.len_spec(),
    ensures
        id.len_spec() == c.len_spec() ==> apply_ops(compose_ops(id@, c@), t) == apply_ops(c@, t),
        id.len_spec() == c.len_after_spec() ==> apply_ops(compose_ops(c@, id@), t) == apply_ops(c@, t),
{
    lemma_identity_len(id@);
    if id.len_spec() == c.len_spec() {
        lemma_compose_apply(id@, c@, t);
        lemma_identity_apply(id@, t);
    }
    if id.len_spec() == c.len_after_spec() {
        lemma_compose_apply(c@, id@, t);
        lemma_apply_len(c@, t);
        lemma_identity_apply(id@, apply_ops(c@, t));
    }
}

/// Applying a change set to a text and then its inverse over that text
/// gives the text back.
pub proof fn invert_round_trip(changes: ChangeSet, t: Seq<char>)
    requires
        changes.wf(),
        t.len() == changes.len_spec(),
    ensures
        apply_ops(invert_ops(changes@, t), apply_ops(changes@, t)) == t,
{
    lemma_invert(changes@, t);
}

/// A change set that only retains.
pub open spec fn is_identity(ops: Seq<Op>) -> bool {
    forall|k: int| 0 <= k < ops.len() ==> (#[trigger] ops[k]) is Retain
}

} // verus!
