use vstd::prelude::*;

use crate::changeset::{len_before, ChangeSet, Op, Operation, ops_view};
use crate::text::{copy_chars, Text};

verus! {

/// A place in a text as the language-analysis protocol counts it: a
/// 0-based line and, within it, the number of UTF-16 code units before it.
#[derive(Clone, Copy, PartialEq, Eq, Debug, Structural)]
pub struct Position {
    pub line: usize,
    pub character: usize,
}

/// One content change of a change notification: the span `start..end` of
/// the text before the edit is replaced by `text`.
#[derive(PartialEq, Eq, Debug)]
pub struct ChangeEvent {
    pub start: Position,
    pub end: Position,
    pub text: Vec<char>,
}

pub struct ChangeEventModel {
    pub start: (nat, nat),
    pub end: (nat, nat),
    pub text: Seq<char>,
}

impl View for ChangeEvent {
    type V = ChangeEventModel;

    open spec fn view(&self) -> ChangeEventModel {
        ChangeEventModel {
            start: (self.start.line as nat, self.start.character as nat),
            end: (self.end.line as nat, self.end.character as nat),
            text: self.text@,
        }
    }
}

/// UTF-16 code units that encode `c`.
pub open spec fn utf16_width(c: char) -> nat {
    if (c as u32) > 0xFFFF {
        2
    } else {
        1
    }
}

/// Line and UTF-16 column of character offset `pos` of `t`; lines end at `'\n'`.
pub open spec fn lsp_pos(t: Seq<char>, pos: nat) -> (nat, nat)
    decreases pos,
{
    if pos == 0 {
        (0, 0)
    } else {
        let prev = lsp_pos(t, (pos - 1) as nat);
        if t[pos - 1] == '\n' {
            (prev.0 + 1, 0)
        } else {
            (prev.0, prev.1 + utf16_width(t[pos - 1]))
        }
    }
}

pub open spec fn event_of(t: Seq<char>, start: nat, end: nat, text: Seq<char>) -> ChangeEventModel {
    ChangeEventModel { start: lsp_pos(t, start), end: lsp_pos(t, end), text }
}

/// The content changes that describe `ops`, walked from offset `pos` of the
/// text `t` they apply to. A deletion directly followed by an insertion is
/// one replacement; every position is one of `t`.
pub open spec fn events_of(ops: Seq<Op>, t: Seq<char>, pos: nat) -> Seq<ChangeEventModel>
    decreases ops.len(),
{
    if ops.len() == 0 {
        seq![]
    } else {
        match ops[0] {
            Op::Retain(n) => events_of(ops.drop_first(), t, pos + n),
            Op::Delete(n) => if ops.len() > 1 && ops[1] is Insert {
                seq![event_of(t, pos, pos + n, ops[1]->Insert_0)] + events_of(
                    ops.drop_first().drop_first(),
                    t,
                    pos + n,
                )
            } else {
                seq![event_of(t, pos, pos + n, seq![])] + events_of(ops.drop_first(), t, pos + n)
            },
            Op::Insert(s) => seq![event_of(t, pos, pos, s)] + events_of(ops.drop_first(), t, pos),
        }
    }
}

proof fn lemma_lsp_pos_bound(t: Seq<char>, pos: nat)
    ensures
        lsp_pos(t, pos).0 <= pos,
        lsp_pos(t, pos).1 <= 2 * pos,
    decreases pos,
{
    if pos > 0 {
        lemma_lsp_pos_bound(t, (pos - 1) as nat);
    }
}

/// The protocol position of offset `pos` of `text`.
pub fn pos_to_lsp_pos(text: &Text, pos: usize) -> (r: Position)
    requires
        pos <= text@.len(),
        2 * text@.len() <= usize::MAX,
    ensures
        (r.line as nat, r.character as nat) == lsp_pos(text@, pos as nat),
{
    let mut line: usize = 0;
    let mut col: usize = 0;
    let mut k: usize = 0;
    while k < pos
        invariant
            k <= pos <= text@.len(),
            2 * text@.len() <= usize::MAX,
            (line as nat, col as nat) == lsp_pos(text@, k as nat),
        decreases pos - k,
    {
        proof {
            lemma_lsp_pos_bound(text@, k as nat);
        }
        let c = text.char_at(k);
        if c == '\n' {
            line = line + 1;
            col = 0;
        } else if (c as u32) > 0xFFFF {
            col = col + 2;
        } else {
            col = col + 1;
        }
        k = k + 1;
    }
    Position { line, character: col }
}

proof fn lemma_events_push(o: Seq<ChangeEventModel>, e: ChangeEventModel, c: Seq<ChangeEventModel>)
    ensures
        o.push(e) + c == o + (seq![e] + c),
{
    assert(o.push(e) + c =~= o + (seq![e] + c));
}

/// The content-change events that tell the language-analysis collaborator
/// about `changes`, made for `old_text`.
pub fn changeset_to_changes(old_text: &Text, changes: &ChangeSet) -> (r: Vec<ChangeEvent>)
    requires
        changes.wf(),
        changes.len_spec() == old_text@.len(),
        2 * old_text@.len() <= usize::MAX,
    ensures
        r@.map_values(|e: ChangeEvent| e@) == events_of(changes@, old_text@, 0),
{
    let ops = changes.changes();
    let ghost o = changes@;
    let ghost t = old_text@;
    let mut out: Vec<ChangeEvent> = Vec::new();
    let mut pos: usize = 0;
    let mut k: usize = 0;
    proof {
        assert(o.skip(0) =~= o);
        assert(out@.map_values(|e: ChangeEvent| e@) + events_of(o, t, 0) =~= events_of(o, t, 0));
    }
    while k < ops.len()
        invariant
            ops_view(ops@) == o,
            o == changes@,
            t == old_text@,
            t.len() == len_before(o),
            2 * t.len() <= usize::MAX,
            k <= ops@.len(),
            pos + len_before(o.skip(k as int)) == t.len(),
            out@.map_values(|e: ChangeEvent| e@) + events_of(o.skip(k as int), t, pos as nat)
                == events_of(o, t, 0),
        decreases ops@.len() - k,
    {
        let ghost before = out@.map_values(|e: ChangeEvent| e@);
        let ghost rest = o.skip(k as int);
        proof {
            assert(rest[0] == o[k as int]);
            assert(rest.drop_first() =~= o.skip(k + 1));
        }
        match &ops[k] {
            Operation::Retain(n) => {
                pos = pos + *n;
                k = k + 1;
            },
            Operation::Delete(n) => {
                let start = pos_to_lsp_pos(old_text, pos);
                let end = pos_to_lsp_pos(old_text, pos + *n);
                let mut text: Vec<char> = Vec::new();
                let mut skip: usize = 1;
                if k + 1 < ops.len() {
                    proof {
                        assert(rest[1] == o[k + 1]);
                        assert(rest.drop_first().drop_first() =~= o.skip(k + 2));
                        assert(o.skip(k + 1)[0] == o[k + 1]);
                        assert(o.skip(k + 1).drop_first() =~= o.skip(k + 2));
                    }
                    match &ops[k + 1] {
                        Operation::Insert(s) => {
                            text = copy_chars(s, 0, s.len());
                            assert(text@ =~= s@);
                            assert(o[k + 1] == ops@[k + 1]@);
                            assert(len_before(o.skip(k + 1)) == len_before(o.skip(k + 2)));
                            skip = 2;
                        },
                        _ => {},
                    }
                }
                let ev = ChangeEvent { start, end, text };
                proof {
                    lemma_events_push(before, ev@, events_of(o.skip(k + skip), t, (pos + *n) as nat));
                    assert(out@.push(ev).map_values(|e: ChangeEvent| e@) =~= before.push(ev@));
                }
                out.push(ev);
                pos = pos + *n;
                k = k + skip;
            },
            Operation::Insert(s) => {
                let start = pos_to_lsp_pos(old_text, pos);
                let text = copy_chars(s, 0, s.len());
                assert(text@ =~= s@);
                let ev = ChangeEvent { start, end: start, text };
                proof {
                    lemma_events_push(before, ev@, events_of(o.skip(k + 1), t, pos as nat));
                    assert(out@.push(ev).map_values(|e: ChangeEvent| e@) =~= before.push(ev@));
                }
                out.push(ev);
                k = k + 1;
            },
        }
    }
    proof {
        assert(o.skip(k as int) =~= Seq::<Op>::empty());
        assert(out@.map_values(|e: ChangeEvent| e@) + Seq::<ChangeEventModel>::empty() =~= out@.map_values(|e: ChangeEvent| e@));
    }
    out
}

} // verus!
