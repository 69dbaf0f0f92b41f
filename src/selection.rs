use vstd::prelude::*;

use crate::changeset::{map_ops, Assoc, ChangeSet};

verus! {

/// A cursor or a selected span: `anchor` stays put while `head` moves.
#[derive(Clone, Copy, PartialEq, Eq, Debug, Structural)]
pub struct Range {
    pub anchor: usize,
    pub head: usize,
}

/// Where a range lands after a change: both ends move as positions that
/// stick to what follows them.
pub open spec fn map_range(r: Range, ops: Seq<crate::changeset::Op>) -> Range {
    Range {
        anchor: map_ops(ops, r.anchor as nat, Assoc::After) as usize,
        head: map_ops(ops, r.head as nat, Assoc::After) as usize,
    }
}

impl Range {
    pub fn new(anchor: usize, head: usize) -> (r: Range)
        ensures
            r.anchor == anchor,
            r.head == head,
    {
        Range { anchor, head }
    }

    /// The smaller end.
    pub fn from(&self) -> (r: usize)
        ensures
            r == if self.anchor <= self.head { self.anchor } else { self.head },
    {
        if self.anchor <= self.head {
            self.anchor
        } else {
            self.head
        }
    }

    /// The larger end.
    pub fn to(&self) -> (r: usize)
        ensures
            r == if self.anchor <= self.head { self.head } else { self.anchor },
    {
        if self.anchor <= self.head {
            self.head
        } else {
            self.anchor
        }
    }

    pub open spec fn within(&self, len: nat) -> bool {
        self.anchor <= len && self.head <= len
    }

    /// The range moved through `changes`.
    pub fn map(&self, changes: &ChangeSet) -> (r: Range)
        requires
            changes.wf(),
            self.within(changes.len_spec()),
        ensures
            r == map_range(*self, changes@),
            r.within(changes.len_after_spec()),
    {
        Range {
            anchor: changes.map_pos(self.anchor, Assoc::After),
            head: changes.map_pos(self.head, Assoc::After),
        }
    }
}

/// What a selection is: its ranges and which of them is the primary one.
pub struct SelectionModel {
    pub ranges: Seq<Range>,
    pub primary_index: nat,
}

pub open spec fn map_selection(s: SelectionModel, ops: Seq<crate::changeset::Op>) -> SelectionModel {
    SelectionModel {
        ranges: s.ranges.map_values(|r: Range| map_range(r, ops)),
        primary_index: s.primary_index,
    }
}

/// Ranges over one text, in order; never empty.
pub struct Selection {
    ranges: Vec<Range>,
    primary_index: usize,
}

impl View for Selection {
    type V = SelectionModel;

    closed spec fn view(&self) -> SelectionModel {
        SelectionModel { ranges: self.ranges@, primary_index: self.primary_index as nat }
    }
}

impl Selection {
    /// At least one range, and the primary one among them.
    pub open spec fn wf(&self) -> bool {
        self@.ranges.len() > 0 && self@.primary_index < self@.ranges.len()
    }

    /// Every range lies in a text of `len` characters.
    pub open spec fn within(&self, len: nat) -> bool {
        forall|k: int| 0 <= k < self@.ranges.len() ==> (#[trigger] self@.ranges[k]).within(len)
    }

    /// One range from `anchor` to `head`.
    pub fn single(anchor: usize, head: usize) -> (r: Selection)
        ensures
            r.wf(),
            r@.ranges == seq![Range { anchor, head }],
            r@.primary_index == 0,
    {
        let mut ranges: Vec<Range> = Vec::new();
        ranges.push(Range { anchor, head });
        let r = Selection { ranges, primary_index: 0 };
        assert(r@.ranges =~= seq![Range { anchor, head }]);
        r
    }

    /// A selection of the given ranges, `primary_index` naming the primary one.
    pub fn new(ranges: Vec<Range>, primary_index: usize) -> (r: Selection)
        requires
            ranges@.len() > 0,
            primary_index < ranges@.len(),
        ensures
            r.wf(),
            r@.ranges == ranges@,
            r@.primary_index == primary_index,
    {
        Selection { ranges, primary_index }
    }

    pub fn ranges(&self) -> (r: &Vec<Range>)
        ensures
            r@ == self@.ranges,
    {
        &self.ranges
    }

    pub fn primary_index(&self) -> (r: usize)
        ensures
            r == self@.primary_index,
    {
        self.primary_index
    }

    pub fn primary(&self) -> (r: Range)
        requires
            self.wf(),
        ensures
            r == self@.ranges[self@.primary_index as int],
    {
        self.ranges[self.primary_index]
    }

    /// An independent copy.
    pub fn snapshot(&self) -> (r: Selection)
        ensures
            r@ == self@,
    {
        let mut ranges: Vec<Range> = Vec::new();
        let mut k: usize = 0;
        while k < self.ranges.len()
            invariant
                k <= self.ranges@.len(),
                ranges@ == self.ranges@.take(k as int),
            decreases self.ranges@.len() - k,
        {
            ranges.push(self.ranges[k]);
            k = k + 1;
            assert(ranges@ =~= self.ranges@.take(k as int));
        }
        assert(ranges@ =~= self.ranges@);
        Selection { ranges, primary_index: self.primary_index }
    }

    /// Every range moved through `changes`.
    pub fn map(&self, changes: &ChangeSet) -> (r: Selection)
        requires
            changes.wf(),
            self.within(changes.len_spec()),
        ensures
            r@ == map_selection(self@, changes@),
            r.within(changes.len_after_spec()),
    {
        let mut ranges: Vec<Range> = Vec::new();
        let mut k: usize = 0;
        while k < self.ranges.len()
            invariant
                changes.wf(),
                self.within(changes.len_spec()),
                k <= self.ranges@.len(),
                ranges@ == self.ranges@.take(k as int).map_values(|r: Range| map_range(r, changes@)),
                forall|m: int| 0 <= m < k ==> (#[trigger] ranges@[m]).within(changes.len_after_spec()),
            decreases self.ranges@.len() - k,
        {
            assert(self@.ranges[k as int].within(changes.len_spec()));
            ranges.push(self.ranges[k].map(changes));
            k = k + 1;
            assert(ranges@ =~= self.ranges@.take(k as int).map_values(|r: Range| map_range(r, changes@)));
        }
        assert(self.ranges@.take(k as int) =~= self.ranges@);
        let r = Selection { ranges, primary_index: self.primary_index };
        assert(r@ =~= map_selection(self@, changes@));
        r
    }
}

} // verus!
