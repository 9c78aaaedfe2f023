//! The domain of a bridge: which link counts (none, one or two) are still possible.
use vstd::prelude::*;
use crate::text::{decimal, u32_to_decimal, concat3, concat5};

verus! {

/// The link counts 0, 1 and 2 that a bridge may still take; `true` means still possible.
/// The possible counts always form a non-empty run.
pub type Domain = [bool; 3];

/// The text of the error for linking `n` slots in a bridge with no open slot.
pub open spec fn link_full_text(n: nat) -> Seq<char> {
    "attempted to link "@ + decimal(n) + " slots in a full bridge"@
}

/// The text of the error for linking `n` slots in a bridge with `open` open slots.
pub open spec fn link_short_text(n: nat, open: nat) -> Seq<char> {
    "attempted to link "@ + decimal(n) + " slots in bridge with "@ + decimal(open) + " open slots"@
}

/// The text of the error for closing `n` slots in a bridge with no open slot.
pub open spec fn close_full_text(n: nat) -> Seq<char> {
    "attempted to close "@ + decimal(n) + " slots in a full bridge"@
}

/// The text of the error for closing `n` slots in a bridge with `open` open slots.
pub open spec fn close_short_text(n: nat, open: nat) -> Seq<char> {
    "attempted to close "@ + decimal(n) + " slots in bridge with "@ + decimal(open) + " open slots"@
}

/// A domain of link counts. Its slots are linked from the bottom (raising the least
/// possible count) and closed from the top (lowering the greatest possible count);
/// the slots in between are open.
pub trait HashiDomain: Sized {
    /// The value is a valid domain.
    spec fn wf(&self) -> bool;

    /// The number of slots: the greatest link count the domain can express.
    spec fn slots(&self) -> nat;

    /// The number of linked slots: the least count still possible.
    spec fn linked(&self) -> nat;

    /// The number of closed slots: how far the greatest possible count is below `slots`.
    spec fn closed(&self) -> nat;

    /// The slots that are neither linked nor closed.
    open spec fn open_slots(&self) -> int {
        self.slots() - self.linked() - self.closed()
    }

    /// In a valid domain the linked and closed slots do not overlap.
    proof fn lemma_counts(&self)
        requires
            self.wf(),
        ensures
            self.linked() + self.closed() <= self.slots(),
            self.slots() <= u32::MAX,
    ;

    /// A domain with every count possible.
    fn new() -> (d: Self)
        ensures
            d.wf(),
            d.linked() == 0,
            d.closed() == 0,
    ;

    /// The number of slots.
    fn num_slots(&self) -> (r: u32)
        ensures
            r == self.slots(),
    ;

    /// The number of open slots.
    fn num_open_slots(&self) -> (r: u32)
        requires
            self.wf(),
        ensures
            r == self.open_slots(),
    ;

    /// The number of closed slots.
    fn num_closed_slots(&self) -> (r: u32)
        requires
            self.wf(),
        ensures
            r == self.closed(),
    ;

    /// The number of linked slots.
    fn num_linked_slots(&self) -> (r: u32)
        requires
            self.wf(),
        ensures
            r == self.linked(),
    ;

    /// Links `n` more slots. Linking none always succeeds; linking more than are
    /// open fails and leaves the domain as it was.
    fn link_slots(&mut self, n: u32) -> (r: Result<(), String>)
        requires
            old(self).wf(),
        ensures
            final(self).wf(),
            final(self).slots() == old(self).slots(),
            r is Ok <==> (n == 0 || n <= old(self).open_slots()),
            r is Ok ==> final(self).linked() == old(self).linked() + n
                && final(self).closed() == old(self).closed(),
            r is Err ==> *final(self) == *old(self),
            r matches Err(m) ==> m@ == (if old(self).open_slots() == 0 {
                link_full_text(n as nat)
            } else {
                link_short_text(n as nat, old(self).open_slots() as nat)
            }),
    ;

    /// Closes `n` more slots. Closing none always succeeds; closing more than are
    /// open fails and leaves the domain as it was.
    fn close_slots(&mut self, n: u32) -> (r: Result<(), String>)
        requires
            old(self).wf(),
        ensures
            final(self).wf(),
            final(self).slots() == old(self).slots(),
            r is Ok <==> (n == 0 || n <= old(self).open_slots()),
            r is Ok ==> final(self).closed() == old(self).closed() + n
                && final(self).linked() == old(self).linked(),
            r is Err ==> *final(self) == *old(self),
            r matches Err(m) ==> m@ == (if old(self).open_slots() == 0 {
                close_full_text(n as nat)
            } else {
                close_short_text(n as nat, old(self).open_slots() as nat)
            }),
    ;
}

/// A three-cell domain is valid when its possible counts form a non-empty run.
pub open spec fn cells_wf(d: Seq<bool>) -> bool {
    &&& d.len() == 3
    &&& (d[0] || d[1] || d[2])
    &&& !(d[0] && !d[1] && d[2])
}

/// The least possible count: the first cell still `true`.
pub open spec fn cells_linked(d: Seq<bool>) -> nat {
    if d[0] {
        0
    } else if d[1] {
        1
    } else {
        2
    }
}

/// How far the greatest possible count lies below two: from the last cell still `true`.
pub open spec fn cells_closed(d: Seq<bool>) -> nat {
    if d[2] {
        0
    } else if d[1] {
        1
    } else {
        2
    }
}

/// The number of `true` cells among the first `i`.
pub open spec fn count_true(d: Seq<bool>, i: int) -> nat
    decreases i,
{
    if i <= 0 {
        0
    } else {
        count_true(d, i - 1) + (if d[i - 1] { 1nat } else { 0nat })
    }
}

impl HashiDomain for [bool; 3] {
    open spec fn wf(&self) -> bool {
        cells_wf(self@)
    }

    open spec fn slots(&self) -> nat {
        2
    }

    open spec fn linked(&self) -> nat {
        cells_linked(self@)
    }

    open spec fn closed(&self) -> nat {
        cells_closed(self@)
    }

    proof fn lemma_counts(&self) {
    }

    fn new() -> (d: Self)
        ensures
            d@ == seq![true, true, true],
    {
        [true, true, true]
    }

    fn num_slots(&self) -> (r: u32) {
        2
    }

    fn num_open_slots(&self) -> (r: u32) {
        let mut count: u32 = 0;
        let mut i: usize = 0;
        while i < 3
            invariant
                cells_wf(self@),
                i <= 3,
                count == count_true(self@, i as int),
                count <= i,
            decreases 3 - i,
        {
            if self[i] {
                count = count + 1;
            }
            i = i + 1;
        }
        proof {
            reveal_with_fuel(count_true, 4);
        }
        count - 1
    }

    fn num_closed_slots(&self) -> (r: u32) {
        let mut i: usize = 2;
        while !self[i]
            invariant
                cells_wf(self@),
                0 <= i <= 2,
                forall|k: int| i < k < 3 ==> !self@[k],
            decreases i,
        {
            i = i - 1;
        }
        2 - (i as u32)
    }

    fn num_linked_slots(&self) -> (r: u32) {
        let mut i: usize = 0;
        while !self[i]
            invariant
                cells_wf(self@),
                0 <= i <= 2,
                forall|k: int| 0 <= k < i ==> !self@[k],
            decreases 2 - i,
        {
            i = i + 1;
        }
        i as u32
    }

    fn link_slots(&mut self, n: u32) -> (r: Result<(), String>) {
        let open_slots = self.num_open_slots();
        if n == 0 {
            return Ok(());
        }
        if open_slots == 0 {
            return Err(concat3("attempted to link ", &u32_to_decimal(n), " slots in a full bridge"));
        }
        if open_slots < n {
            return Err(
                concat5(
                    "attempted to link ",
                    &u32_to_decimal(n),
                    " slots in bridge with ",
                    &u32_to_decimal(open_slots),
                    " open slots",
                ),
            );
        }
        let curr_min = self.num_linked_slots() as usize;
        let end = curr_min + n as usize;
        let ghost before = self@;
        let mut i = curr_min;
        while i < end
            invariant
                curr_min <= i <= end <= 3,
                self@.len() == 3,
                forall|k: int| 0 <= k < 3 ==> self@[k] == (if curr_min <= k < i { false } else { before[k] }),
            decreases end - i,
        {
            self[i] = false;
            i = i + 1;
        }
        Ok(())
    }

    fn close_slots(&mut self, n: u32) -> (r: Result<(), String>) {
        let open_slots = self.num_open_slots();
        if n == 0 {
            return Ok(());
        }
        if open_slots == 0 {
            return Err(concat3("attempted to close ", &u32_to_decimal(n), " slots in a full bridge"));
        }
        if open_slots < n {
            return Err(
                concat5(
                    "attempted to close ",
                    &u32_to_decimal(n),
                    " slots in bridge with ",
                    &u32_to_decimal(open_slots),
                    " open slots",
                ),
            );
        }
        let curr_max = 2 - self.num_closed_slots() as usize;
        let start = curr_max + 1 - n as usize;
        let ghost before = self@;
        let mut i = start;
        while i < curr_max + 1
            invariant
                start <= i <= curr_max + 1 <= 3,
                self@.len() == 3,
                forall|k: int| 0 <= k < 3 ==> self@[k] == (if start <= k < i { false } else { before[k] }),
            decreases curr_max + 1 - i,
        {
            self[i] = false;
            i = i + 1;
        }
        Ok(())
    }
}


/// A valid three-cell domain is the run of counts from its linked slots up to two less
/// its closed slots.
pub proof fn lemma_cells_run(d: [bool; 3])
    requires
        d.wf(),
    ensures
        forall|i: int| 0 <= i < 3 ==> #[trigger] d@[i] == (d.linked() <= i && i <= 2 - d.closed()),
{
}


/// Two valid three-cell domains with the same linked and closed slots are the same.
pub proof fn lemma_domain_by_counts(d1: [bool; 3], d2: [bool; 3])
    requires
        d1.wf(),
        d2.wf(),
        d1.linked() == d2.linked(),
        d1.closed() == d2.closed(),
    ensures
        d1@ == d2@,
{
    lemma_cells_run(d1);
    lemma_cells_run(d2);
    assert(d1@ =~= d2@);
}

} // verus!
