//! The stack's overflow table and the visible stack window around it.
//!
//! The operand stack shows a fixed window of [`STACK_TOP_SIZE`] slots. A
//! push shifts the window right and moves the bottom slot into the overflow
//! table as a new row `(clock, value, parent address)`, where the parent
//! address links to the previous head of the table (or the zero sentinel).
//! A pop shifts the window left and, when the overflow table is not empty,
//! moves its head row back into the window. The rows so added and removed
//! are exactly what the auxiliary column builder later folds into a
//! randomized running product.

use crate::errors::ExecutionError;
use crate::field::{f_add, f_mul, felt_vals, Felt};
use vstd::prelude::*;

verus! {

/// Number of stack slots the visible window holds.
pub const STACK_TOP_SIZE: usize = 16;

/// One row of the overflow table: the cycle at which the value moved in
/// (which doubles as the row's address), the value itself, and the address
/// of the row that was the table's head before it.
#[derive(Clone, Copy, Debug)]
pub struct OverflowTableRow {
    clk: Felt,
    val: Felt,
    prev: Felt,
}

/// The randomized encoding of a row: a fixed linear combination of its
/// three fields with the first four challenge values.
pub open spec fn row_value(clk: int, val: int, prev: int, alphas: Seq<int>) -> int {
    f_add(
        alphas[0],
        f_add(f_mul(alphas[1], clk), f_add(f_mul(alphas[2], val), f_mul(alphas[3], prev))),
    )
}

/// The randomized encoding of a row, from the row itself.
pub open spec fn row_value_of(r: OverflowTableRow, alphas: Seq<int>) -> int {
    row_value(r.clk_val(), r.val_val(), r.prev_val(), alphas)
}

impl OverflowTableRow {
    /// The cycle at which the row was added; also its address.
    pub closed spec fn clk_val(self) -> int {
        self.clk.val()
    }

    /// The stack value the row stores.
    pub closed spec fn val_val(self) -> int {
        self.val.val()
    }

    /// The address of the row below this one in the implicit linked list.
    pub closed spec fn prev_val(self) -> int {
        self.prev.val()
    }

    /// A row from its three fields.
    pub fn new(clk: Felt, val: Felt, prev: Felt) -> (r: OverflowTableRow)
        ensures
            r.clk_val() == clk.val(),
            r.val_val() == val.val(),
            r.prev_val() == prev.val(),
    {
        OverflowTableRow { clk, val, prev }
    }

    /// Reduces the row to one field element using the challenge values.
    pub fn to_value(&self, alphas: &Vec<Felt>) -> (r: Felt)
        requires
            alphas@.len() >= 4,
        ensures
            r.val() == row_value_of(*self, felt_vals(alphas@)),
    {
        let a1 = alphas[1].mul(self.clk);
        let a2 = alphas[2].mul(self.val);
        let a3 = alphas[3].mul(self.prev);
        alphas[0].add(a1.add(a2.add(a3)))
    }
}

/// The overflow table itself: the live rows plus the record of every row
/// that ever entered, which the auxiliary column builder consumes.
pub struct OverflowTable {
    active: Vec<OverflowTableRow>,
    all_rows: Vec<OverflowTableRow>,
}

impl OverflowTable {
    /// The live rows, oldest first.
    pub closed spec fn active_view(self) -> Seq<OverflowTableRow> {
        self.active@
    }

    /// Every row ever added, in order of addition.
    pub closed spec fn all_rows_view(self) -> Seq<OverflowTableRow> {
        self.all_rows@
    }

    /// An empty overflow table.
    pub fn new() -> (r: OverflowTable)
        ensures
            r.active_view() == Seq::<OverflowTableRow>::empty(),
            r.all_rows_view() == Seq::<OverflowTableRow>::empty(),
    {
        OverflowTable { active: Vec::new(), all_rows: Vec::new() }
    }

    /// The address of the table's head row, or zero when the table is
    /// empty.
    pub fn last_row_addr(&self) -> (r: Felt)
        ensures
            self.active_view().len() == 0 ==> r.val() == 0,
            self.active_view().len() > 0 ==> r.val() == self.active_view().last().clk_val(),
    {
        let n = self.active.len();
        if n == 0 {
            Felt::zero()
        } else {
            let row = self.active[n - 1];
            Felt::new(row.clk.as_int())
        }
    }

    /// The number of live rows.
    pub fn num_active_rows(&self) -> (r: usize)
        ensures
            r == self.active_view().len(),
    {
        self.active.len()
    }

    /// Appends a row for `value` at cycle `clk`, linked to the previous
    /// head of the table.
    pub fn add(&mut self, value: Felt, clk: Felt)
        ensures
            final(self).active_view().len() == old(self).active_view().len() + 1,
            final(self).active_view().last().clk_val() == clk.val(),
            final(self).active_view().last().val_val() == value.val(),
            final(self).active_view().last().prev_val() == (if old(self).active_view().len() == 0 {
                0int
            } else {
                old(self).active_view().last().clk_val()
            }),
            final(self).active_view().drop_last() == old(self).active_view(),
            final(self).all_rows_view() == old(self).all_rows_view().push(
                final(self).active_view().last(),
            ),
    {
        let prev = self.last_row_addr();
        let row = OverflowTableRow::new(clk, value, prev);
        self.active.push(row);
        self.all_rows.push(row);
        proof {
            assert(final(self).active_view().drop_last() =~= old(self).active_view());
        }
    }

    /// Removes the table's head row and returns its value together with
    /// the address of the new head; an empty table returns nothing and is
    /// left untouched.
    pub fn remove(&mut self) -> (r: Option<(Felt, Felt)>)
        ensures
            final(self).all_rows_view() == old(self).all_rows_view(),
            old(self).active_view().len() == 0 ==> r is None && *final(self) == *old(self),
            old(self).active_view().len() > 0 ==> (r matches Some(p) && p.0.val() == old(
                self,
            ).active_view().last().val_val() && p.1.val() == old(
                self,
            ).active_view().last().prev_val() && final(self).active_view() == old(
                self,
            ).active_view().drop_last()),
    {
        if self.active.len() == 0 {
            return None;
        }
        let popped = self.active.pop();
        match popped {
            Some(row) => {
                let value = Felt::new(row.val.as_int());
                let prev = Felt::new(row.prev.as_int());
                Some((value, prev))
            },
            None => None,
        }
    }

    /// Hands the table's full history over for auxiliary-column
    /// construction.
    pub fn into_all_rows(self) -> (r: Vec<OverflowTableRow>)
        ensures
            r@ == self.all_rows_view(),
    {
        let OverflowTable { active: _, all_rows } = self;
        all_rows
    }
}

/// The operand stack: a fixed visible window over the overflow table.
pub struct Stack {
    clk: u32,
    depth: usize,
    window: Vec<Felt>,
    overflow: OverflowTable,
}

impl Stack {
    #[verifier::type_invariant]
    spec fn type_inv(self) -> bool {
        &&& self.window@.len() == STACK_TOP_SIZE
        &&& self.depth == STACK_TOP_SIZE + self.overflow.active_view().len()
    }

    /// The current clock cycle.
    pub closed spec fn clk_val(self) -> int {
        self.clk as int
    }

    /// The visible window, top of the stack first.
    pub closed spec fn window_view(self) -> Seq<int> {
        felt_vals(self.window@)
    }

    /// The logical stack depth: the window plus every live overflow row.
    pub closed spec fn depth_val(self) -> int {
        self.depth as int
    }

    /// The live overflow rows, oldest first.
    pub closed spec fn overflow_view(self) -> Seq<OverflowTableRow> {
        self.overflow.active_view()
    }

    /// A stack with an all-zero window and an empty overflow table.
    pub fn new() -> (r: Stack)
        ensures
            r.clk_val() == 0,
            r.depth_val() == STACK_TOP_SIZE as int,
            r.window_view() == Seq::new(STACK_TOP_SIZE as nat, |i: int| 0int),
            r.overflow_view() == Seq::<OverflowTableRow>::empty(),
    {
        let mut window: Vec<Felt> = Vec::new();
        for i in 0..STACK_TOP_SIZE
            invariant
                window@.len() == i,
                forall|k: int| 0 <= k < i ==> window@[k].val() == 0,
        {
            window.push(Felt::zero());
        }
        let r = Stack { clk: 0, depth: STACK_TOP_SIZE, window, overflow: OverflowTable::new() };
        proof {
            assert(r.window_view() =~= Seq::new(STACK_TOP_SIZE as nat, |i: int| 0int));
        }
        r
    }

    /// The element at position `idx` from the top of the visible window.
    pub fn get(&self, idx: usize) -> (r: Felt)
        requires
            idx < STACK_TOP_SIZE,
        ensures
            r.val() == self.window_view()[idx as int],
    {
        proof {
            use_type_invariant(self);
        }
        self.window[idx]
    }

    /// Pushes a value: the window shifts right and its bottom element
    /// crosses into the overflow table, linked at the current cycle.
    pub fn push(&mut self, value: Felt)
        requires
            old(self).depth_val() < usize::MAX,
        ensures
            final(self).clk_val() == old(self).clk_val(),
            final(self).depth_val() == old(self).depth_val() + 1,
            final(self).window_view() == seq![value.val()] + old(self).window_view().take(
                STACK_TOP_SIZE - 1,
            ),
            final(self).overflow_view().len() == old(self).overflow_view().len() + 1,
            final(self).overflow_view().drop_last() == old(self).overflow_view(),
            final(self).overflow_view().last().clk_val() == old(self).clk_val(),
            final(self).overflow_view().last().val_val() == old(self).window_view()[STACK_TOP_SIZE
                - 1],
            final(self).overflow_view().last().prev_val() == (if old(self).overflow_view().len()
                == 0 {
                0int
            } else {
                old(self).overflow_view().last().clk_val()
            }),
    {
        proof {
            use_type_invariant(&*self);
            vstd::arithmetic::div_mod::lemma_small_mod(
                self.clk as nat,
                crate::field::MODULUS as nat,
            );
        }
        let mut tmp = Stack::new();
        core::mem::swap(&mut tmp, self);
        let Stack { clk, depth, window: mut window, overflow: mut overflow } = tmp;
        let bottom = window[STACK_TOP_SIZE - 1];
        overflow.add(bottom, Felt::new(clk as u64));
        window.insert(0, value);
        let _ = window.pop();
        *self = Stack { clk, depth: depth + 1, window, overflow };
        proof {
            assert(final(self).window_view() =~= seq![value.val()] + old(
                self,
            ).window_view().take(STACK_TOP_SIZE - 1));
        }
    }

    /// Pops the top value: the window shifts left; the overflow table's
    /// head comes back into the bottom slot when the table is not empty,
    /// and a zero pads the bottom otherwise (the depth never goes below
    /// the window size).
    pub fn pop(&mut self) -> (r: Felt)
        ensures
            final(self).clk_val() == old(self).clk_val(),
            r.val() == old(self).window_view()[0],
            old(self).overflow_view().len() > 0 ==> {
                &&& final(self).depth_val() == old(self).depth_val() - 1
                &&& final(self).window_view() == old(self).window_view().skip(1).push(
                    old(self).overflow_view().last().val_val(),
                )
                &&& final(self).overflow_view() == old(self).overflow_view().drop_last()
            },
            old(self).overflow_view().len() == 0 ==> {
                &&& final(self).depth_val() == STACK_TOP_SIZE as int
                &&& final(self).window_view() == old(self).window_view().skip(1).push(0int)
                &&& final(self).overflow_view() == old(self).overflow_view()
            },
    {
        proof {
            use_type_invariant(&*self);
        }
        let mut tmp = Stack::new();
        core::mem::swap(&mut tmp, self);
        let Stack { clk, depth, window: mut window, overflow: mut overflow } = tmp;
        let top = window[0];
        let pulled = overflow.remove();
        let (bottom, new_depth) = match pulled {
            Some((v, _)) => (v, depth - 1),
            None => (Felt::zero(), depth),
        };
        let _ = window.remove(0);
        window.push(bottom);
        *self = Stack { clk, depth: new_depth, window, overflow };
        proof {
            if old(self).overflow_view().len() > 0 {
                assert(final(self).window_view() =~= old(self).window_view().skip(1).push(
                    old(self).overflow_view().last().val_val(),
                ));
            } else {
                assert(final(self).window_view() =~= old(self).window_view().skip(1).push(0int));
            }
        }
        top
    }

    /// Advances the clock by one cycle.
    pub fn advance_clock(&mut self)
        requires
            old(self).clk_val() < u32::MAX,
        ensures
            final(self).clk_val() == old(self).clk_val() + 1,
            final(self).depth_val() == old(self).depth_val(),
            final(self).window_view() == old(self).window_view(),
            final(self).overflow_view() == old(self).overflow_view(),
    {
        proof {
            use_type_invariant(&*self);
        }
        self.clk = self.clk + 1;
    }

    /// The logical stack depth.
    pub fn depth(&self) -> (r: usize)
        ensures
            r as int == self.depth_val(),
    {
        self.depth
    }

    /// The depth to restore on return: recorded when a call frame starts.
    pub fn start_context(&self) -> (r: usize)
        ensures
            r as int == self.depth_val(),
    {
        self.depth
    }

    /// Checks the call/return discipline: a frame must leave the stack at
    /// the depth it found, or it has leaked overflow rows to its caller.
    pub fn restore_context(&self, frame_depth: usize) -> (r: Result<(), ExecutionError>)
        ensures
            self.depth_val() == frame_depth as int ==> r == Ok::<(), ExecutionError>(()),
            self.depth_val() != frame_depth as int ==> r == Err::<(), ExecutionError>(
                ExecutionError::InvalidStackDepthOnReturn(self.depth_val() as usize),
            ),
    {
        if self.depth != frame_depth {
            return Err(ExecutionError::InvalidStackDepthOnReturn(self.depth));
        }
        Ok(())
    }

    /// Hands the overflow table over for auxiliary-column construction.
    pub fn into_overflow_table(self) -> (r: OverflowTable)
        ensures
            r.active_view() == self.overflow_view(),
    {
        let Stack { clk: _, depth: _, window: _, overflow } = self;
        overflow
    }
}

} // verus!
