//! The stack's auxiliary trace column: a randomized running product over
//! the overflow table's add and remove events.
//!
//! After the main trace is fixed, a set of challenge values (`alphas`) is
//! drawn and every overflow-table row is folded into one field element.
//! The running-product column multiplies in a "response" factor whenever a
//! right shift adds a row, and divides by a "request" factor (multiplies by
//! its inverse) whenever a left shift removes one; rows where neither
//! happens contribute a neutral factor of one. Combined with boundary
//! constraints, the column proves multiset equality between the rows added
//! to and removed from the table.

use crate::field::{f_inv, f_mul, felt_vals, lemma_f_mul_assoc, lemma_f_ops_in_range, Felt, MODULUS};
use crate::overflow::{row_value, row_value_of, OverflowTableRow};
use vstd::prelude::*;

verus! {

/// The main-trace columns the stack's auxiliary column depends on: the
/// clock, the bottom element of the visible stack window, the overflow
/// head address, and the two shift selector columns.
pub struct MainTrace {
    clk: Vec<Felt>,
    bottom: Vec<Felt>,
    addr: Vec<Felt>,
    lshift: Vec<bool>,
    rshift: Vec<bool>,
}

impl MainTrace {
    #[verifier::type_invariant]
    spec fn type_inv(self) -> bool {
        &&& self.bottom@.len() == self.clk@.len()
        &&& self.addr@.len() == self.clk@.len()
        &&& self.lshift@.len() == self.clk@.len()
        &&& self.rshift@.len() == self.clk@.len()
    }

    /// The number of trace rows.
    pub closed spec fn len_val(self) -> int {
        self.clk@.len() as int
    }

    /// The clock column.
    pub closed spec fn clk_view(self) -> Seq<int> {
        felt_vals(self.clk@)
    }

    /// The column of the visible window's bottom element.
    pub closed spec fn bottom_view(self) -> Seq<int> {
        felt_vals(self.bottom@)
    }

    /// The overflow head address column.
    pub closed spec fn addr_view(self) -> Seq<int> {
        felt_vals(self.addr@)
    }

    /// Which rows perform a left shift.
    pub closed spec fn lshift_view(self) -> Seq<bool> {
        self.lshift@
    }

    /// Which rows perform a right shift.
    pub closed spec fn rshift_view(self) -> Seq<bool> {
        self.rshift@
    }

    /// Whether the overflow table is non-empty at row `i`: the head
    /// address is the zero sentinel exactly when the table is empty.
    pub open spec fn non_empty_overflow_at(self, i: int) -> bool {
        self.addr_view()[i] != 0
    }

    /// A trace from its five columns, which must have one value per row.
    pub fn new(
        clk: Vec<Felt>,
        bottom: Vec<Felt>,
        addr: Vec<Felt>,
        lshift: Vec<bool>,
        rshift: Vec<bool>,
    ) -> (r: MainTrace)
        requires
            bottom@.len() == clk@.len(),
            addr@.len() == clk@.len(),
            lshift@.len() == clk@.len(),
            rshift@.len() == clk@.len(),
        ensures
            r.clk_view() == felt_vals(clk@),
            r.bottom_view() == felt_vals(bottom@),
            r.addr_view() == felt_vals(addr@),
            r.lshift_view() == lshift@,
            r.rshift_view() == rshift@,
            r.len_val() == clk@.len(),
    {
        MainTrace { clk, bottom, addr, lshift, rshift }
    }

    /// The number of rows.
    pub fn len(&self) -> (r: usize)
        ensures
            r as int == self.len_val(),
    {
        self.clk.len()
    }

    /// The clock value at row `i`.
    pub fn clk(&self, i: usize) -> (r: Felt)
        requires
            i < self.len_val(),
        ensures
            r.val() == self.clk_view()[i as int],
    {
        proof {
            use_type_invariant(self);
        }
        self.clk[i]
    }

    /// The bottom element of the visible stack window at row `i`.
    pub fn stack_element(&self, i: usize) -> (r: Felt)
        requires
            i < self.len_val(),
        ensures
            r.val() == self.bottom_view()[i as int],
    {
        proof {
            use_type_invariant(self);
        }
        self.bottom[i]
    }

    /// The overflow head address at row `i`.
    pub fn parent_overflow_address(&self, i: usize) -> (r: Felt)
        requires
            i < self.len_val(),
        ensures
            r.val() == self.addr_view()[i as int],
    {
        proof {
            use_type_invariant(self);
        }
        self.addr[i]
    }

    /// Whether row `i` performs a left shift.
    pub fn is_left_shift(&self, i: usize) -> (r: bool)
        requires
            i < self.len_val(),
        ensures
            r == self.lshift_view()[i as int],
    {
        proof {
            use_type_invariant(self);
        }
        self.lshift[i]
    }

    /// Whether row `i` performs a right shift.
    pub fn is_right_shift(&self, i: usize) -> (r: bool)
        requires
            i < self.len_val(),
        ensures
            r == self.rshift_view()[i as int],
    {
        proof {
            use_type_invariant(self);
        }
        self.rshift[i]
    }

    /// Whether the overflow table is non-empty at row `i`.
    pub fn is_non_empty_overflow(&self, i: usize) -> (r: bool)
        requires
            i < self.len_val(),
        ensures
            r == self.non_empty_overflow_at(i as int),
    {
        proof {
            use_type_invariant(self);
        }
        self.addr[i].as_int() != 0
    }
}

/// The "request" factor of row `i`: the encoding of the row a left shift
/// removes from a non-empty overflow table, or one.
pub open spec fn request_at(trace: MainTrace, alphas: Seq<int>, i: int) -> int {
    if trace.lshift_view()[i] && trace.non_empty_overflow_at(i) {
        row_value(trace.addr_view()[i], trace.bottom_view()[i + 1], trace.addr_view()[i + 1], alphas)
    } else {
        1
    }
}

/// The "response" factor of row `i`: the encoding of the row a right shift
/// adds, or one.
pub open spec fn response_at(trace: MainTrace, alphas: Seq<int>, i: int) -> int {
    if trace.rshift_view()[i] {
        row_value(trace.clk_view()[i], trace.bottom_view()[i], trace.addr_view()[i], alphas)
    } else {
        1
    }
}

/// The product of the encodings of the first `n` recorded rows: the
/// column's starting value when `n` rows predate execution.
pub open spec fn init_product(rows: Seq<OverflowTableRow>, n: int, alphas: Seq<int>) -> int
    decreases n,
{
    if n <= 0 {
        1
    } else {
        f_mul(init_product(rows, n - 1, alphas), row_value_of(rows[n - 1], alphas))
    }
}

/// The accumulated event factor of the first `n` trace rows: responses
/// multiplied in, requests divided out, in emission order.
pub open spec fn event_product(trace: MainTrace, alphas: Seq<int>, n: int) -> int
    decreases n,
{
    if n <= 0 {
        1
    } else {
        f_mul(
            event_product(trace, alphas, n - 1),
            f_mul(response_at(trace, alphas, n - 1), f_inv(request_at(trace, alphas, n - 1))),
        )
    }
}

/// Describes how to construct the stack-related auxiliary trace column:
/// the running product proving consistency of the overflow table.
pub struct AuxTraceBuilder {
    overflow_table_rows: Vec<OverflowTableRow>,
    num_init_rows: usize,
}

impl AuxTraceBuilder {
    #[verifier::type_invariant]
    spec fn type_inv(self) -> bool {
        self.num_init_rows <= self.overflow_table_rows@.len()
    }

    /// Every row that was added to the overflow table, in order.
    pub closed spec fn rows_view(self) -> Seq<OverflowTableRow> {
        self.overflow_table_rows@
    }

    /// How many of the rows predate execution.
    pub closed spec fn num_init_rows_val(self) -> int {
        self.num_init_rows as int
    }

    /// A builder over the recorded overflow rows, the first
    /// `num_init_rows` of which existed before execution began.
    pub fn new(overflow_table_rows: Vec<OverflowTableRow>, num_init_rows: usize) -> (r:
        AuxTraceBuilder)
        requires
            num_init_rows <= overflow_table_rows@.len(),
        ensures
            r.rows_view() == overflow_table_rows@,
            r.num_init_rows_val() == num_init_rows as int,
    {
        AuxTraceBuilder { overflow_table_rows, num_init_rows }
    }

    /// The starting value of the running-product column: the product of
    /// the encodings of the rows present before execution.
    pub fn init_responses(&self, _main_trace: &MainTrace, alphas: &Vec<Felt>) -> (r: Felt)
        requires
            alphas@.len() >= 4,
        ensures
            r.val() == init_product(self.rows_view(), self.num_init_rows_val(), felt_vals(alphas@)),
    {
        proof {
            use_type_invariant(self);
        }
        let mut value = Felt::one();
        let n = self.num_init_rows;
        for i in 0..n
            invariant
                n == self.num_init_rows,
                n <= self.overflow_table_rows@.len(),
                alphas@.len() >= 4,
                value.val() == init_product(self.rows_view(), i as int, felt_vals(alphas@)),
        {
            value = value.mul(self.overflow_table_rows[i].to_value(alphas));
        }
        value
    }

    /// The factor a left shift at row `i` removes from the running
    /// multiset: the encoding of the row that must have left the overflow
    /// table, reconstructed from the trace columns; one when no removal
    /// happens.
    pub fn get_requests_at(&self, main_trace: &MainTrace, alphas: &Vec<Felt>, i: usize) -> (r: Felt)
        requires
            alphas@.len() >= 4,
            i + 1 < main_trace.len_val(),
        ensures
            r.val() == request_at(*main_trace, felt_vals(alphas@), i as int),
    {
        // the trace length fits a machine integer, so `i + 1` cannot wrap
        let _n = main_trace.len();
        let is_left_shift = main_trace.is_left_shift(i);
        let is_non_empty_overflow = main_trace.is_non_empty_overflow(i);
        if is_left_shift && is_non_empty_overflow {
            let b1 = main_trace.parent_overflow_address(i);
            let s15_prime = main_trace.stack_element(i + 1);
            let b1_prime = main_trace.parent_overflow_address(i + 1);
            let row = OverflowTableRow::new(b1, s15_prime, b1_prime);
            row.to_value(alphas)
        } else {
            Felt::one()
        }
    }

    /// The factor a right shift at row `i` adds to the running multiset:
    /// the encoding of the row entering the overflow table; one when no
    /// addition happens.
    pub fn get_responses_at(&self, main_trace: &MainTrace, alphas: &Vec<Felt>, i: usize) -> (r:
        Felt)
        requires
            alphas@.len() >= 4,
            i < main_trace.len_val(),
        ensures
            r.val() == response_at(*main_trace, felt_vals(alphas@), i as int),
    {
        let is_right_shift = main_trace.is_right_shift(i);
        if is_right_shift {
            let k0 = main_trace.clk(i);
            let s15 = main_trace.stack_element(i);
            let b1 = main_trace.parent_overflow_address(i);
            let row = OverflowTableRow::new(k0, s15, b1);
            row.to_value(alphas)
        } else {
            Felt::one()
        }
    }

    /// Builds the stack's auxiliary trace columns: a single running
    /// product column over the overflow table. Its first value is the
    /// initial-row product; each later value multiplies the previous one
    /// by that row's response factor and by the inverse of its request
    /// factor.
    pub fn build_aux_columns(&self, main_trace: &MainTrace, rand_elements: &Vec<Felt>) -> (r: Vec<
        Vec<Felt>,
    >)
        requires
            rand_elements@.len() >= 4,
            main_trace.len_val() >= 1,
        ensures
            r@.len() == 1,
            r@[0]@.len() == main_trace.len_val(),
            r@[0]@[0].val() == init_product(
                self.rows_view(),
                self.num_init_rows_val(),
                felt_vals(rand_elements@),
            ),
            forall|i: int|
                0 <= i < main_trace.len_val() - 1 ==> (#[trigger] r@[0]@[i + 1]).val() == f_mul(
                    r@[0]@[i].val(),
                    f_mul(
                        response_at(*main_trace, felt_vals(rand_elements@), i),
                        f_inv(request_at(*main_trace, felt_vals(rand_elements@), i)),
                    ),
                ),
    {
        let n = main_trace.len();
        let mut p1: Vec<Felt> = Vec::new();
        p1.push(self.init_responses(main_trace, rand_elements));
        let mut i: usize = 0;
        while i < n - 1
            invariant
                n == main_trace.len_val(),
                n >= 1,
                rand_elements@.len() >= 4,
                i < n,
                p1@.len() == i + 1,
                p1@[0].val() == init_product(
                    self.rows_view(),
                    self.num_init_rows_val(),
                    felt_vals(rand_elements@),
                ),
                forall|k: int|
                    0 <= k < i ==> (#[trigger] p1@[k + 1]).val() == f_mul(
                        p1@[k].val(),
                        f_mul(
                            response_at(*main_trace, felt_vals(rand_elements@), k),
                            f_inv(request_at(*main_trace, felt_vals(rand_elements@), k)),
                        ),
                    ),
            decreases n - i,
        {
            let response = self.get_responses_at(main_trace, rand_elements, i);
            let request = self.get_requests_at(main_trace, rand_elements, i);
            let next = p1[i].mul(response.mul(request.inv()));
            p1.push(next);
            i = i + 1;
        }
        let mut result: Vec<Vec<Felt>> = Vec::new();
        result.push(p1);
        result
    }
}

/// Running-product law: a column that starts at the initial-row product
/// and multiplies, row by row, each response factor and the inverse of
/// each request factor ends, at its last row, at the initial value times
/// the accumulated event factor of every row before it — the factors in
/// the exact order the shifts emitted them.
pub proof fn lemma_aux_column_final_value(
    col: Seq<int>,
    trace: MainTrace,
    alphas: Seq<int>,
    init: int,
)
    requires
        col.len() >= 1,
        0 <= init < MODULUS as int,
        col[0] == init,
        forall|i: int|
            0 <= i < col.len() - 1 ==> #[trigger] col[i + 1] == f_mul(
                col[i],
                f_mul(response_at(trace, alphas, i), f_inv(request_at(trace, alphas, i))),
            ),
    ensures
        col.last() == f_mul(init, event_product(trace, alphas, col.len() - 1)),
{
    lemma_aux_column_prefix(col, trace, alphas, init, col.len() - 1);
}

/// The running product at row `n` is the initial value times the event
/// factor of the first `n` rows.
proof fn lemma_aux_column_prefix(
    col: Seq<int>,
    trace: MainTrace,
    alphas: Seq<int>,
    init: int,
    n: int,
)
    requires
        col.len() >= 1,
        0 <= init < MODULUS as int,
        col[0] == init,
        0 <= n < col.len(),
        forall|i: int|
            0 <= i < col.len() - 1 ==> #[trigger] col[i + 1] == f_mul(
                col[i],
                f_mul(response_at(trace, alphas, i), f_inv(request_at(trace, alphas, i))),
            ),
    ensures
        col[n] == f_mul(init, event_product(trace, alphas, n)),
    decreases n,
{
    if n == 0 {
        lemma_mul_one_right(init);
    } else {
        lemma_aux_column_prefix(col, trace, alphas, init, n - 1);
        let ep = event_product(trace, alphas, n - 1);
        let step = f_mul(
            response_at(trace, alphas, n - 1),
            f_inv(request_at(trace, alphas, n - 1)),
        );
        assert(0 <= ep < MODULUS as int && 0 <= step < MODULUS as int) by {
            lemma_event_product_in_range(trace, alphas, n - 1);
            lemma_f_ops_in_range(
                response_at(trace, alphas, n - 1),
                f_inv(request_at(trace, alphas, n - 1)),
                0,
            );
        }
        assert(col[n] == f_mul(f_mul(init, ep), step));
        lemma_f_mul_assoc(init, ep, step);
    }
}

/// Event products are canonical residues.
proof fn lemma_event_product_in_range(trace: MainTrace, alphas: Seq<int>, n: int)
    ensures
        0 <= event_product(trace, alphas, n) < MODULUS as int,
    decreases n,
{
    if n <= 0 {
        assert(event_product(trace, alphas, n) == 1);
    } else {
        lemma_f_ops_in_range(
            event_product(trace, alphas, n - 1),
            f_mul(response_at(trace, alphas, n - 1), f_inv(request_at(trace, alphas, n - 1))),
            0,
        );
    }
}

/// Multiplying a canonical residue by one is the identity.
proof fn lemma_mul_one_right(x: int)
    requires
        0 <= x < MODULUS as int,
    ensures
        f_mul(x, 1) == x,
{
    vstd::arithmetic::div_mod::lemma_small_mod(x as nat, MODULUS as nat);
}

} // verus!
