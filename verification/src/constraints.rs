//! Transition constraints of the hasher chiplet.
//!
//! The chiplet's trace rows hold three selector columns, the permutation
//! state, and a node-index column. Each permutation occupies
//! [`HASH_CYCLE_LEN`](crate::hasher::HASH_CYCLE_LEN) rows: the rounds run
//! on the first seven rows, the eighth is the phase boundary. Periodic
//! columns supply three cycle-position flags and the round constants of
//! the current row — all-zero constants on boundary rows — so one fixed
//! constraint polynomial serves every row: on round rows it compares the
//! next state against one round-function application, on boundary rows the
//! round flag degenerates it to a no-op while the node-index constraint
//! checks the index shifts out one binary bit.

use crate::field::{f_add, f_mul, f_sub, felt_vals, lemma_f_ops_in_range, Felt, MODULUS};
use crate::hasher::{
    add_constants, apply_mds, apply_sbox, ark1_row, ark2_row, round_with_constants,
    HASH_CYCLE_LEN, NUM_ROUNDS, STATE_WIDTH,
};
use vstd::prelude::*;

verus! {

/// Number of columns in a hasher trace row.
pub const TRACE_WIDTH: usize = 16;

/// Number of selector columns.
pub const NUM_SELECTORS: usize = 3;

/// First column of the hasher state.
pub const STATE_COL_OFFSET: usize = 3;

/// The node-index column.
pub const NODE_INDEX_COL_IDX: usize = 15;

/// Number of transition constraints the evaluator produces.
pub const NUM_CONSTRAINTS: usize = 20;

/// Number of periodic values the evaluator consumes: three cycle flags
/// followed by the two round-constant vectors.
pub const NUM_PERIODIC_VALUES: usize = 27;

/// The flag that turns the round constraints on: one on the seven round
/// rows of a cycle, zero on the boundary row (`k1`) and on out-of-cycle
/// padding rows (`k0`).
pub open spec fn round_flag(per: Seq<int>) -> int {
    f_sub(f_sub(1, per[0]), per[1])
}

/// The hasher state portion of a row.
pub open spec fn state_of(row: Seq<int>) -> Seq<int> {
    row.subrange(STATE_COL_OFFSET as int, (STATE_COL_OFFSET + STATE_WIDTH) as int)
}

/// The first round-constant vector carried by the periodic values.
pub open spec fn ark1_of(per: Seq<int>) -> Seq<int> {
    per.subrange(NUM_SELECTORS as int, (NUM_SELECTORS + STATE_WIDTH) as int)
}

/// The second round-constant vector carried by the periodic values.
pub open spec fn ark2_of(per: Seq<int>) -> Seq<int> {
    per.subrange((NUM_SELECTORS + STATE_WIDTH) as int, NUM_PERIODIC_VALUES as int)
}

/// The bit the node index sheds at a cycle boundary: the current index
/// minus twice the next one.
pub open spec fn index_bit(cur: Seq<int>, nxt: Seq<int>) -> int {
    f_sub(cur[NODE_INDEX_COL_IDX as int], f_mul(2, nxt[NODE_INDEX_COL_IDX as int]))
}

/// The value of constraint `j` on a pair of adjacent rows, before scaling
/// by the composition coefficient.
///
/// - `0..3`: each selector is binary;
/// - `3`: within a cycle, the next row does not start a new operation;
/// - `4`, `5`: within a cycle, the mode selectors persist;
/// - `6`: within a cycle, the node index is unchanged;
/// - `7`: at a cycle boundary, the index sheds one binary bit;
/// - `8..20`: on round rows, the next state is one round application.
pub open spec fn constraint_val(cur: Seq<int>, nxt: Seq<int>, per: Seq<int>, j: int) -> int {
    if 0 <= j < 3 {
        f_mul(cur[j], f_sub(cur[j], 1))
    } else if j == 3 {
        f_mul(round_flag(per), nxt[0])
    } else if j == 4 {
        f_mul(round_flag(per), f_sub(nxt[1], cur[1]))
    } else if j == 5 {
        f_mul(round_flag(per), f_sub(nxt[2], cur[2]))
    } else if j == 6 {
        f_mul(
            round_flag(per),
            f_sub(nxt[NODE_INDEX_COL_IDX as int], cur[NODE_INDEX_COL_IDX as int]),
        )
    } else if j == 7 {
        f_mul(per[1], f_mul(index_bit(cur, nxt), f_sub(index_bit(cur, nxt), 1)))
    } else {
        f_mul(
            round_flag(per),
            f_sub(
                round_with_constants(state_of(cur), ark1_of(per), ark2_of(per))[j - 8],
                nxt[STATE_COL_OFFSET + j - 8],
            ),
        )
    }
}

/// A pair of adjacent trace rows of the hasher chiplet.
pub struct EvaluationFrame {
    current: Vec<Felt>,
    next: Vec<Felt>,
}

impl EvaluationFrame {
    #[verifier::type_invariant]
    spec fn type_inv(self) -> bool {
        self.current@.len() == TRACE_WIDTH && self.next@.len() == TRACE_WIDTH
    }

    /// The values of the current row.
    pub closed spec fn current_view(self) -> Seq<int> {
        felt_vals(self.current@)
    }

    /// The values of the next row.
    pub closed spec fn next_view(self) -> Seq<int> {
        felt_vals(self.next@)
    }

    /// A frame from its two rows, each of the full trace width.
    pub fn from_rows(current: Vec<Felt>, next: Vec<Felt>) -> (r: EvaluationFrame)
        requires
            current@.len() == TRACE_WIDTH,
            next@.len() == TRACE_WIDTH,
        ensures
            r.current_view() == felt_vals(current@),
            r.next_view() == felt_vals(next@),
    {
        EvaluationFrame { current, next }
    }

    /// The element at column `j` of the current row.
    pub fn current(&self, j: usize) -> (r: Felt)
        requires
            j < TRACE_WIDTH,
        ensures
            r.val() == self.current_view()[j as int],
    {
        proof {
            use_type_invariant(self);
        }
        self.current[j]
    }

    /// The element at column `j` of the next row.
    pub fn next(&self, j: usize) -> (r: Felt)
        requires
            j < TRACE_WIDTH,
        ensures
            r.val() == self.next_view()[j as int],
    {
        proof {
            use_type_invariant(self);
        }
        self.next[j]
    }
}

/// Evaluates every transition constraint on the frame, scales each value
/// by the composition coefficient, and adds it into the result buffer.
pub fn enforce_constraints(
    frame: &EvaluationFrame,
    periodic_values: &Vec<Felt>,
    result: &mut Vec<Felt>,
    composition_coefficient: Felt,
)
    requires
        periodic_values@.len() == NUM_PERIODIC_VALUES,
        old(result)@.len() == NUM_CONSTRAINTS,
    ensures
        final(result)@.len() == NUM_CONSTRAINTS,
        forall|j: int|
            0 <= j < NUM_CONSTRAINTS ==> (#[trigger] final(result)@[j]).val() == f_add(
                old(result)@[j].val(),
                f_mul(
                    composition_coefficient.val(),
                    constraint_val(
                        frame.current_view(),
                        frame.next_view(),
                        felt_vals(periodic_values@),
                        j,
                    ),
                ),
            ),
{
    proof {
        use_type_invariant(frame);
    }
    let ghost cur = frame.current_view();
    let ghost nxt = frame.next_view();
    let ghost per = felt_vals(periodic_values@);
    let one = Felt::one();
    let flag = one.sub(periodic_values[0]).sub(periodic_values[1]);

    // selectors are binary
    let mut vals: Vec<Felt> = Vec::new();
    let s0 = frame.current(0);
    let s1 = frame.current(1);
    let s2 = frame.current(2);
    vals.push(s0.mul(s0.sub(one)));
    vals.push(s1.mul(s1.sub(one)));
    vals.push(s2.mul(s2.sub(one)));

    // in-cycle selector and node-index discipline
    vals.push(flag.mul(frame.next(0)));
    vals.push(flag.mul(frame.next(1).sub(s1)));
    vals.push(flag.mul(frame.next(2).sub(s2)));
    vals.push(flag.mul(frame.next(NODE_INDEX_COL_IDX).sub(frame.current(NODE_INDEX_COL_IDX))));

    // boundary bit shift of the node index
    let two = Felt::new(2);
    let bit = frame.current(NODE_INDEX_COL_IDX).sub(two.mul(frame.next(NODE_INDEX_COL_IDX)));
    vals.push(periodic_values[1].mul(bit.mul(bit.sub(one))));

    // one round of the permutation, from the periodic round constants
    let mut state: Vec<Felt> = Vec::new();
    for j in 0..STATE_WIDTH
        invariant
            state@.len() == j,
            forall|k: int| 0 <= k < j ==> state@[k].val() == cur[STATE_COL_OFFSET + k],
            frame.current_view() == cur,
    {
        state.push(frame.current(STATE_COL_OFFSET + j));
    }
    let mut ark1: Vec<Felt> = Vec::new();
    let mut ark2: Vec<Felt> = Vec::new();
    for j in 0..STATE_WIDTH
        invariant
            ark1@.len() == j,
            ark2@.len() == j,
            periodic_values@.len() == NUM_PERIODIC_VALUES,
            per == felt_vals(periodic_values@),
            forall|k: int| 0 <= k < j ==> ark1@[k].val() == per[NUM_SELECTORS + k],
            forall|k: int|
                0 <= k < j ==> ark2@[k].val() == per[NUM_SELECTORS + STATE_WIDTH + k],
    {
        ark1.push(periodic_values[NUM_SELECTORS + j]);
        ark2.push(periodic_values[NUM_SELECTORS + STATE_WIDTH + j]);
    }
    proof {
        assert(felt_vals(state@) =~= state_of(cur));
        assert(felt_vals(ark1@) =~= ark1_of(per));
        assert(felt_vals(ark2@) =~= ark2_of(per));
    }
    apply_round_with_constants(&mut state, &ark1, &ark2);
    for j in 0..STATE_WIDTH
        invariant
            vals@.len() == 8 + j,
            state@.len() == STATE_WIDTH,
            felt_vals(state@) == round_with_constants(state_of(cur), ark1_of(per), ark2_of(per)),
            frame.next_view() == nxt,
            flag.val() == round_flag(per),
            forall|k: int|
                0 <= k < j ==> (#[trigger] vals@[8 + k]).val() == f_mul(
                    round_flag(per),
                    f_sub(
                        round_with_constants(state_of(cur), ark1_of(per), ark2_of(per))[k],
                        nxt[STATE_COL_OFFSET + k],
                    ),
                ),
            forall|k: int| 0 <= k < 8 ==> (#[trigger] vals@[k]).val() == constraint_val(
                cur,
                nxt,
                per,
                k,
            ),
    {
        vals.push(flag.mul(state[j].sub(frame.next(STATE_COL_OFFSET + j))));
    }

    proof {
        assert forall|k: int| 0 <= k < NUM_CONSTRAINTS implies (#[trigger] vals@[k]).val()
            == constraint_val(cur, nxt, per, k) by {
            if k >= 8 {
                assert(vals@[8 + (k - 8)].val() == f_mul(
                    round_flag(per),
                    f_sub(
                        round_with_constants(state_of(cur), ark1_of(per), ark2_of(per))[k - 8],
                        nxt[STATE_COL_OFFSET + (k - 8)],
                    ),
                ));
            }
        }
    }

    // fold the scaled values into the buffer
    let ghost old_result = result@;
    let mut buffer: Vec<Felt> = Vec::new();
    core::mem::swap(&mut buffer, result);
    let mut j: usize = 0;
    while j < NUM_CONSTRAINTS
        invariant
            buffer@.len() == NUM_CONSTRAINTS,
            vals@.len() == NUM_CONSTRAINTS,
            j <= NUM_CONSTRAINTS,
            forall|k: int| 0 <= k < NUM_CONSTRAINTS ==> (#[trigger] vals@[k]).val()
                == constraint_val(cur, nxt, per, k),
            forall|k: int|
                j <= k < NUM_CONSTRAINTS ==> #[trigger] buffer@[k] == old_result[k],
            forall|k: int|
                0 <= k < j ==> (#[trigger] buffer@[k]).val() == f_add(
                    old_result[k].val(),
                    f_mul(composition_coefficient.val(), constraint_val(cur, nxt, per, k)),
                ),
        decreases NUM_CONSTRAINTS - j,
    {
        buffer[j] = buffer[j].add(composition_coefficient.mul(vals[j]));
        j = j + 1;
    }
    *result = buffer;
}

/// Applies one round of the permutation with explicit round-constant
/// vectors, as the constraints recompute it from the periodic columns.
fn apply_round_with_constants(state: &mut Vec<Felt>, ark1: &Vec<Felt>, ark2: &Vec<Felt>)
    requires
        old(state)@.len() == STATE_WIDTH,
        ark1@.len() == STATE_WIDTH,
        ark2@.len() == STATE_WIDTH,
    ensures
        final(state)@.len() == STATE_WIDTH,
        felt_vals(final(state)@) == round_with_constants(
            felt_vals(old(state)@),
            felt_vals(ark1@),
            felt_vals(ark2@),
        ),
{
    add_constants(state, ark1);
    apply_sbox(state);
    apply_mds(state);
    add_constants(state, ark2);
    apply_sbox(state);
    apply_mds(state);
}

/// The selector values that tag a row as part of a linear hash: the
/// start bit and the two mode bits.
pub fn linear_hash_selectors() -> (r: Vec<Felt>)
    ensures
        r@.len() == NUM_SELECTORS,
        felt_vals(r@) == seq![1int, 0int, 0int],
{
    let mut r: Vec<Felt> = Vec::new();
    r.push(Felt::one());
    r.push(Felt::zero());
    r.push(Felt::zero());
    proof {
        assert(felt_vals(r@) =~= seq![1int, 0int, 0int]);
    }
    r
}

/// The cycle-position flags of the periodic columns at a cycle row: `k2`
/// marks the first row of a cycle, `k1` the boundary row, and `k0` the
/// padding position past a cycle.
pub open spec fn periodic_flags_spec(row: int) -> Seq<int> {
    if row == 0 {
        seq![0, 0, 1]
    } else if row == 7 {
        seq![0, 1, 0]
    } else if row == 8 {
        seq![1, 0, 0]
    } else {
        seq![0, 0, 0]
    }
}

/// The round constants carried by the periodic columns at a cycle row:
/// the row's two round-constant vectors, or all zeros at and past the
/// boundary row.
pub open spec fn periodic_ark_spec(row: int) -> Seq<int> {
    if 0 <= row < NUM_ROUNDS {
        crate::hasher::ark1_spec(row) + crate::hasher::ark2_spec(row)
    } else {
        Seq::new(2 * STATE_WIDTH as nat, |i: int| 0int)
    }
}

/// The full periodic-value vector at a cycle row.
pub open spec fn periodic_values_spec(row: int) -> Seq<int> {
    periodic_flags_spec(row) + periodic_ark_spec(row)
}

/// The values of the periodic columns at the specified cycle row.
pub fn get_test_periodic_values(cycle_row: usize) -> (r: Vec<Felt>)
    requires
        cycle_row <= HASH_CYCLE_LEN,
    ensures
        r@.len() == NUM_PERIODIC_VALUES,
        felt_vals(r@) == periodic_values_spec(cycle_row as int),
{
    let mut periodic_values: Vec<Felt> = Vec::new();
    if cycle_row == 0 {
        periodic_values.push(Felt::zero());
        periodic_values.push(Felt::zero());
        periodic_values.push(Felt::one());
    } else if cycle_row == 7 {
        periodic_values.push(Felt::zero());
        periodic_values.push(Felt::one());
        periodic_values.push(Felt::zero());
    } else if cycle_row == 8 {
        periodic_values.push(Felt::one());
        periodic_values.push(Felt::zero());
        periodic_values.push(Felt::zero());
    } else {
        periodic_values.push(Felt::zero());
        periodic_values.push(Felt::zero());
        periodic_values.push(Felt::zero());
    }
    if cycle_row < NUM_ROUNDS {
        let mut ark1 = ark1_row(cycle_row);
        let mut ark2 = ark2_row(cycle_row);
        periodic_values.append(&mut ark1);
        periodic_values.append(&mut ark2);
    } else {
        for i in 0..2 * STATE_WIDTH
            invariant
                periodic_values@.len() == 3 + i,
                forall|k: int| 0 <= k < 3 ==> (#[trigger] periodic_values@[k]).val()
                    == periodic_flags_spec(cycle_row as int)[k],
                forall|k: int| 3 <= k < 3 + i ==> (#[trigger] periodic_values@[k]).val() == 0,
        {
            periodic_values.push(Felt::zero());
        }
    }
    proof {
        assert(felt_vals(periodic_values@) =~= periodic_values_spec(cycle_row as int));
    }
    periodic_values
}

/// Completeness of the constraint system on round rows: when a transition
/// is one valid application of the round function — binary selectors, the
/// start bit off on the next row, mode selectors and node index carried
/// over, and the next state equal to the round function of the current
/// state under the periodic round constants — every constraint vanishes.
pub proof fn lemma_constraints_vanish_on_valid_round(cur: Seq<int>, nxt: Seq<int>, per: Seq<int>)
    requires
        cur.len() == TRACE_WIDTH,
        nxt.len() == TRACE_WIDTH,
        per.len() == NUM_PERIODIC_VALUES,
        per[0] == 0,
        per[1] == 0,
        forall|j: int| 0 <= j < 3 ==> cur[j] == 0 || cur[j] == 1,
        nxt[0] == 0,
        nxt[1] == cur[1],
        nxt[2] == cur[2],
        nxt[NODE_INDEX_COL_IDX as int] == cur[NODE_INDEX_COL_IDX as int],
        nxt.subrange(STATE_COL_OFFSET as int, (STATE_COL_OFFSET + STATE_WIDTH) as int)
            == round_with_constants(state_of(cur), ark1_of(per), ark2_of(per)),
    ensures
        forall|j: int| 0 <= j < NUM_CONSTRAINTS ==> constraint_val(cur, nxt, per, j) == 0,
{
    assert(round_flag(per) == 1);
    assert forall|j: int| 0 <= j < NUM_CONSTRAINTS implies constraint_val(cur, nxt, per, j)
        == 0 by {
        if j < 3 {
            if cur[j] == 0 {
                assert(f_mul(0, f_sub(0, 1)) == 0);
            } else {
                assert(f_mul(1, f_sub(1, 1)) == 0);
            }
        } else if j >= 8 {
            let out = round_with_constants(state_of(cur), ark1_of(per), ark2_of(per));
            assert(nxt[STATE_COL_OFFSET + j - 8] == nxt.subrange(
                STATE_COL_OFFSET as int,
                (STATE_COL_OFFSET + STATE_WIDTH) as int,
            )[j - 8]);
            assert(out[j - 8] == nxt[STATE_COL_OFFSET + j - 8]);
            assert(f_mul(1, f_sub(out[j - 8], out[j - 8])) == 0);
        }
    }
}

/// Completeness of the constraint system on boundary rows: at the end of
/// a cycle the round constraints degenerate, the selectors are free to
/// announce the next phase, and the node index may shed exactly one
/// binary bit — any transition of that shape satisfies every constraint.
pub proof fn lemma_constraints_vanish_on_boundary(cur: Seq<int>, nxt: Seq<int>, per: Seq<int>)
    requires
        cur.len() == TRACE_WIDTH,
        nxt.len() == TRACE_WIDTH,
        per.len() == NUM_PERIODIC_VALUES,
        per[0] == 0,
        per[1] == 1,
        forall|j: int| 0 <= j < 3 ==> cur[j] == 0 || cur[j] == 1,
        index_bit(cur, nxt) == 0 || index_bit(cur, nxt) == 1,
    ensures
        forall|j: int| 0 <= j < NUM_CONSTRAINTS ==> constraint_val(cur, nxt, per, j) == 0,
{
    assert(round_flag(per) == 0);
    assert forall|j: int| 0 <= j < NUM_CONSTRAINTS implies constraint_val(cur, nxt, per, j)
        == 0 by {
        if j < 3 {
            if cur[j] == 0 {
                assert(f_mul(0, f_sub(0, 1)) == 0);
            } else {
                assert(f_mul(1, f_sub(1, 1)) == 0);
            }
        } else if j == 7 {
            let b = index_bit(cur, nxt);
            if b == 0 {
                assert(f_mul(0, f_sub(0, 1)) == 0);
                assert(f_mul(1, f_mul(b, f_sub(b, 1))) == 0);
            } else {
                assert(f_mul(1, f_sub(1, 1)) == 0);
                assert(f_mul(1, f_mul(b, f_sub(b, 1))) == 0);
            }
        }
    }
}

/// Partial dot products of at least one term are canonical residues.
proof fn lemma_mds_dot_in_range(s: Seq<int>, i: int, n: nat)
    requires
        n >= 1,
    ensures
        0 <= crate::hasher::mds_dot(s, i, n) < MODULUS as int,
{
    lemma_f_ops_in_range(
        crate::hasher::mds_dot(s, i, (n - 1) as nat),
        f_mul(crate::hasher::mds_entry(i, n - 1), s[n - 1]),
        0,
    );
}

/// The field difference of two distinct canonical residues is nonzero.
proof fn lemma_f_sub_nonzero(a: int, b: int)
    requires
        0 <= a < MODULUS as int,
        0 <= b < MODULUS as int,
        a != b,
    ensures
        f_sub(a, b) != 0,
{
    let m = MODULUS as int;
    if a > b {
        vstd::arithmetic::div_mod::lemma_small_mod((a - b) as nat, MODULUS as nat);
    } else {
        assert((a - b) % m == (a - b + m) % m) by {
            vstd::arithmetic::div_mod::lemma_mod_add_multiples_vanish(a - b, m);
        }
        vstd::arithmetic::div_mod::lemma_small_mod((a - b + m) as nat, MODULUS as nat);
    }
}

/// Soundness of the round constraints against state tampering: on a round
/// row, if any single element of the next row's state differs from the
/// round function's output there, the constraint for that element is
/// nonzero.
pub proof fn lemma_round_constraint_detects_mutation(
    cur: Seq<int>,
    nxt: Seq<int>,
    per: Seq<int>,
    t: int,
)
    requires
        cur.len() == TRACE_WIDTH,
        nxt.len() == TRACE_WIDTH,
        per.len() == NUM_PERIODIC_VALUES,
        per[0] == 0,
        per[1] == 0,
        0 <= t < STATE_WIDTH,
        0 <= nxt[STATE_COL_OFFSET + t] < MODULUS as int,
        nxt[STATE_COL_OFFSET + t] != round_with_constants(
            state_of(cur),
            ark1_of(per),
            ark2_of(per),
        )[t],
    ensures
        constraint_val(cur, nxt, per, 8 + t) != 0,
{
    let m = MODULUS as int;
    let out = round_with_constants(state_of(cur), ark1_of(per), ark2_of(per));
    assert(round_flag(per) == 1);
    assert(out[t] == crate::hasher::mds_dot(
        crate::hasher::sbox_spec(
            crate::hasher::add_vec_spec(
                crate::hasher::mds_spec(
                    crate::hasher::sbox_spec(
                        crate::hasher::add_vec_spec(state_of(cur), ark1_of(per)),
                    ),
                ),
                ark2_of(per),
            ),
        ),
        t,
        STATE_WIDTH as nat,
    ));
    lemma_mds_dot_in_range(
        crate::hasher::sbox_spec(
            crate::hasher::add_vec_spec(
                crate::hasher::mds_spec(
                    crate::hasher::sbox_spec(
                        crate::hasher::add_vec_spec(state_of(cur), ark1_of(per)),
                    ),
                ),
                ark2_of(per),
            ),
        ),
        t,
        STATE_WIDTH as nat,
    );
    lemma_f_sub_nonzero(out[t], nxt[STATE_COL_OFFSET + t]);
    let d = f_sub(out[t], nxt[STATE_COL_OFFSET + t]);
    lemma_f_ops_in_range(out[t], nxt[STATE_COL_OFFSET + t], 0);
    vstd::arithmetic::div_mod::lemma_small_mod(d as nat, MODULUS as nat);
    assert(f_mul(1, d) == d % m);
}

} // verus!
