//! The hasher's cryptographic permutation.
//!
//! The permutation works on a state of [`STATE_WIDTH`] field elements and
//! consists of [`NUM_ROUNDS`] rounds. One round applies, in order: an additive
//! round-constant vector, the power-map S-box, the circulant linear layer, a
//! second additive round-constant vector, the S-box again, and the linear
//! layer again. The same round function is recomputed inside the chiplet's
//! transition constraints, so both sides share the spec-level model defined
//! here.
//!
//! Round constants are successive powers of the generator `7` of the field's
//! multiplicative group; the linear layer is a fixed circulant matrix.

use crate::field::{f_add, f_mul, f_pow, felt_vals, word_vals, Felt, Word};
use vstd::prelude::*;

verus! {

/// Number of field elements in the permutation state.
pub const STATE_WIDTH: usize = 12;

/// Number of rounds in one permutation.
pub const NUM_ROUNDS: usize = 7;

/// Number of trace rows one permutation occupies: the rounds plus one
/// boundary row.
pub const HASH_CYCLE_LEN: usize = 8;

/// First state index of the rate portion of the state.
pub const RATE_START: usize = 4;

/// One past the last state index of the rate portion.
pub const RATE_END: usize = 12;

/// First state index of the digest within the rate.
pub const DIGEST_START: usize = 4;

/// One past the last state index of the digest.
pub const DIGEST_END: usize = 8;

/// The exponent of the S-box power map.
pub const SBOX_EXP: u64 = 7;

/// The generator the round constants are derived from.
pub const CONSTANT_GENERATOR: u64 = 7;

// SPECIFICATION MODEL
// ------------------------------------------------------------------------

/// The S-box applied to one value.
pub open spec fn sbox_val(x: int) -> int {
    f_pow(x, SBOX_EXP as nat)
}

/// The S-box layer: the power map applied to every state element.
pub open spec fn sbox_spec(s: Seq<int>) -> Seq<int> {
    Seq::new(s.len(), |i: int| sbox_val(s[i]))
}

/// Value of the circulant row at offset `k` (for `0 <= k < 12`).
pub open spec fn mds_row_val(k: int) -> int {
    if k == 0 {
        7
    } else if k == 1 {
        23
    } else if k == 2 {
        8
    } else if k == 3 {
        26
    } else if k == 4 {
        13
    } else if k == 5 {
        10
    } else if k == 6 {
        9
    } else if k == 7 {
        7
    } else if k == 8 {
        6
    } else if k == 9 {
        22
    } else if k == 10 {
        21
    } else {
        8
    }
}

/// Entry `(i, j)` of the linear-layer matrix: the circulant row shifted by
/// the row index.
pub open spec fn mds_entry(i: int, j: int) -> int {
    mds_row_val((j - i) % (STATE_WIDTH as int))
}

/// Partial dot product of matrix row `i` with the state: the sum over the
/// first `n` columns, folded through field addition.
pub open spec fn mds_dot(s: Seq<int>, i: int, n: nat) -> int
    decreases n,
{
    if n == 0 {
        0
    } else {
        f_add(mds_dot(s, i, (n - 1) as nat), f_mul(mds_entry(i, n - 1), s[n - 1]))
    }
}

/// The linear layer: every output element is a row of the circulant matrix
/// dotted with the state.
pub open spec fn mds_spec(s: Seq<int>) -> Seq<int> {
    Seq::new(s.len(), |i: int| mds_dot(s, i, STATE_WIDTH as nat))
}

/// Elementwise addition of a round-constant vector.
pub open spec fn add_vec_spec(s: Seq<int>, k: Seq<int>) -> Seq<int> {
    Seq::new(s.len(), |i: int| f_add(s[i], k[i]))
}

/// The first round-constant vector of round `r`, element `i`.
pub open spec fn ark1_val(r: int, i: int) -> int {
    f_pow(CONSTANT_GENERATOR as int, (1 + r * 24 + i) as nat)
}

/// The second round-constant vector of round `r`, element `i`.
pub open spec fn ark2_val(r: int, i: int) -> int {
    f_pow(CONSTANT_GENERATOR as int, (13 + r * 24 + i) as nat)
}

/// The first round-constant vector of round `r` as a sequence.
pub open spec fn ark1_spec(r: int) -> Seq<int> {
    Seq::new(STATE_WIDTH as nat, |i: int| ark1_val(r, i))
}

/// The second round-constant vector of round `r` as a sequence.
pub open spec fn ark2_spec(r: int) -> Seq<int> {
    Seq::new(STATE_WIDTH as nat, |i: int| ark2_val(r, i))
}

/// One full round with explicit round-constant vectors: add `ark1`, S-box,
/// linear layer, add `ark2`, S-box, linear layer.
pub open spec fn round_with_constants(s: Seq<int>, ark1: Seq<int>, ark2: Seq<int>) -> Seq<int> {
    mds_spec(sbox_spec(add_vec_spec(mds_spec(sbox_spec(add_vec_spec(s, ark1))), ark2)))
}

/// Round `r` of the permutation applied to a state.
pub open spec fn round_spec(s: Seq<int>, r: int) -> Seq<int> {
    round_with_constants(s, ark1_spec(r), ark2_spec(r))
}

/// The first `n` rounds of the permutation.
pub open spec fn rounds_spec(s: Seq<int>, n: nat) -> Seq<int>
    decreases n,
{
    if n == 0 {
        s
    } else {
        round_spec(rounds_spec(s, (n - 1) as nat), n - 1)
    }
}

/// The full permutation.
pub open spec fn permutation_spec(s: Seq<int>) -> Seq<int> {
    rounds_spec(s, NUM_ROUNDS as nat)
}

/// The state from which two words are compressed: a capacity holding the
/// domain value followed by the two words as the rate.
pub open spec fn merge_state_spec(a: Seq<int>, b: Seq<int>, domain: int) -> Seq<int> {
    seq![domain, 0, 0, 0] + a + b
}

/// Two-to-one compression of words `a` and `b` under a domain value: the
/// digest portion of the permuted merge state.
pub open spec fn merge_spec(a: Seq<int>, b: Seq<int>, domain: int) -> Seq<int> {
    permutation_spec(merge_state_spec(a, b, domain)).subrange(
        DIGEST_START as int,
        DIGEST_END as int,
    )
}

// EXECUTABLE PERMUTATION
// ------------------------------------------------------------------------

/// Entry `(i, j)` of the linear-layer matrix.
fn mds_coeff(i: usize, j: usize) -> (r: Felt)
    requires
        i < STATE_WIDTH,
        j < STATE_WIDTH,
    ensures
        r.val() == mds_entry(i as int, j as int),
{
    let k: usize = (j + STATE_WIDTH - i) % STATE_WIDTH;
    proof {
        assert(k as int == (j - i) % (STATE_WIDTH as int));
    }
    let c: u64 = if k == 0 {
        7
    } else if k == 1 {
        23
    } else if k == 2 {
        8
    } else if k == 3 {
        26
    } else if k == 4 {
        13
    } else if k == 5 {
        10
    } else if k == 6 {
        9
    } else if k == 7 {
        7
    } else if k == 8 {
        6
    } else if k == 9 {
        22
    } else if k == 10 {
        21
    } else {
        8
    };
    Felt::new(c)
}

/// Element `i` of the first round-constant vector of round `r`.
fn ark1_coeff(r: usize, i: usize) -> (c: Felt)
    requires
        r < NUM_ROUNDS,
        i < STATE_WIDTH,
    ensures
        c.val() == ark1_val(r as int, i as int),
{
    Felt::new(CONSTANT_GENERATOR).pow(1 + (r as u64) * 24 + (i as u64))
}

/// Element `i` of the second round-constant vector of round `r`.
fn ark2_coeff(r: usize, i: usize) -> (c: Felt)
    requires
        r < NUM_ROUNDS,
        i < STATE_WIDTH,
    ensures
        c.val() == ark2_val(r as int, i as int),
{
    Felt::new(CONSTANT_GENERATOR).pow(13 + (r as u64) * 24 + (i as u64))
}

/// The first round-constant vector of round `r`.
pub fn ark1_row(r: usize) -> (row: Vec<Felt>)
    requires
        r < NUM_ROUNDS,
    ensures
        row@.len() == STATE_WIDTH,
        felt_vals(row@) == ark1_spec(r as int),
{
    let mut row: Vec<Felt> = Vec::new();
    for i in 0..STATE_WIDTH
        invariant
            r < NUM_ROUNDS,
            row@.len() == i,
            forall|k: int| 0 <= k < i ==> row@[k].val() == ark1_val(r as int, k),
    {
        row.push(ark1_coeff(r, i));
    }
    proof {
        assert(felt_vals(row@) =~= ark1_spec(r as int));
    }
    row
}

/// The second round-constant vector of round `r`.
pub fn ark2_row(r: usize) -> (row: Vec<Felt>)
    requires
        r < NUM_ROUNDS,
    ensures
        row@.len() == STATE_WIDTH,
        felt_vals(row@) == ark2_spec(r as int),
{
    let mut row: Vec<Felt> = Vec::new();
    for i in 0..STATE_WIDTH
        invariant
            r < NUM_ROUNDS,
            row@.len() == i,
            forall|k: int| 0 <= k < i ==> row@[k].val() == ark2_val(r as int, k),
    {
        row.push(ark2_coeff(r, i));
    }
    proof {
        assert(felt_vals(row@) =~= ark2_spec(r as int));
    }
    row
}

/// Applies the S-box layer in place.
pub(crate) fn apply_sbox(state: &mut Vec<Felt>)
    requires
        old(state)@.len() == STATE_WIDTH,
    ensures
        final(state)@.len() == STATE_WIDTH,
        felt_vals(final(state)@) == sbox_spec(felt_vals(old(state)@)),
{
    let ghost orig = felt_vals(state@);
    for i in 0..STATE_WIDTH
        invariant
            state@.len() == STATE_WIDTH,
            orig.len() == STATE_WIDTH,
            forall|k: int| 0 <= k < i ==> state@[k].val() == sbox_val(orig[k]),
            forall|k: int| i <= k < STATE_WIDTH ==> state@[k].val() == orig[k],
    {
        state[i] = state[i].pow(SBOX_EXP);
    }
    proof {
        assert(felt_vals(state@) =~= sbox_spec(orig));
    }
}

/// Applies the linear layer in place.
pub(crate) fn apply_mds(state: &mut Vec<Felt>)
    requires
        old(state)@.len() == STATE_WIDTH,
    ensures
        final(state)@.len() == STATE_WIDTH,
        felt_vals(final(state)@) == mds_spec(felt_vals(old(state)@)),
{
    let ghost orig = felt_vals(state@);
    let mut result: Vec<Felt> = Vec::new();
    for i in 0..STATE_WIDTH
        invariant
            state@.len() == STATE_WIDTH,
            orig == felt_vals(state@),
            orig.len() == STATE_WIDTH,
            result@.len() == i,
            forall|k: int| 0 <= k < i ==> result@[k].val() == mds_dot(orig, k, STATE_WIDTH as nat),
    {
        let mut acc = Felt::zero();
        for j in 0..STATE_WIDTH
            invariant
                state@.len() == STATE_WIDTH,
                orig == felt_vals(state@),
                orig.len() == STATE_WIDTH,
                i < STATE_WIDTH,
                acc.val() == mds_dot(orig, i as int, j as nat),
        {
            acc = acc.add(mds_coeff(i, j).mul(state[j]));
        }
        result.push(acc);
    }
    *state = result;
    proof {
        assert(felt_vals(state@) =~= mds_spec(orig));
    }
}

/// Adds a round-constant vector to the state in place.
pub(crate) fn add_constants(state: &mut Vec<Felt>, k: &Vec<Felt>)
    requires
        old(state)@.len() == STATE_WIDTH,
        k@.len() == STATE_WIDTH,
    ensures
        final(state)@.len() == STATE_WIDTH,
        felt_vals(final(state)@) == add_vec_spec(felt_vals(old(state)@), felt_vals(k@)),
{
    let ghost orig = felt_vals(state@);
    for i in 0..STATE_WIDTH
        invariant
            state@.len() == STATE_WIDTH,
            k@.len() == STATE_WIDTH,
            orig.len() == STATE_WIDTH,
            forall|m: int| 0 <= m < i ==> state@[m].val() == f_add(orig[m], k@[m].val()),
            forall|m: int| i <= m < STATE_WIDTH ==> state@[m].val() == orig[m],
    {
        state[i] = state[i].add(k[i]);
    }
    proof {
        assert(felt_vals(state@) =~= add_vec_spec(orig, felt_vals(k@)));
    }
}

/// Applies round `round` of the permutation to the state.
pub fn apply_round(state: &mut Vec<Felt>, round: usize)
    requires
        old(state)@.len() == STATE_WIDTH,
        round < NUM_ROUNDS,
    ensures
        final(state)@.len() == STATE_WIDTH,
        felt_vals(final(state)@) == round_spec(felt_vals(old(state)@), round as int),
{
    let ark1 = ark1_row(round);
    let ark2 = ark2_row(round);
    add_constants(state, &ark1);
    apply_sbox(state);
    apply_mds(state);
    add_constants(state, &ark2);
    apply_sbox(state);
    apply_mds(state);
}

/// Applies the full permutation to the state.
pub fn apply_permutation(state: &mut Vec<Felt>)
    requires
        old(state)@.len() == STATE_WIDTH,
    ensures
        final(state)@.len() == STATE_WIDTH,
        felt_vals(final(state)@) == permutation_spec(felt_vals(old(state)@)),
{
    for round in 0..NUM_ROUNDS
        invariant
            state@.len() == STATE_WIDTH,
            felt_vals(state@) == rounds_spec(felt_vals(old(state)@), round as nat),
    {
        apply_round(state, round);
    }
}

/// Compresses two words into one under the given domain value.
pub fn merge_in_domain(a: &Word, b: &Word, domain: Felt) -> (r: Word)
    ensures
        word_vals(r) == merge_spec(word_vals(*a), word_vals(*b), domain.val()),
{
    let mut state: Vec<Felt> = Vec::new();
    state.push(domain);
    state.push(Felt::zero());
    state.push(Felt::zero());
    state.push(Felt::zero());
    state.push(a[0]);
    state.push(a[1]);
    state.push(a[2]);
    state.push(a[3]);
    state.push(b[0]);
    state.push(b[1]);
    state.push(b[2]);
    state.push(b[3]);
    proof {
        assert(felt_vals(state@) =~= merge_state_spec(
            word_vals(*a),
            word_vals(*b),
            domain.val(),
        ));
    }
    apply_permutation(&mut state);
    let r: Word = [state[4], state[5], state[6], state[7]];
    proof {
        assert(word_vals(r) =~= merge_spec(word_vals(*a), word_vals(*b), domain.val()));
    }
    r
}

/// Compresses two words into one, with a zero domain.
pub fn merge(a: &Word, b: &Word) -> (r: Word)
    ensures
        word_vals(r) == merge_spec(word_vals(*a), word_vals(*b), 0),
{
    merge_in_domain(a, b, Felt::zero())
}

} // verus!
