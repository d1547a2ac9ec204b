use trace_core::constraints::{
    enforce_constraints, get_test_periodic_values, linear_hash_selectors, EvaluationFrame,
    NODE_INDEX_COL_IDX, NUM_CONSTRAINTS, NUM_PERIODIC_VALUES, STATE_COL_OFFSET, TRACE_WIDTH,
};
use trace_core::field::Felt;
use trace_core::hasher::{apply_permutation, apply_round, merge, STATE_WIDTH};

/// A deterministic spread of state values standing in for a random state.
fn rand_state(seed: u64) -> Vec<Felt> {
    let mut s = seed;
    let mut out = Vec::new();
    for _ in 0..STATE_WIDTH {
        s = s.wrapping_mul(6364136223846793005).wrapping_add(1442695040888963407);
        out.push(Felt::new(s));
    }
    out
}

/// Returns the result of the hasher chiplet's constraint evaluations on
/// the provided frame starting at the specified row.
fn get_constraint_evaluation(frame: EvaluationFrame, cycle_row_num: usize) -> Vec<Felt> {
    let mut result = vec![Felt::zero(); NUM_CONSTRAINTS];
    let periodic_values = get_test_periodic_values(cycle_row_num);
    enforce_constraints(&frame, &periodic_values, &mut result, Felt::one());
    result
}

/// Returns a valid test frame for a transition where one round of the
/// permutation is computed.
fn get_test_hashing_frame(
    current_selectors: &[Felt; 3],
    next_selectors: &[Felt; 3],
    cycle_row_num: usize,
) -> EvaluationFrame {
    let mut current = vec![Felt::zero(); TRACE_WIDTH];
    let mut next = vec![Felt::zero(); TRACE_WIDTH];

    for j in 0..3 {
        current[j] = current_selectors[j];
        next[j] = next_selectors[j];
    }

    let mut state = rand_state(0x9e3779b97f4a7c15);
    for j in 0..STATE_WIDTH {
        current[STATE_COL_OFFSET + j] = state[j];
    }

    apply_round(&mut state, cycle_row_num);
    for j in 0..STATE_WIDTH {
        next[STATE_COL_OFFSET + j] = state[j];
    }

    current[NODE_INDEX_COL_IDX] = Felt::zero();
    next[NODE_INDEX_COL_IDX] = Felt::zero();

    EvaluationFrame::from_rows(current, next)
}

#[test]
fn hash_round() {
    let expected = vec![Felt::zero(); NUM_CONSTRAINTS];

    let cycle_row_num: usize = 3;
    let linear_hash = linear_hash_selectors();
    let current_selectors = [Felt::zero(), linear_hash[1], linear_hash[2]];
    let next_selectors = current_selectors;

    let frame = get_test_hashing_frame(&current_selectors, &next_selectors, cycle_row_num);
    let result = get_constraint_evaluation(frame, cycle_row_num);
    assert_eq!(expected, result);
}

#[test]
fn hash_round_detects_state_mutation() {
    let cycle_row_num: usize = 3;
    let linear_hash = linear_hash_selectors();
    let selectors = [Felt::zero(), linear_hash[1], linear_hash[2]];

    for t in 0..STATE_WIDTH {
        let mut current = vec![Felt::zero(); TRACE_WIDTH];
        let mut next = vec![Felt::zero(); TRACE_WIDTH];
        for j in 0..3 {
            current[j] = selectors[j];
            next[j] = selectors[j];
        }
        let mut state = rand_state(42);
        for j in 0..STATE_WIDTH {
            current[STATE_COL_OFFSET + j] = state[j];
        }
        apply_round(&mut state, cycle_row_num);
        for j in 0..STATE_WIDTH {
            next[STATE_COL_OFFSET + j] = state[j];
        }
        // tamper with one element of the next state
        next[STATE_COL_OFFSET + t] = next[STATE_COL_OFFSET + t].add(Felt::one());

        let frame = EvaluationFrame::from_rows(current, next);
        let result = get_constraint_evaluation(frame, cycle_row_num);
        assert_ne!(result[8 + t], Felt::zero());
    }
}

#[test]
fn periodic_values_mark_cycle_positions() {
    // a mid-cycle row carries no flags and the row's round constants
    let mid = get_test_periodic_values(3);
    assert_eq!(mid.len(), NUM_PERIODIC_VALUES);
    assert_eq!(mid[0], Felt::zero());
    assert_eq!(mid[1], Felt::zero());
    assert_eq!(mid[2], Felt::zero());
    assert_ne!(mid[3], Felt::zero());

    // the first row of a cycle raises the start flag
    let first = get_test_periodic_values(0);
    assert_eq!(
        (first[0], first[1], first[2]),
        (Felt::zero(), Felt::zero(), Felt::one())
    );

    // the boundary row raises its flag and zeroes the round constants
    let boundary = get_test_periodic_values(7);
    assert_eq!(
        (boundary[0], boundary[1], boundary[2]),
        (Felt::zero(), Felt::one(), Felt::zero())
    );
    for v in boundary.iter().skip(3) {
        assert_eq!(*v, Felt::zero());
    }

    // the padding position raises the remaining flag
    let padding = get_test_periodic_values(8);
    assert_eq!(
        (padding[0], padding[1], padding[2]),
        (Felt::one(), Felt::zero(), Felt::zero())
    );
}

#[test]
fn boundary_row_checks_index_bit() {
    // at the cycle boundary, the node index must shed one binary bit:
    // index 5 may become 2 (bit 1), and the constraints accept it
    let mut current = vec![Felt::zero(); TRACE_WIDTH];
    let mut next = vec![Felt::zero(); TRACE_WIDTH];
    current[NODE_INDEX_COL_IDX] = Felt::new(5);
    next[NODE_INDEX_COL_IDX] = Felt::new(2);
    let frame = EvaluationFrame::from_rows(current.clone(), next.clone());
    let result = get_constraint_evaluation(frame, 7);
    assert_eq!(result, vec![Felt::zero(); NUM_CONSTRAINTS]);

    // index 5 may not become 1 (it would shed the value 3)
    next[NODE_INDEX_COL_IDX] = Felt::new(1);
    let frame = EvaluationFrame::from_rows(current, next);
    let result = get_constraint_evaluation(frame, 7);
    assert_ne!(result[7], Felt::zero());
}

#[test]
fn permutation_composes_rounds() {
    // applying the seven rounds one by one is the full permutation
    let mut by_rounds = rand_state(7);
    for r in 0..7 {
        apply_round(&mut by_rounds, r);
    }
    let mut at_once = rand_state(7);
    apply_permutation(&mut at_once);
    assert_eq!(by_rounds, at_once);
}

#[test]
fn merge_differs_on_argument_order() {
    let a = [Felt::new(1), Felt::new(2), Felt::new(3), Felt::new(4)];
    let b = [Felt::new(5), Felt::new(6), Felt::new(7), Felt::new(8)];
    assert_ne!(merge(&a, &b), merge(&b, &a));
    assert_eq!(merge(&a, &b), merge(&a, &b));
}
