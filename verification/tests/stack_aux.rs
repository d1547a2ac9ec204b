use trace_core::aux_trace::{AuxTraceBuilder, MainTrace};
use trace_core::errors::ExecutionError;
use trace_core::field::Felt;
use trace_core::overflow::{OverflowTableRow, Stack, STACK_TOP_SIZE};

fn felt(x: u64) -> Felt {
    Felt::new(x)
}

fn felts(xs: &[u64]) -> Vec<Felt> {
    xs.iter().map(|&x| felt(x)).collect()
}

#[test]
fn stack_push_pop_round_trip() {
    let mut stack = Stack::new();
    stack.push(felt(1));
    stack.advance_clock();
    stack.push(felt(2));
    stack.advance_clock();
    stack.push(felt(3));
    assert_eq!(stack.get(0).as_int(), 3);
    assert_eq!(stack.get(1).as_int(), 2);
    assert_eq!(stack.get(2).as_int(), 1);
    assert_eq!(stack.pop().as_int(), 3);
    assert_eq!(stack.pop().as_int(), 2);
    assert_eq!(stack.pop().as_int(), 1);
    // below the initial depth the window pads with zeros
    assert_eq!(stack.pop().as_int(), 0);
}

#[test]
fn stack_window_crossing_preserves_deep_values() {
    let mut stack = Stack::new();
    // push one more value than the window holds: the first one crosses
    // into the overflow table and must come back on the way down
    for i in 1..=(STACK_TOP_SIZE as u64 + 1) {
        stack.push(felt(i));
        stack.advance_clock();
    }
    for i in (1..=(STACK_TOP_SIZE as u64 + 1)).rev() {
        assert_eq!(stack.pop().as_int(), i);
    }
}

#[test]
fn stack_return_discipline() {
    let mut stack = Stack::new();
    let frame = stack.start_context();
    stack.push(felt(9));
    let err = stack.restore_context(frame).unwrap_err();
    assert_eq!(err, ExecutionError::InvalidStackDepthOnReturn(STACK_TOP_SIZE + 1));
    stack.pop();
    assert!(stack.restore_context(frame).is_ok());
}

#[test]
fn row_encoding_is_linear_in_challenges() {
    let row = OverflowTableRow::new(felt(3), felt(5), felt(7));
    let alphas = felts(&[11, 13, 17, 19]);
    // alpha0 + alpha1*clk + alpha2*value + alpha3*prev
    let expected = 11 + 13 * 3 + 17 * 5 + 19 * 7;
    assert_eq!(row.to_value(&alphas).as_int(), expected);
}

#[test]
fn init_responses_multiplies_initial_rows() {
    let rows = vec![
        OverflowTableRow::new(felt(1), felt(2), felt(0)),
        OverflowTableRow::new(felt(2), felt(3), felt(1)),
    ];
    let alphas = felts(&[2, 3, 5, 7]);
    let v0 = rows[0].to_value(&alphas);
    let v1 = rows[1].to_value(&alphas);
    let trace = MainTrace::new(
        felts(&[0]),
        felts(&[0]),
        felts(&[0]),
        vec![false],
        vec![false],
    );
    let builder = AuxTraceBuilder::new(rows, 2);
    assert_eq!(builder.init_responses(&trace, &alphas), v0.mul(v1));
}

/// A small trace: a right shift at rows 0 and 1, nothing at row 2, and a
/// left shift out of a non-empty overflow table at row 3.
fn sample_trace() -> MainTrace {
    MainTrace::new(
        felts(&[0, 1, 2, 3, 4]),
        felts(&[10, 11, 12, 13, 11]),
        felts(&[0, 0, 1, 1, 0]),
        vec![false, false, false, true, false],
        vec![true, true, false, false, false],
    )
}

#[test]
fn aux_column_follows_event_factors() {
    let trace = sample_trace();
    let alphas = felts(&[2, 3, 5, 7]);
    let builder = AuxTraceBuilder::new(Vec::new(), 0);
    let columns = builder.build_aux_columns(&trace, &alphas);
    assert_eq!(columns.len(), 1);
    let p1 = &columns[0];
    assert_eq!(p1.len(), 5);
    // empty initial table: the column starts at one
    assert_eq!(p1[0], Felt::one());
    // each step multiplies the response and divides by the request
    for i in 0..4 {
        let response = builder.get_responses_at(&trace, &alphas, i);
        let request = builder.get_requests_at(&trace, &alphas, i);
        assert_eq!(p1[i + 1], p1[i].mul(response.mul(request.inv())));
    }
}

#[test]
fn aux_column_final_value_replays_event_log() {
    let trace = sample_trace();
    let alphas = felts(&[2, 3, 5, 7]);
    let builder = AuxTraceBuilder::new(Vec::new(), 0);
    let columns = builder.build_aux_columns(&trace, &alphas);
    let p1 = &columns[0];
    // replaying the event log outside the trace gives the final value
    let mut expected = Felt::one();
    for i in 0..4 {
        let response = builder.get_responses_at(&trace, &alphas, i);
        let request = builder.get_requests_at(&trace, &alphas, i);
        expected = expected.mul(response.mul(request.inv()));
    }
    assert_eq!(p1[4], expected);
}

#[test]
fn neutral_rows_contribute_factor_one() {
    let trace = sample_trace();
    let alphas = felts(&[2, 3, 5, 7]);
    let builder = AuxTraceBuilder::new(Vec::new(), 0);
    // row 2 neither shifts left into a non-empty table nor shifts right
    assert_eq!(builder.get_responses_at(&trace, &alphas, 2), Felt::one());
    assert_eq!(builder.get_requests_at(&trace, &alphas, 2), Felt::one());
    // row 3 removes a row: its request rebuilds the removed row from the
    // adjacent columns
    let removed = OverflowTableRow::new(felt(1), felt(11), felt(0));
    assert_eq!(builder.get_requests_at(&trace, &alphas, 3), removed.to_value(&alphas));
}

#[test]
fn field_inverse_cancels() {
    // the request factors divide out: multiplying by a value and by its
    // inverse is the identity
    let x = felt(123456789);
    assert_eq!(x.mul(x.inv()), Felt::one());
    assert_eq!(Felt::one().inv(), Felt::one());
    let y = felt(0xfffffffe00000002);
    assert_eq!(y.mul(y.inv()), Felt::one());
}
