use trace_core::advice::AdviceProvider;
use trace_core::errors::ExecutionError;
use trace_core::field::{Felt, Word};

fn felt(x: u64) -> Felt {
    Felt::new(x)
}

fn word(a: u64, b: u64, c: u64, d: u64) -> Word {
    [felt(a), felt(b), felt(c), felt(d)]
}

fn empty_provider() -> AdviceProvider {
    AdviceProvider::new(Vec::new(), Vec::new(), Vec::new())
}

#[test]
fn map_tape_round_trip() {
    let mut provider = empty_provider();
    let key = word(1, 2, 3, 4);
    let values = vec![felt(10), felt(20), felt(30)];

    provider.insert_into_map(key, values).unwrap();
    provider.write_tape_from_map(key).unwrap();

    // the stored values come back in their original order
    assert_eq!(provider.read_tape().unwrap().as_int(), 10);
    assert_eq!(provider.read_tape().unwrap().as_int(), 20);
    assert_eq!(provider.read_tape().unwrap().as_int(), 30);

    // a second insertion under the same key is refused
    let err = provider.insert_into_map(key, vec![felt(7)]).unwrap_err();
    assert_eq!(err, ExecutionError::DuplicateAdviceKey(key));
}

#[test]
fn write_tape_from_map_unknown_key() {
    let mut provider = empty_provider();
    let key = word(9, 9, 9, 9);
    let err = provider.write_tape_from_map(key).unwrap_err();
    assert_eq!(err, ExecutionError::AdviceKeyNotFound(key));
}

#[test]
fn read_tape_empty_fails() {
    let mut provider = empty_provider();
    let err = provider.read_tape().unwrap_err();
    assert_eq!(err, ExecutionError::AdviceTapeReadFailed(0));

    // the failed read mutated nothing: the provider still works as new
    provider.write_tape(felt(5));
    assert_eq!(provider.read_tape().unwrap().as_int(), 5);
}

#[test]
fn read_tape_error_reports_clock() {
    let mut provider = empty_provider();
    provider.advance_clock();
    provider.advance_clock();
    let err = provider.read_tape().unwrap_err();
    assert_eq!(err, ExecutionError::AdviceTapeReadFailed(2));
}

#[test]
fn tape_reads_in_declared_order() {
    let mut provider = AdviceProvider::new(
        vec![felt(1), felt(2), felt(3)],
        Vec::new(),
        Vec::new(),
    );
    assert_eq!(provider.read_tape().unwrap().as_int(), 1);
    assert_eq!(provider.read_tape().unwrap().as_int(), 2);
    assert_eq!(provider.read_tape().unwrap().as_int(), 3);
    assert!(provider.read_tape().is_err());
}

#[test]
fn read_tapew_packs_a_word() {
    let mut provider = AdviceProvider::new(
        vec![felt(1), felt(2), felt(3), felt(4), felt(5)],
        Vec::new(),
        Vec::new(),
    );
    let w = provider.read_tapew().unwrap();
    assert_eq!(w, word(1, 2, 3, 4));
    assert_eq!(provider.read_tape().unwrap().as_int(), 5);
}

#[test]
fn read_tapew_needs_full_word() {
    let mut provider = AdviceProvider::new(
        vec![felt(1), felt(2), felt(3)],
        Vec::new(),
        Vec::new(),
    );
    let err = provider.read_tapew().unwrap_err();
    assert_eq!(err, ExecutionError::AdviceTapeReadFailed(0));
    // the three elements are still there
    assert_eq!(provider.read_tape().unwrap().as_int(), 1);
    assert_eq!(provider.read_tape().unwrap().as_int(), 2);
    assert_eq!(provider.read_tape().unwrap().as_int(), 3);
}

#[test]
fn read_tape_double_returns_two_words() {
    let mut provider = AdviceProvider::new(
        vec![
            felt(1),
            felt(2),
            felt(3),
            felt(4),
            felt(5),
            felt(6),
            felt(7),
            felt(8),
        ],
        Vec::new(),
        Vec::new(),
    );
    let [w0, w1] = provider.read_tape_double().unwrap();
    assert_eq!(w0, word(1, 2, 3, 4));
    assert_eq!(w1, word(5, 6, 7, 8));
}

#[test]
fn map_values_replay_after_reads() {
    let mut provider = empty_provider();
    provider.write_tape(felt(99));
    let key = word(5, 6, 7, 8);
    provider.insert_into_map(key, vec![felt(1), felt(2)]).unwrap();
    provider.write_tape_from_map(key).unwrap();
    // replayed values sit at the head, ahead of older tape content
    assert_eq!(provider.read_tape().unwrap().as_int(), 1);
    assert_eq!(provider.read_tape().unwrap().as_int(), 2);
    assert_eq!(provider.read_tape().unwrap().as_int(), 99);
}
