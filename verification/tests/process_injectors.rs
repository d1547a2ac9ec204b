use trace_core::advice::AdviceProvider;
use trace_core::errors::ExecutionError;
use trace_core::field::{Felt, Word};
use trace_core::hasher::{apply_permutation, merge_in_domain};
use trace_core::overflow::{Stack, STACK_TOP_SIZE};
use trace_core::process::Process;

fn felt(x: u64) -> Felt {
    Felt::new(x)
}

fn word(a: u64, b: u64, c: u64, d: u64) -> Word {
    [felt(a), felt(b), felt(c), felt(d)]
}

/// A stack whose visible window reads `wanted[i]` at position `i`.
fn stack_with(wanted: &[u64; STACK_TOP_SIZE]) -> Stack {
    let mut stack = Stack::new();
    for &v in wanted.iter().rev() {
        stack.push(felt(v));
        stack.advance_clock();
    }
    stack
}

fn process_with(wanted: &[u64; STACK_TOP_SIZE]) -> Process {
    Process::new(
        stack_with(wanted),
        AdviceProvider::new(Vec::new(), Vec::new(), Vec::new()),
    )
}

#[test]
fn mem_addr_range_rejects_reversed_range() {
    let mut wanted = [0u64; STACK_TOP_SIZE];
    wanted[4] = 10;
    wanted[5] = 5;
    let process = process_with(&wanted);
    let err = process.get_mem_addr_range(4, 5).unwrap_err();
    assert_eq!(
        err,
        ExecutionError::InvalidMemoryRange { start_addr: 10, end_addr: 5 }
    );
}

#[test]
fn mem_addr_range_rejects_out_of_bounds_addresses() {
    let mut wanted = [0u64; STACK_TOP_SIZE];
    wanted[4] = 1 << 32;
    wanted[5] = 5;
    let process = process_with(&wanted);
    let err = process.get_mem_addr_range(4, 5).unwrap_err();
    assert_eq!(err, ExecutionError::MemoryAddressOutOfBounds(1 << 32));

    let mut wanted = [0u64; STACK_TOP_SIZE];
    wanted[4] = 5;
    wanted[5] = (1 << 32) + 7;
    let process = process_with(&wanted);
    let err = process.get_mem_addr_range(4, 5).unwrap_err();
    assert_eq!(err, ExecutionError::MemoryAddressOutOfBounds((1 << 32) + 7));
}

#[test]
fn mem_addr_range_accepts_empty_range() {
    let mut wanted = [0u64; STACK_TOP_SIZE];
    wanted[4] = 9;
    wanted[5] = 9;
    let process = process_with(&wanted);
    assert_eq!(process.get_mem_addr_range(4, 5).unwrap(), (9, 9));
}

#[test]
fn insert_mem_values_reads_the_address_range() {
    // key word at the stack top, range [1, 3) at positions 4 and 5
    let mut wanted = [0u64; STACK_TOP_SIZE];
    wanted[0] = 104;
    wanted[1] = 103;
    wanted[2] = 102;
    wanted[3] = 101;
    wanted[4] = 1;
    wanted[5] = 3;
    let mut process = process_with(&wanted);
    process.write_mem_value(1, word(11, 12, 13, 14));
    process.write_mem_value(2, word(21, 22, 23, 24));

    process.insert_mem_values_into_adv_map().unwrap();

    // the key is the top stack word: [s3, s2, s1, s0]
    let key = word(101, 102, 103, 104);
    let mut provider = process.into_advice_provider();
    provider.write_tape_from_map(key).unwrap();
    for expected in [11, 12, 13, 14, 21, 22, 23, 24] {
        assert_eq!(provider.read_tape().unwrap().as_int(), expected);
    }
}

#[test]
fn insert_mem_values_defaults_untouched_addresses_to_zero() {
    let mut wanted = [0u64; STACK_TOP_SIZE];
    wanted[3] = 7;
    wanted[4] = 1;
    wanted[5] = 3;
    let mut process = process_with(&wanted);
    // only address 2 is written; address 1 reads as the zero word
    process.write_mem_value(2, word(5, 6, 7, 8));
    process.insert_mem_values_into_adv_map().unwrap();

    let key = word(7, 0, 0, 0);
    let mut provider = process.into_advice_provider();
    provider.write_tape_from_map(key).unwrap();
    for expected in [0, 0, 0, 0, 5, 6, 7, 8] {
        assert_eq!(provider.read_tape().unwrap().as_int(), expected);
    }
}

#[test]
fn insert_mem_values_rejects_duplicate_key() {
    let wanted = [0u64; STACK_TOP_SIZE];
    let mut process = process_with(&wanted);
    process.insert_mem_values_into_adv_map().unwrap();
    let err = process.insert_mem_values_into_adv_map().unwrap_err();
    assert_eq!(err, ExecutionError::DuplicateAdviceKey(word(0, 0, 0, 0)));
}

#[test]
fn insert_hdword_keys_by_word_hash() {
    let mut wanted = [0u64; STACK_TOP_SIZE];
    // word0 at positions 0..4, word1 at positions 4..8
    wanted[0] = 4;
    wanted[1] = 3;
    wanted[2] = 2;
    wanted[3] = 1;
    wanted[4] = 8;
    wanted[5] = 7;
    wanted[6] = 6;
    wanted[7] = 5;
    let mut process = process_with(&wanted);
    let domain = felt(9);
    process.insert_hdword_into_adv_map(domain).unwrap();

    let word0 = word(1, 2, 3, 4);
    let word1 = word(5, 6, 7, 8);
    let key = merge_in_domain(&word1, &word0, domain);
    let mut provider = process.into_advice_provider();
    provider.write_tape_from_map(key).unwrap();
    for expected in [5, 6, 7, 8, 1, 2, 3, 4] {
        assert_eq!(provider.read_tape().unwrap().as_int(), expected);
    }
}

#[test]
fn insert_hperm_keys_by_state_digest() {
    let mut wanted = [0u64; STACK_TOP_SIZE];
    for i in 0..12 {
        wanted[i] = 100 + i as u64;
    }
    let mut process = process_with(&wanted);
    process.insert_hperm_into_adv_map().unwrap();

    // the state reads the stack deepest-first: state[j] = position 11 - j
    let mut state: Vec<Felt> = (0..12).map(|j| felt(100 + (11 - j) as u64)).collect();
    let rate: Vec<u64> = state[4..12].iter().map(|f| f.as_int()).collect();
    apply_permutation(&mut state);
    let key: Word = [state[4], state[5], state[6], state[7]];

    let mut provider = process.into_advice_provider();
    provider.write_tape_from_map(key).unwrap();
    for expected in rate {
        assert_eq!(provider.read_tape().unwrap().as_int(), expected);
    }
}
