//! The operation-dispatch context around the advice provider: the operand
//! stack, context-local memory, and the injectors that move data from
//! stack and memory into the advice map.
//!
//! Injectors never change the operand stack or memory; they read from
//! them, derive a key — directly, or through the hasher — and insert the
//! gathered values into the advice map.

use crate::advice::AdviceProvider;
use crate::errors::ExecutionError;
use crate::field::{felt_vals, word_vals, Felt, Word};
use crate::hasher::{apply_permutation, merge_in_domain, merge_spec, permutation_spec, STATE_WIDTH};
use crate::overflow::{Stack, STACK_TOP_SIZE};
use vstd::prelude::*;

verus! {

/// The memory a sequence of writes denotes: a map from address to word
/// value, later writes winning.
pub open spec fn mem_map_of(entries: Seq<(u32, Word)>) -> Map<int, Seq<int>>
    decreases entries.len(),
{
    if entries.len() == 0 {
        Map::empty()
    } else {
        mem_map_of(entries.drop_last()).insert(
            entries.last().0 as int,
            word_vals(entries.last().1),
        )
    }
}

/// The word stored at an address, or the empty (all-zero) word.
pub open spec fn word_at(mem: Map<int, Seq<int>>, addr: int) -> Seq<int> {
    if mem.dom().contains(addr) {
        mem[addr]
    } else {
        seq![0, 0, 0, 0]
    }
}

/// The elements stored in `[start, end)`, word by word, absent addresses
/// reading as zero words.
pub open spec fn mem_range_values(mem: Map<int, Seq<int>>, start: int, end: int) -> Seq<int>
    decreases end - start,
{
    if start >= end {
        Seq::empty()
    } else {
        mem_range_values(mem, start, end - 1) + word_at(mem, end - 1)
    }
}

/// An address is mapped exactly when some write touched it.
proof fn lemma_mem_map_contains(entries: Seq<(u32, Word)>)
    ensures
        forall|a: int|
            #[trigger] mem_map_of(entries).dom().contains(a) <==> exists|i: int|
                0 <= i < entries.len() && (#[trigger] entries[i].0) as int == a,
    decreases entries.len(),
{
    if entries.len() > 0 {
        lemma_mem_map_contains(entries.drop_last());
        assert(mem_map_of(entries) == mem_map_of(entries.drop_last()).insert(
            entries.last().0 as int,
            word_vals(entries.last().1),
        ));
        assert forall|a: int| #[trigger]
            mem_map_of(entries).dom().contains(a) implies exists|i: int|
            0 <= i < entries.len() && (#[trigger] entries[i].0) as int == a by {
            if a == entries.last().0 as int {
                assert((entries[entries.len() - 1].0) as int == a);
            } else {
                assert(mem_map_of(entries.drop_last()).dom().contains(a));
                let i = choose|i: int|
                    0 <= i < entries.drop_last().len() && (#[trigger] entries.drop_last()[i].0)
                        as int == a;
                assert(entries.drop_last()[i] == entries[i]);
                assert((entries[i].0) as int == a);
            }
        }
        assert forall|a: int|
            exists|i: int|
                0 <= i < entries.len() && (#[trigger] entries[i].0) as int
                    == a implies #[trigger] mem_map_of(entries).dom().contains(a) by {
            let i = choose|i: int| 0 <= i < entries.len() && (#[trigger] entries[i].0) as int == a;
            if i < entries.len() - 1 {
                assert(entries.drop_last()[i] == entries[i]);
            }
        }
    }
}

/// The last write to an address decides what the memory holds there.
proof fn lemma_mem_map_last_match(entries: Seq<(u32, Word)>, i: int)
    requires
        0 <= i < entries.len(),
        forall|j: int| i < j < entries.len() ==> (#[trigger] entries[j].0) != entries[i].0,
    ensures
        mem_map_of(entries).dom().contains(entries[i].0 as int),
        mem_map_of(entries)[entries[i].0 as int] == word_vals(entries[i].1),
    decreases entries.len(),
{
    if i == entries.len() - 1 {
    } else {
        assert(entries.drop_last()[i] == entries[i]);
        assert forall|j: int|
            i < j < entries.drop_last().len() implies (#[trigger] entries.drop_last()[j].0)
            != entries.drop_last()[i].0 by {
            assert(entries.drop_last()[j] == entries[j]);
        }
        lemma_mem_map_last_match(entries.drop_last(), i);
        assert(entries.last().0 != entries[i].0);
    }
}

/// An execution context: the operand stack, this context's memory, and
/// the advice provider the injectors feed.
pub struct Process {
    stack: Stack,
    memory: Vec<(u32, Word)>,
    advice_provider: AdviceProvider,
}

impl Process {
    /// The visible operand-stack window, top first.
    pub closed spec fn stack_val(self) -> Seq<int> {
        self.stack.window_view()
    }

    /// This context's memory.
    pub closed spec fn memory_view(self) -> Map<int, Seq<int>> {
        mem_map_of(self.memory@)
    }

    /// The advice provider's current state.
    pub closed spec fn advice(self) -> AdviceProvider {
        self.advice_provider
    }

    /// The word at stack positions `4i..4i+4`, ordered so that its first
    /// element is the deepest of the four.
    pub open spec fn stack_word_view(self, i: int) -> Seq<int> {
        seq![
            self.stack_val()[4 * i + 3],
            self.stack_val()[4 * i + 2],
            self.stack_val()[4 * i + 1],
            self.stack_val()[4 * i],
        ]
    }

    /// The hasher state the stack's top twelve elements spell, deepest
    /// element first.
    pub open spec fn stack_hasher_state(self) -> Seq<int> {
        Seq::new(STATE_WIDTH as nat, |j: int| self.stack_val()[11 - j])
    }

    /// A process over a prepared stack and advice provider, with empty
    /// memory.
    pub fn new(stack: Stack, advice_provider: AdviceProvider) -> (r: Process)
        ensures
            r.stack_val() == stack.window_view(),
            r.memory_view() == Map::<int, Seq<int>>::empty(),
            r.advice() == advice_provider,
    {
        Process { stack, memory: Vec::new(), advice_provider }
    }

    /// Releases the advice provider, for inspection after a run.
    pub fn into_advice_provider(self) -> (r: AdviceProvider)
        ensures
            r == self.advice(),
    {
        let Process { stack: _, memory: _, advice_provider } = self;
        advice_provider
    }

    /// Writes a word to this context's memory.
    pub fn write_mem_value(&mut self, addr: u32, word: Word)
        ensures
            final(self).stack_val() == old(self).stack_val(),
            final(self).advice() == old(self).advice(),
            final(self).memory_view() == old(self).memory_view().insert(
                addr as int,
                word_vals(word),
            ),
    {
        let ghost old_entries = self.memory@;
        self.memory.push((addr, word));
        proof {
            assert(self.memory@.drop_last() =~= old_entries);
        }
    }

    /// Reads the word at `addr`, if any write has touched it.
    pub fn get_mem_value(&self, addr: u32) -> (r: Option<Word>)
        ensures
            r matches Some(w) ==> self.memory_view().dom().contains(addr as int) && word_vals(w)
                == self.memory_view()[addr as int],
            r is None ==> !self.memory_view().dom().contains(addr as int),
    {
        let n = self.memory.len();
        let mut i = n;
        while i > 0
            invariant
                n == self.memory@.len(),
                i <= n,
                forall|j: int| i <= j < n ==> (#[trigger] self.memory@[j].0) != addr,
            decreases i,
        {
            i = i - 1;
            if self.memory[i].0 == addr {
                proof {
                    lemma_mem_map_last_match(self.memory@, i as int);
                }
                return Some(self.memory[i].1);
            }
        }
        proof {
            lemma_mem_map_contains(self.memory@);
        }
        None
    }

    /// The stack element at position `idx` from the top of the window.
    pub fn get_stack(&self, idx: usize) -> (r: Felt)
        requires
            idx < STACK_TOP_SIZE,
        ensures
            r.val() == self.stack_val()[idx as int],
    {
        self.stack.get(idx)
    }

    /// The word at stack word position `word_idx`.
    pub fn get_stack_word(&self, word_idx: usize) -> (r: Word)
        requires
            word_idx < 4,
        ensures
            word_vals(r) == self.stack_word_view(word_idx as int),
    {
        let base = 4 * word_idx;
        let w: Word = [
            self.stack.get(base + 3),
            self.stack.get(base + 2),
            self.stack.get(base + 1),
            self.stack.get(base),
        ];
        proof {
            assert(word_vals(w) =~= self.stack_word_view(word_idx as int));
        }
        w
    }

    /// Reads a `(start_addr, end_addr)` pair from the given stack
    /// positions and checks that it is a valid memory range: both
    /// addresses below `2^32`, and the start not beyond the end. An empty
    /// range (equal addresses) is valid.
    pub fn get_mem_addr_range(&self, start_idx: usize, end_idx: usize) -> (r: Result<
        (u32, u32),
        ExecutionError,
    >)
        requires
            start_idx < STACK_TOP_SIZE,
            end_idx < STACK_TOP_SIZE,
        ensures
            0 <= self.stack_val()[start_idx as int] < crate::field::MODULUS,
            0 <= self.stack_val()[end_idx as int] < crate::field::MODULUS,
            ({
                let s = self.stack_val()[start_idx as int];
                let e = self.stack_val()[end_idx as int];
                &&& s > u32::MAX ==> r == Err::<(u32, u32), ExecutionError>(
                    ExecutionError::MemoryAddressOutOfBounds(s as u64),
                )
                &&& s <= u32::MAX && e > u32::MAX ==> r == Err::<(u32, u32), ExecutionError>(
                    ExecutionError::MemoryAddressOutOfBounds(e as u64),
                )
                &&& s <= u32::MAX && e <= u32::MAX && s > e ==> r == Err::<
                    (u32, u32),
                    ExecutionError,
                >(
                    ExecutionError::InvalidMemoryRange {
                        start_addr: s as u64,
                        end_addr: e as u64,
                    },
                )
                &&& s <= u32::MAX && e <= u32::MAX && s <= e ==> r == Ok::<
                    (u32, u32),
                    ExecutionError,
                >((s as u32, e as u32))
            }),
    {
        let start_addr = self.stack.get(start_idx).as_int();
        let end_addr = self.stack.get(end_idx).as_int();
        if start_addr > u32::MAX as u64 {
            return Err(ExecutionError::MemoryAddressOutOfBounds(start_addr));
        }
        if end_addr > u32::MAX as u64 {
            return Err(ExecutionError::MemoryAddressOutOfBounds(end_addr));
        }
        if start_addr > end_addr {
            return Err(ExecutionError::InvalidMemoryRange { start_addr, end_addr });
        }
        Ok((start_addr as u32, end_addr as u32))
    }

    /// Reads the words in `memory[start_addr..end_addr]` and inserts them
    /// into the advice map under the key word at the top of the stack. The
    /// addresses come from stack positions `4` and `5`; neither the stack
    /// nor memory changes.
    pub fn insert_mem_values_into_adv_map(&mut self) -> (r: Result<(), ExecutionError>)
        ensures
            final(self).stack_val() == old(self).stack_val(),
            final(self).memory_view() == old(self).memory_view(),
            final(self).advice().step_val() == old(self).advice().step_val(),
            final(self).advice().tape_view() == old(self).advice().tape_view(),
            final(self).advice().sets_view() == old(self).advice().sets_view(),
            ({
                let s = old(self).stack_val()[4];
                let e = old(self).stack_val()[5];
                let key = old(self).stack_word_view(0);
                &&& s > u32::MAX ==> r == Err::<(), ExecutionError>(
                    ExecutionError::MemoryAddressOutOfBounds(s as u64),
                ) && final(self).advice().map_view() == old(self).advice().map_view()
                &&& s <= u32::MAX && e > u32::MAX ==> r == Err::<(), ExecutionError>(
                    ExecutionError::MemoryAddressOutOfBounds(e as u64),
                ) && final(self).advice().map_view() == old(self).advice().map_view()
                &&& s <= u32::MAX && e <= u32::MAX && s > e ==> r == Err::<(), ExecutionError>(
                    ExecutionError::InvalidMemoryRange {
                        start_addr: s as u64,
                        end_addr: e as u64,
                    },
                ) && final(self).advice().map_view() == old(self).advice().map_view()
                &&& s <= u32::MAX && e <= u32::MAX && s <= e ==> {
                    let vals = mem_range_values(old(self).memory_view(), s, e);
                    &&& old(self).advice().map_view().dom().contains(key) ==> (r matches Err(err)
                        && (err matches ExecutionError::DuplicateAdviceKey(w) && word_vals(w)
                        == key)) && final(self).advice().map_view() == old(
                        self,
                    ).advice().map_view()
                    &&& !old(self).advice().map_view().dom().contains(key) ==> r == Ok::<
                        (),
                        ExecutionError,
                    >(()) && final(self).advice().map_view() == old(
                        self,
                    ).advice().map_view().insert(key, vals)
                }
            }),
    {
        let (start_addr, end_addr) = match self.get_mem_addr_range(4, 5) {
            Ok(range) => range,
            Err(e) => {
                return Err(e);
            },
        };
        let ghost mem = self.memory_view();
        let mut values: Vec<Felt> = Vec::new();
        let mut addr = start_addr;
        while addr < end_addr
            invariant
                start_addr <= addr <= end_addr,
                mem == self.memory_view(),
                felt_vals(values@) == mem_range_values(mem, start_addr as int, addr as int),
            decreases end_addr - addr,
        {
            let ghost prefix = felt_vals(values@);
            let word = match self.get_mem_value(addr) {
                Some(w) => w,
                None => [Felt::zero(), Felt::zero(), Felt::zero(), Felt::zero()],
            };
            proof {
                assert(word_vals(word) =~= word_at(mem, addr as int));
            }
            values.push(word[0]);
            values.push(word[1]);
            values.push(word[2]);
            values.push(word[3]);
            proof {
                assert(felt_vals(values@) =~= prefix + word_vals(word));
            }
            addr = addr + 1;
        }
        let key = self.get_stack_word(0);
        match self.advice_provider.insert_into_map(key, values) {
            Ok(()) => Ok(()),
            Err(e) => Err(e),
        }
    }

    /// Reads the top two stack words, hashes them under the given domain
    /// value to form a key, and inserts the two words into the advice map
    /// under that key.
    pub fn insert_hdword_into_adv_map(&mut self, domain: Felt) -> (r: Result<(), ExecutionError>)
        ensures
            final(self).stack_val() == old(self).stack_val(),
            final(self).memory_view() == old(self).memory_view(),
            final(self).advice().step_val() == old(self).advice().step_val(),
            final(self).advice().tape_view() == old(self).advice().tape_view(),
            final(self).advice().sets_view() == old(self).advice().sets_view(),
            ({
                let key = merge_spec(
                    old(self).stack_word_view(1),
                    old(self).stack_word_view(0),
                    domain.val(),
                );
                let vals = old(self).stack_word_view(1) + old(self).stack_word_view(0);
                &&& old(self).advice().map_view().dom().contains(key) ==> (r matches Err(err) && (
                err matches ExecutionError::DuplicateAdviceKey(w) && word_vals(w) == key)) && final(self).advice().map_view() == old(self).advice().map_view()
                &&& !old(self).advice().map_view().dom().contains(key) ==> r == Ok::<
                    (),
                    ExecutionError,
                >(()) && final(self).advice().map_view() == old(self).advice().map_view().insert(
                    key,
                    vals,
                )
            }),
    {
        let word0 = self.get_stack_word(0);
        let word1 = self.get_stack_word(1);
        let key = merge_in_domain(&word1, &word0, domain);
        let mut values: Vec<Felt> = Vec::new();
        values.push(word1[0]);
        values.push(word1[1]);
        values.push(word1[2]);
        values.push(word1[3]);
        values.push(word0[0]);
        values.push(word0[1]);
        values.push(word0[2]);
        values.push(word0[3]);
        proof {
            assert(felt_vals(values@) =~= old(self).stack_word_view(1) + old(
                self,
            ).stack_word_view(0));
        }
        self.advice_provider.insert_into_map(key, values)
    }

    /// Reads the top twelve stack elements as a hasher state, applies the
    /// permutation to derive a key, and inserts the state's rate portion
    /// (as it was before the permutation) into the advice map under that
    /// key.
    pub fn insert_hperm_into_adv_map(&mut self) -> (r: Result<(), ExecutionError>)
        ensures
            final(self).stack_val() == old(self).stack_val(),
            final(self).memory_view() == old(self).memory_view(),
            final(self).advice().step_val() == old(self).advice().step_val(),
            final(self).advice().tape_view() == old(self).advice().tape_view(),
            final(self).advice().sets_view() == old(self).advice().sets_view(),
            ({
                let state = old(self).stack_hasher_state();
                let key = permutation_spec(state).subrange(
                    crate::hasher::DIGEST_START as int,
                    crate::hasher::DIGEST_END as int,
                );
                let vals = state.subrange(
                    crate::hasher::RATE_START as int,
                    crate::hasher::RATE_END as int,
                );
                &&& old(self).advice().map_view().dom().contains(key) ==> (r matches Err(err) && (
                err matches ExecutionError::DuplicateAdviceKey(w) && word_vals(w) == key)) && final(self).advice().map_view() == old(self).advice().map_view()
                &&& !old(self).advice().map_view().dom().contains(key) ==> r == Ok::<
                    (),
                    ExecutionError,
                >(()) && final(self).advice().map_view() == old(self).advice().map_view().insert(
                    key,
                    vals,
                )
            }),
    {
        let mut state: Vec<Felt> = Vec::new();
        for j in 0..STATE_WIDTH
            invariant
                state@.len() == j,
                forall|k: int| 0 <= k < j ==> state@[k].val() == self.stack_val()[11 - k],
        {
            state.push(self.stack.get(11 - j));
        }
        proof {
            assert(felt_vals(state@) =~= old(self).stack_hasher_state());
        }
        let mut values: Vec<Felt> = Vec::new();
        let mut j = crate::hasher::RATE_START;
        while j < crate::hasher::RATE_END
            invariant
                crate::hasher::RATE_START <= j <= crate::hasher::RATE_END,
                state@.len() == STATE_WIDTH,
                felt_vals(state@) == old(self).stack_hasher_state(),
                values@.len() == j - crate::hasher::RATE_START,
                forall|k: int|
                    0 <= k < values@.len() ==> (#[trigger] values@[k]).val() == old(
                        self,
                    ).stack_hasher_state()[crate::hasher::RATE_START + k],
            decreases crate::hasher::RATE_END - j,
        {
            values.push(state[j]);
            j = j + 1;
        }
        proof {
            assert(felt_vals(values@) =~= old(self).stack_hasher_state().subrange(
                crate::hasher::RATE_START as int,
                crate::hasher::RATE_END as int,
            ));
        }
        apply_permutation(&mut state);
        let key: Word = [state[4], state[5], state[6], state[7]];
        proof {
            assert(word_vals(key) =~= permutation_spec(old(self).stack_hasher_state()).subrange(
                crate::hasher::DIGEST_START as int,
                crate::hasher::DIGEST_END as int,
            ));
        }
        self.advice_provider.insert_into_map(key, values)
    }
}

} // verus!
