//! The advice provider: the oracle that supplies and records
//! nondeterministic witness data during execution.
//!
//! Three shapes of data share one provider: a tape read from its head
//! (last-in, first-out, read-once), a key→values map addressed by words,
//! and a collection of Merkle-tree views addressed by their roots. Every
//! operation's contract is stated over the mathematical views of those three
//! stores; failed operations leave the provider unchanged.

use crate::errors::{AdviceSetError, ExecutionError};
use crate::field::{felt_vals, word_vals, Felt, Word};
use crate::field::word_eq;
use crate::merkle::{MerkleTree, MAX_TREE_DEPTH};
use vstd::arithmetic::power2::pow2;
use vstd::prelude::*;

verus! {

/// The map a sequence of keyed value lists denotes: later entries win,
/// though entries with distinct keys never overlap.
pub open spec fn advice_map_of(entries: Seq<(Word, Vec<Felt>)>) -> Map<Seq<int>, Seq<int>>
    decreases entries.len(),
{
    if entries.len() == 0 {
        Map::empty()
    } else {
        advice_map_of(entries.drop_last()).insert(
            word_vals(entries.last().0),
            felt_vals(entries.last().1@),
        )
    }
}

/// The map a sequence of root-keyed trees denotes.
pub open spec fn advice_sets_of(entries: Seq<(Word, MerkleTree)>) -> Map<Seq<int>, MerkleTree>
    decreases entries.len(),
{
    if entries.len() == 0 {
        Map::empty()
    } else {
        advice_sets_of(entries.drop_last()).insert(word_vals(entries.last().0), entries.last().1)
    }
}

/// No two entries share a key.
pub open spec fn map_keys_distinct(entries: Seq<(Word, Vec<Felt>)>) -> bool {
    forall|i: int, j: int|
        0 <= i < j < entries.len() ==> word_vals(entries[i].0) != word_vals(entries[j].0)
}

/// No two entries share a root.
pub open spec fn set_keys_distinct(entries: Seq<(Word, MerkleTree)>) -> bool {
    forall|i: int, j: int|
        0 <= i < j < entries.len() ==> word_vals(entries[i].0) != word_vals(entries[j].0)
}

/// No two trees share a root.
pub open spec fn tree_roots_distinct(trees: Seq<MerkleTree>) -> bool {
    forall|i: int, j: int| 0 <= i < j < trees.len() ==> trees[i].root_val() != trees[j].root_val()
}

/// Membership in the denoted map is membership among the entries, and with
/// distinct keys each entry is read back unchanged.
proof fn lemma_advice_map_of_props(entries: Seq<(Word, Vec<Felt>)>)
    ensures
        forall|k: Seq<int>|
            #[trigger] advice_map_of(entries).dom().contains(k) <==> exists|i: int|
                0 <= i < entries.len() && word_vals(#[trigger] entries[i].0) == k,
        map_keys_distinct(entries) ==> forall|i: int|
            0 <= i < entries.len() ==> advice_map_of(entries)[word_vals(#[trigger] entries[i].0)]
                == felt_vals(entries[i].1@),
    decreases entries.len(),
{
    if entries.len() > 0 {
        lemma_advice_map_of_props(entries.drop_last());
        assert(advice_map_of(entries) == advice_map_of(entries.drop_last()).insert(
            word_vals(entries.last().0),
            felt_vals(entries.last().1@),
        ));
        assert forall|k: Seq<int>| #[trigger]
            advice_map_of(entries).dom().contains(k) implies exists|i: int|
            0 <= i < entries.len() && word_vals(#[trigger] entries[i].0) == k by {
            if k == word_vals(entries.last().0) {
                assert(word_vals(entries[entries.len() - 1].0) == k);
            } else {
                assert(advice_map_of(entries.drop_last()).dom().contains(k));
                let i = choose|i: int|
                    0 <= i < entries.drop_last().len() && word_vals(
                        #[trigger] entries.drop_last()[i].0,
                    ) == k;
                assert(entries.drop_last()[i] == entries[i]);
                assert(word_vals(entries[i].0) == k);
            }
        }
        assert forall|k: Seq<int>|
            exists|i: int|
                0 <= i < entries.len() && word_vals(#[trigger] entries[i].0)
                    == k implies #[trigger] advice_map_of(entries).dom().contains(k) by {
            let i = choose|i: int|
                0 <= i < entries.len() && word_vals(#[trigger] entries[i].0) == k;
            if i < entries.len() - 1 {
                assert(entries.drop_last()[i] == entries[i]);
            }
        }
        if map_keys_distinct(entries) {
            assert(map_keys_distinct(entries.drop_last()));
            assert forall|i: int| 0 <= i < entries.len() implies advice_map_of(entries)[word_vals(
                #[trigger] entries[i].0,
            )] == felt_vals(entries[i].1@) by {
                if i < entries.len() - 1 {
                    assert(entries.drop_last()[i] == entries[i]);
                    assert(word_vals(entries[i].0) != word_vals(entries.last().0));
                }
            }
        }
    }
}

/// The analogue of `lemma_advice_map_of_props` for tree entries.
proof fn lemma_advice_sets_of_props(entries: Seq<(Word, MerkleTree)>)
    ensures
        forall|k: Seq<int>|
            #[trigger] advice_sets_of(entries).dom().contains(k) <==> exists|i: int|
                0 <= i < entries.len() && word_vals(#[trigger] entries[i].0) == k,
        set_keys_distinct(entries) ==> forall|i: int|
            0 <= i < entries.len() ==> advice_sets_of(entries)[word_vals(#[trigger] entries[i].0)]
                == entries[i].1,
    decreases entries.len(),
{
    if entries.len() > 0 {
        lemma_advice_sets_of_props(entries.drop_last());
        assert(advice_sets_of(entries) == advice_sets_of(entries.drop_last()).insert(
            word_vals(entries.last().0),
            entries.last().1,
        ));
        assert forall|k: Seq<int>| #[trigger]
            advice_sets_of(entries).dom().contains(k) implies exists|i: int|
            0 <= i < entries.len() && word_vals(#[trigger] entries[i].0) == k by {
            if k == word_vals(entries.last().0) {
                assert(word_vals(entries[entries.len() - 1].0) == k);
            } else {
                assert(advice_sets_of(entries.drop_last()).dom().contains(k));
                let i = choose|i: int|
                    0 <= i < entries.drop_last().len() && word_vals(
                        #[trigger] entries.drop_last()[i].0,
                    ) == k;
                assert(entries.drop_last()[i] == entries[i]);
                assert(word_vals(entries[i].0) == k);
            }
        }
        assert forall|k: Seq<int>|
            exists|i: int|
                0 <= i < entries.len() && word_vals(#[trigger] entries[i].0)
                    == k implies #[trigger] advice_sets_of(entries).dom().contains(k) by {
            let i = choose|i: int|
                0 <= i < entries.len() && word_vals(#[trigger] entries[i].0) == k;
            if i < entries.len() - 1 {
                assert(entries.drop_last()[i] == entries[i]);
            }
        }
        if set_keys_distinct(entries) {
            assert(set_keys_distinct(entries.drop_last()));
            assert forall|i: int| 0 <= i < entries.len() implies advice_sets_of(entries)[word_vals(
                #[trigger] entries[i].0,
            )] == entries[i].1 by {
                if i < entries.len() - 1 {
                    assert(entries.drop_last()[i] == entries[i]);
                    assert(word_vals(entries[i].0) != word_vals(entries.last().0));
                }
            }
        }
    }
}

/// An advice provider supplies nondeterministic inputs to the processor
/// during program execution.
///
/// It manages three kinds of inputs: an advice tape from which elements are
/// read sequentially and removed once read, an advice map holding value
/// lists under word-sized keys, and advice sets — Merkle-tree views
/// identified by their roots, used to answer point queries and to serve
/// authentication paths.
pub struct AdviceProvider {
    step: u32,
    tape: Vec<Felt>,
    values: Vec<(Word, Vec<Felt>)>,
    sets: Vec<(Word, MerkleTree)>,
}

impl AdviceProvider {
    #[verifier::type_invariant]
    spec fn type_inv(self) -> bool {
        &&& map_keys_distinct(self.values@)
        &&& set_keys_distinct(self.sets@)
        &&& forall|i: int|
            0 <= i < self.sets@.len() ==> (#[trigger] self.sets@[i].1).wf() && word_vals(
                self.sets@[i].0,
            ) == self.sets@[i].1.root_val()
    }

    /// The clock cycle the provider believes it is at.
    pub closed spec fn step_val(self) -> int {
        self.step as int
    }

    /// The tape contents; elements are read from the end.
    pub closed spec fn tape_view(self) -> Seq<int> {
        felt_vals(self.tape@)
    }

    /// The advice map as a mathematical map from key values to value lists.
    pub closed spec fn map_view(self) -> Map<Seq<int>, Seq<int>> {
        advice_map_of(self.values@)
    }

    /// The advice sets as a mathematical map from root values to trees.
    pub closed spec fn sets_view(self) -> Map<Seq<int>, MerkleTree> {
        advice_sets_of(self.sets@)
    }

    /// A provider over the given program inputs: the tape is reversed so
    /// that the declared first element is read first, and each tree is
    /// filed under its own root.
    pub fn new(
        advice_tape: Vec<Felt>,
        advice_map: Vec<(Word, Vec<Felt>)>,
        advice_sets: Vec<MerkleTree>,
    ) -> (r: AdviceProvider)
        requires
            map_keys_distinct(advice_map@),
            tree_roots_distinct(advice_sets@),
        ensures
            r.step_val() == 0,
            r.tape_view() == felt_vals(advice_tape@).reverse(),
            r.map_view() == advice_map_of(advice_map@),
            forall|k: Seq<int>|
                #[trigger] r.sets_view().dom().contains(k) <==> exists|i: int|
                    0 <= i < advice_sets@.len() && (#[trigger] advice_sets@[i]).root_val() == k,
            forall|i: int|
                0 <= i < advice_sets@.len() ==> r.sets_view()[(
                #[trigger] advice_sets@[i]).root_val()] == advice_sets@[i],
    {
        let ghost input_tape = advice_tape@;
        let ghost input_sets = advice_sets@;
        let n = advice_tape.len();
        let mut tape: Vec<Felt> = Vec::new();
        for i in 0..n
            invariant
                n == input_tape.len(),
                advice_tape@ == input_tape,
                tape@.len() == i,
                forall|k: int| 0 <= k < i ==> tape@[k] == input_tape[n - 1 - k],
        {
            tape.push(advice_tape[n - 1 - i]);
        }
        proof {
            assert(felt_vals(tape@) =~= felt_vals(input_tape).reverse());
        }
        let mut provider = AdviceProvider { step: 0, tape, values: advice_map, sets: Vec::new() };
        let mut remaining = advice_sets;
        proof {
            assert(remaining@ =~= input_sets.take(input_sets.len() as int));
        }
        while remaining.len() > 0
            invariant
                remaining@ == input_sets.take(remaining@.len() as int),
                remaining@.len() <= input_sets.len(),
                tree_roots_distinct(input_sets),
                provider.step_val() == 0,
                provider.tape_view() == felt_vals(input_tape).reverse(),
                provider.map_view() == advice_map_of(advice_map@),
                forall|k: Seq<int>|
                    #[trigger] provider.sets_view().dom().contains(k) <==> exists|i: int|
                        remaining@.len() <= i < input_sets.len() && (
                        #[trigger] input_sets[i]).root_val() == k,
                forall|i: int|
                    remaining@.len() <= i < input_sets.len() ==> provider.sets_view()[(
                    #[trigger] input_sets[i]).root_val()] == input_sets[i],
            decreases remaining.len(),
        {
            let tree = match remaining.pop() {
                Some(t) => t,
                None => {
                    proof {
                        assert(false);
                    }
                    continue ;
                },
            };
            let ghost idx = remaining@.len() as int;
            proof {
                assert(input_sets.take(idx + 1).last() == input_sets[idx]);
                assert(tree == input_sets[idx]);
                assert(input_sets.take(idx + 1).drop_last() =~= input_sets.take(idx));
            }
            provider.insert_set_entry(tree);
            proof {
                assert forall|k: Seq<int>| #[trigger]
                    provider.sets_view().dom().contains(k) implies exists|i: int|
                    remaining@.len() <= i < input_sets.len() && (#[trigger] input_sets[i]).root_val()
                        == k by {
                    if k != input_sets[idx].root_val() {
                        let i = choose|i: int|
                            idx + 1 <= i < input_sets.len() && (#[trigger] input_sets[i]).root_val()
                                == k;
                        assert(input_sets[i].root_val() == k);
                    } else {
                        assert(input_sets[idx].root_val() == k);
                    }
                }
                assert forall|i: int|
                    remaining@.len() <= i < input_sets.len() implies provider.sets_view()[(
                #[trigger] input_sets[i]).root_val()] == input_sets[i] by {
                    if i != idx {
                        assert(input_sets[i].root_val() != input_sets[idx].root_val());
                    }
                }
            }
        }
        proof {
            assert(input_sets.take(0) =~= Seq::<MerkleTree>::empty());
        }
        provider
    }

    /// Files a tree under its own root, replacing any tree already filed
    /// under the same root.
    fn insert_set_entry(&mut self, tree: MerkleTree)
        ensures
            final(self).step_val() == old(self).step_val(),
            final(self).tape_view() == old(self).tape_view(),
            final(self).map_view() == old(self).map_view(),
            final(self).sets_view() == old(self).sets_view().insert(tree.root_val(), tree),
    {
        proof {
            use_type_invariant(&*self);
            use_type_invariant(&tree);
        }
        let root = tree.root();
        let ghost old_entries = self.sets@;
        let mut sets: Vec<(Word, MerkleTree)> = Vec::new();
        core::mem::swap(&mut sets, &mut self.sets);
        let n = sets.len();
        let mut idx: usize = 0;
        let mut found = false;
        while idx < n && !found
            invariant
                n == sets@.len(),
                idx <= n,
                sets@ == old_entries,
                !found ==> forall|i: int|
                    0 <= i < idx ==> word_vals(#[trigger] sets@[i].0) != word_vals(root),
                found ==> idx < n && word_vals(sets@[idx as int].0) == word_vals(root),
            decreases n - idx, (if found { 0int } else { 1int }),
        {
            if word_eq(&sets[idx].0, &root) {
                found = true;
            } else {
                idx = idx + 1;
            }
        }
        if found {
            sets[idx] = (root, tree);
            proof {
                lemma_sets_of_update(old_entries, idx as int, root, tree);
                assert forall|i: int, j: int| 0 <= i < j < sets@.len() implies word_vals(
                    #[trigger] sets@[i].0,
                ) != word_vals(#[trigger] sets@[j].0) by {
                    assert(word_vals(sets@[i].0) == word_vals(old_entries[i].0));
                    assert(word_vals(sets@[j].0) == word_vals(old_entries[j].0));
                }
                assert forall|i: int| 0 <= i < sets@.len() implies (#[trigger] sets@[i].1).wf()
                    && word_vals(sets@[i].0) == sets@[i].1.root_val() by {
                    if i != idx {
                        assert(sets@[i] == old_entries[i]);
                    }
                }
            }
        } else {
            sets.push((root, tree));
            proof {
                assert(sets@.drop_last() =~= old_entries);
                assert forall|i: int, j: int| 0 <= i < j < sets@.len() implies word_vals(
                    #[trigger] sets@[i].0,
                ) != word_vals(#[trigger] sets@[j].0) by {
                    if j < sets@.len() - 1 {
                        assert(sets@[i] == old_entries[i] && sets@[j] == old_entries[j]);
                    } else {
                        assert(sets@[i] == old_entries[i]);
                        assert(word_vals(old_entries[i].0) != word_vals(root));
                    }
                }
                assert forall|i: int| 0 <= i < sets@.len() implies (#[trigger] sets@[i].1).wf()
                    && word_vals(sets@[i].0) == sets@[i].1.root_val() by {
                    if i < sets@.len() - 1 {
                        assert(sets@[i] == old_entries[i]);
                    }
                }
            }
        }
        self.sets = sets;
    }

    // ADVICE TAPE
    // --------------------------------------------------------------------

    /// Removes the next element from the advice tape and returns it; an
    /// empty tape is a terminal error and leaves the provider untouched.
    pub fn read_tape(&mut self) -> (r: Result<Felt, ExecutionError>)
        ensures
            final(self).step_val() == old(self).step_val(),
            final(self).map_view() == old(self).map_view(),
            final(self).sets_view() == old(self).sets_view(),
            old(self).tape_view().len() > 0 ==> (r matches Ok(v) && v.val() == old(
                self,
            ).tape_view().last() && final(self).tape_view() == old(self).tape_view().drop_last()),
            old(self).tape_view().len() == 0 ==> r == Err::<Felt, ExecutionError>(
                ExecutionError::AdviceTapeReadFailed(old(self).step_val() as u32),
            ) && *final(self) == *old(self),
    {
        proof {
            use_type_invariant(&*self);
        }
        if self.tape.len() == 0 {
            return Err(ExecutionError::AdviceTapeReadFailed(self.step));
        }
        let mut tape: Vec<Felt> = Vec::new();
        core::mem::swap(&mut tape, &mut self.tape);
        let popped = tape.pop();
        self.tape = tape;
        match popped {
            Some(v) => Ok(v),
            None => Err(ExecutionError::AdviceTapeReadFailed(self.step)),
        }
    }

    /// Removes a word (4 elements) from the advice tape: the last tape
    /// element becomes the word's first element. A tape shorter than a word
    /// is a terminal error and leaves the provider untouched.
    pub fn read_tapew(&mut self) -> (r: Result<Word, ExecutionError>)
        ensures
            final(self).step_val() == old(self).step_val(),
            final(self).map_view() == old(self).map_view(),
            final(self).sets_view() == old(self).sets_view(),
            old(self).tape_view().len() >= 4 ==> (r matches Ok(w) && {
                let t = old(self).tape_view();
                &&& word_vals(w) == seq![t[t.len() - 1], t[t.len() - 2], t[t.len() - 3], t[t.len() - 4]]
                &&& final(self).tape_view() == t.take(t.len() - 4)
            }),
            old(self).tape_view().len() < 4 ==> r == Err::<Word, ExecutionError>(
                ExecutionError::AdviceTapeReadFailed(old(self).step_val() as u32),
            ) && *final(self) == *old(self),
    {
        proof {
            use_type_invariant(&*self);
        }
        if self.tape.len() < 4 {
            return Err(ExecutionError::AdviceTapeReadFailed(self.step));
        }
        let ghost t = self.tape_view();
        let mut tape: Vec<Felt> = Vec::new();
        core::mem::swap(&mut tape, &mut self.tape);
        let e0 = tape.pop().unwrap();
        let e1 = tape.pop().unwrap();
        let e2 = tape.pop().unwrap();
        let e3 = tape.pop().unwrap();
        self.tape = tape;
        let w: Word = [e0, e1, e2, e3];
        proof {
            assert(word_vals(w) =~= seq![
                t[t.len() - 1],
                t[t.len() - 2],
                t[t.len() - 3],
                t[t.len() - 4],
            ]);
            assert(final(self).tape_view() =~= t.take(t.len() - 4));
        }
        Ok(w)
    }

    /// Removes the next two words from the advice tape. If the tape holds
    /// at least one word but fewer than two, that first word is consumed
    /// before the failure is reported.
    pub fn read_tape_double(&mut self) -> (r: Result<[Word; 2], ExecutionError>)
        ensures
            final(self).step_val() == old(self).step_val(),
            final(self).map_view() == old(self).map_view(),
            final(self).sets_view() == old(self).sets_view(),
            old(self).tape_view().len() >= 8 ==> (r matches Ok(ws) && {
                let t = old(self).tape_view();
                &&& word_vals(ws[0]) == seq![
                    t[t.len() - 1],
                    t[t.len() - 2],
                    t[t.len() - 3],
                    t[t.len() - 4],
                ]
                &&& word_vals(ws[1]) == seq![
                    t[t.len() - 5],
                    t[t.len() - 6],
                    t[t.len() - 7],
                    t[t.len() - 8],
                ]
                &&& final(self).tape_view() == t.take(t.len() - 8)
            }),
            old(self).tape_view().len() < 8 ==> (r matches Err(e) && e
                == ExecutionError::AdviceTapeReadFailed(old(self).step_val() as u32)),
            4 <= old(self).tape_view().len() < 8 ==> final(self).tape_view() == old(
                self,
            ).tape_view().take(old(self).tape_view().len() - 4),
            old(self).tape_view().len() < 4 ==> *final(self) == *old(self),
    {
        let word0 = match self.read_tapew() {
            Ok(w) => w,
            Err(e) => {
                return Err(e);
            },
        };
        let word1 = match self.read_tapew() {
            Ok(w) => w,
            Err(e) => {
                return Err(e);
            },
        };
        proof {
            let t = old(self).tape_view();
            if t.len() >= 8 {
                assert(t.take(t.len() - 4).take(t.len() - 8) =~= t.take(t.len() - 8));
            }
        }
        Ok([word0, word1])
    }

    /// Writes the provided value at the head of the advice tape.
    pub fn write_tape(&mut self, value: Felt)
        ensures
            final(self).step_val() == old(self).step_val(),
            final(self).map_view() == old(self).map_view(),
            final(self).sets_view() == old(self).sets_view(),
            final(self).tape_view() == old(self).tape_view().push(value.val()),
    {
        proof {
            use_type_invariant(&*self);
        }
        let mut tape: Vec<Felt> = Vec::new();
        core::mem::swap(&mut tape, &mut self.tape);
        tape.push(value);
        self.tape = tape;
        proof {
            assert(final(self).tape_view() =~= old(self).tape_view().push(value.val()));
        }
    }

    // ADVICE MAP
    // --------------------------------------------------------------------

    /// The position of the entry holding `key`, if the key is known.
    fn find_value_index(&self, key: &Word) -> (r: Option<usize>)
        ensures
            r matches Some(i) ==> i < self.values@.len() && word_vals(self.values@[i as int].0)
                == word_vals(*key) && self.map_view().dom().contains(word_vals(*key))
                && self.map_view()[word_vals(*key)] == felt_vals(self.values@[i as int].1@),
            r is None ==> !self.map_view().dom().contains(word_vals(*key)),
    {
        proof {
            use_type_invariant(self);
            lemma_advice_map_of_props(self.values@);
        }
        let n = self.values.len();
        let mut idx: usize = 0;
        while idx < n
            invariant
                n == self.values@.len(),
                idx <= n,
                forall|i: int|
                    0 <= i < idx ==> word_vals(#[trigger] self.values@[i].0) != word_vals(*key),
            decreases n - idx,
        {
            if word_eq(&self.values[idx].0, key) {
                proof {
                    use_type_invariant(self);
                    lemma_advice_map_of_props(self.values@);
                    assert(word_vals(self.values@[idx as int].0) == word_vals(*key));
                }
                return Some(idx);
            }
            idx = idx + 1;
        }
        None
    }

    /// Retrieves the value list stored under `key`, reverses it, and writes
    /// it at the head of the advice tape, so that the list's first element
    /// ends up at the tape head. An unknown key is a terminal error and
    /// leaves the provider untouched.
    pub fn write_tape_from_map(&mut self, key: Word) -> (r: Result<(), ExecutionError>)
        ensures
            final(self).step_val() == old(self).step_val(),
            final(self).map_view() == old(self).map_view(),
            final(self).sets_view() == old(self).sets_view(),
            old(self).map_view().dom().contains(word_vals(key)) ==> r == Ok::<(), ExecutionError>(
                (),
            ) && final(self).tape_view() == old(self).tape_view() + old(self).map_view()[word_vals(
                key,
            )].reverse(),
            !old(self).map_view().dom().contains(word_vals(key)) ==> r == Err::<
                (),
                ExecutionError,
            >(ExecutionError::AdviceKeyNotFound(key)) && *final(self) == *old(self),
    {
        proof {
            use_type_invariant(&*self);
        }
        let idx = match self.find_value_index(&key) {
            Some(i) => i,
            None => {
                return Err(ExecutionError::AdviceKeyNotFound(key));
            },
        };
        let ghost vals = felt_vals(self.values@[idx as int].1@);
        let ghost old_tape = self.tape_view();
        let m = self.values[idx].1.len();
        let mut tape: Vec<Felt> = Vec::new();
        core::mem::swap(&mut tape, &mut self.tape);
        for j in 0..m
            invariant
                idx < self.values@.len(),
                m == self.values@[idx as int].1@.len(),
                vals == felt_vals(self.values@[idx as int].1@),
                tape@.len() == old_tape.len() + j,
                felt_vals(tape@).take(old_tape.len() as int) == old_tape,
                forall|k: int|
                    0 <= k < j ==> felt_vals(tape@)[old_tape.len() + k] == vals[#[trigger] (m - 1
                        - k)],
        {
            let ghost prev = felt_vals(tape@);
            tape.push(self.values[idx].1[m - 1 - j]);
            proof {
                assert(felt_vals(tape@).take(old_tape.len() as int) =~= prev.take(
                    old_tape.len() as int,
                ));
            }
        }
        self.tape = tape;
        proof {
            assert(final(self).tape_view() =~= old(self).tape_view() + vals.reverse());
        }
        Ok(())
    }

    /// Inserts a value list under `key`. A key already present is a
    /// terminal error and leaves the provider untouched.
    pub fn insert_into_map(&mut self, key: Word, values: Vec<Felt>) -> (r: Result<
        (),
        ExecutionError,
    >)
        ensures
            final(self).step_val() == old(self).step_val(),
            final(self).tape_view() == old(self).tape_view(),
            final(self).sets_view() == old(self).sets_view(),
            old(self).map_view().dom().contains(word_vals(key)) ==> r == Err::<(), ExecutionError>(
                ExecutionError::DuplicateAdviceKey(key),
            ) && *final(self) == *old(self),
            !old(self).map_view().dom().contains(word_vals(key)) ==> r == Ok::<(), ExecutionError>(
                (),
            ) && final(self).map_view() == old(self).map_view().insert(
                word_vals(key),
                felt_vals(values@),
            ),
    {
        proof {
            use_type_invariant(&*self);
            lemma_advice_map_of_props(self.values@);
        }
        if self.find_value_index(&key).is_some() {
            return Err(ExecutionError::DuplicateAdviceKey(key));
        }
        let ghost old_entries = self.values@;
        let mut entries: Vec<(Word, Vec<Felt>)> = Vec::new();
        core::mem::swap(&mut entries, &mut self.values);
        entries.push((key, values));
        proof {
            assert(entries@.drop_last() =~= old_entries);
            assert forall|i: int, j: int| 0 <= i < j < entries@.len() implies word_vals(
                #[trigger] entries@[i].0,
            ) != word_vals(#[trigger] entries@[j].0) by {
                if j < entries@.len() - 1 {
                    assert(entries@[i] == old_entries[i] && entries@[j] == old_entries[j]);
                } else {
                    assert(entries@[i] == old_entries[i]);
                    assert(word_vals(old_entries[i].0) != word_vals(key));
                }
            }
        }
        self.values = entries;
        Ok(())
    }

    // ADVICE SETS
    // --------------------------------------------------------------------

    /// The position of the entry holding the tree rooted at `root`, if one
    /// is known.
    fn find_set_index(&self, root: &Word) -> (r: Option<usize>)
        ensures
            r matches Some(i) ==> i < self.sets@.len() && word_vals(self.sets@[i as int].0)
                == word_vals(*root) && self.sets_view().dom().contains(word_vals(*root))
                && self.sets_view()[word_vals(*root)] == self.sets@[i as int].1
                && self.sets@[i as int].1.wf() && self.sets@[i as int].1.root_val() == word_vals(
                *root,
            ),
            r is None ==> !self.sets_view().dom().contains(word_vals(*root)),
    {
        proof {
            use_type_invariant(self);
            lemma_advice_sets_of_props(self.sets@);
        }
        let n = self.sets.len();
        let mut idx: usize = 0;
        while idx < n
            invariant
                n == self.sets@.len(),
                idx <= n,
                forall|i: int|
                    0 <= i < idx ==> word_vals(#[trigger] self.sets@[i].0) != word_vals(*root),
            decreases n - idx,
        {
            if word_eq(&self.sets[idx].0, root) {
                proof {
                    use_type_invariant(self);
                    lemma_advice_sets_of_props(self.sets@);
                    assert(word_vals(self.sets@[idx as int].0) == word_vals(*root));
                }
                return Some(idx);
            }
            idx = idx + 1;
        }
        None
    }

    /// Whether an advice set with the given root is present.
    pub fn has_advice_set(&self, root: Word) -> (r: bool)
        ensures
            r <==> self.sets_view().dom().contains(word_vals(root)),
    {
        self.find_set_index(&root).is_some()
    }

    /// Returns the node at `(depth, index)` of the Merkle tree with the
    /// specified root.
    pub fn get_tree_node(&mut self, root: Word, depth: Felt, index: Felt) -> (r: Result<
        Word,
        ExecutionError,
    >)
        ensures
            *final(self) == *old(self),
            !old(self).sets_view().dom().contains(word_vals(root)) ==> r == Err::<
                Word,
                ExecutionError,
            >(ExecutionError::AdviceSetNotFound(root)),
            old(self).sets_view().dom().contains(word_vals(root)) ==> {
                let t = old(self).sets_view()[word_vals(root)];
                &&& t.valid_coords(depth.val(), index.val()) ==> (r matches Ok(w) && word_vals(w)
                    == t.node_val(depth.val(), index.val()))
                &&& depth.val() == 0 ==> r == Err::<Word, ExecutionError>(
                    ExecutionError::AdviceSetLookupFailed(AdviceSetError::DepthTooSmall),
                )
                &&& depth.val() > t.depth_val() ==> r == Err::<Word, ExecutionError>(
                    ExecutionError::AdviceSetLookupFailed(
                        AdviceSetError::DepthTooBig(depth.val() as u64),
                    ),
                )
                &&& 1 <= depth.val() <= t.depth_val() && index.val() >= pow2(depth.val() as nat)
                    ==> r == Err::<Word, ExecutionError>(
                    ExecutionError::AdviceSetLookupFailed(
                        AdviceSetError::InvalidIndex(index.val() as u64),
                    ),
                )
                &&& (r is Ok <==> t.valid_coords(depth.val(), index.val()))
            },
    {
        let idx = match self.find_set_index(&root) {
            Some(i) => i,
            None => {
                return Err(ExecutionError::AdviceSetNotFound(root));
            },
        };
        let d64 = depth.as_int();
        let i64 = index.as_int();
        proof {
            self.sets@[idx as int].1.lemma_wf_bounds();
        }
        if d64 > MAX_TREE_DEPTH as u64 {
            return Err(ExecutionError::AdviceSetLookupFailed(AdviceSetError::DepthTooBig(d64)));
        }
        match self.sets[idx].1.get_node(d64 as u32, i64) {
            Ok(w) => Ok(w),
            Err(e) => Err(ExecutionError::AdviceSetLookupFailed(e)),
        }
    }

    /// Returns the authentication path of the node at `(depth, index)` of
    /// the Merkle tree with the specified root: the node's own value first,
    /// then one sibling per level toward the root.
    pub fn get_merkle_path(&mut self, root: Word, depth: Felt, index: Felt) -> (r: Result<
        Vec<Word>,
        ExecutionError,
    >)
        ensures
            *final(self) == *old(self),
            !old(self).sets_view().dom().contains(word_vals(root)) ==> r == Err::<
                Vec<Word>,
                ExecutionError,
            >(ExecutionError::AdviceSetNotFound(root)),
            old(self).sets_view().dom().contains(word_vals(root)) ==> {
                let t = old(self).sets_view()[word_vals(root)];
                &&& t.valid_coords(depth.val(), index.val()) ==> (r matches Ok(p) && p@.len()
                    == depth.val() + 1 && Seq::new(p@.len(), |j: int| word_vals(p@[j]))
                    == t.path_val(depth.val(), index.val()))
                &&& depth.val() == 0 ==> r == Err::<Vec<Word>, ExecutionError>(
                    ExecutionError::AdviceSetLookupFailed(AdviceSetError::DepthTooSmall),
                )
                &&& depth.val() > t.depth_val() ==> r == Err::<Vec<Word>, ExecutionError>(
                    ExecutionError::AdviceSetLookupFailed(
                        AdviceSetError::DepthTooBig(depth.val() as u64),
                    ),
                )
                &&& 1 <= depth.val() <= t.depth_val() && index.val() >= pow2(depth.val() as nat)
                    ==> r == Err::<Vec<Word>, ExecutionError>(
                    ExecutionError::AdviceSetLookupFailed(
                        AdviceSetError::InvalidIndex(index.val() as u64),
                    ),
                )
                &&& (r is Ok <==> t.valid_coords(depth.val(), index.val()))
            },
    {
        let idx = match self.find_set_index(&root) {
            Some(i) => i,
            None => {
                return Err(ExecutionError::AdviceSetNotFound(root));
            },
        };
        let d64 = depth.as_int();
        let i64 = index.as_int();
        proof {
            self.sets@[idx as int].1.lemma_wf_bounds();
        }
        if d64 > MAX_TREE_DEPTH as u64 {
            return Err(ExecutionError::AdviceSetLookupFailed(AdviceSetError::DepthTooBig(d64)));
        }
        match self.sets[idx].1.get_path(d64 as u32, i64) {
            Ok(p) => Ok(p),
            Err(e) => Err(ExecutionError::AdviceSetLookupFailed(e)),
        }
    }

    /// Updates the leaf at `index` in the Merkle tree with the specified
    /// root, and returns the authentication path of that leaf in the tree
    /// before the update. The depth used is always the tree's own depth.
    ///
    /// With `update_in_copy` the old tree is retained beside the updated
    /// copy; otherwise the old root's entry is removed and only the updated
    /// tree remains.
    pub fn update_merkle_leaf(
        &mut self,
        root: Word,
        index: Felt,
        leaf_value: Word,
        update_in_copy: bool,
    ) -> (r: Result<Vec<Word>, ExecutionError>)
        ensures
            final(self).step_val() == old(self).step_val(),
            final(self).tape_view() == old(self).tape_view(),
            final(self).map_view() == old(self).map_view(),
            !old(self).sets_view().dom().contains(word_vals(root)) ==> r == Err::<
                Vec<Word>,
                ExecutionError,
            >(ExecutionError::AdviceSetNotFound(root)) && *final(self) == *old(self),
            old(self).sets_view().dom().contains(word_vals(root)) ==> {
                let t = old(self).sets_view()[word_vals(root)];
                &&& index.val() >= pow2(t.depth_val() as nat) ==> r == Err::<
                    Vec<Word>,
                    ExecutionError,
                >(ExecutionError::AdviceSetLookupFailed(
                    AdviceSetError::InvalidIndex(index.val() as u64),
                )) && *final(self) == *old(self)
                &&& index.val() < pow2(t.depth_val() as nat) ==> {
                    let nr = t.updated_root_val(index.val(), word_vals(leaf_value));
                    &&& r matches Ok(p) && p@.len() == t.depth_val() + 1 && Seq::new(
                        p@.len(),
                        |j: int| word_vals(p@[j]),
                    ) == t.path_val(t.depth_val(), index.val())
                    &&& final(self).sets_view().dom().contains(nr)
                    &&& final(self).sets_view()[nr].wf()
                    &&& final(self).sets_view()[nr].depth_val() == t.depth_val()
                    &&& final(self).sets_view()[nr].leaf_vals() == t.leaf_vals().update(
                        index.val(),
                        word_vals(leaf_value),
                    )
                    &&& final(self).sets_view()[nr].root_val() == nr
                    &&& update_in_copy ==> final(self).sets_view().dom() == old(
                        self,
                    ).sets_view().dom().insert(nr) && (forall|k: Seq<int>|
                        old(self).sets_view().dom().contains(k) && k != nr
                            ==> final(self).sets_view()[k] == #[trigger] old(self).sets_view()[k])
                    &&& !update_in_copy ==> final(self).sets_view().dom() == old(
                        self,
                    ).sets_view().dom().remove(word_vals(root)).insert(nr) && (forall|k: Seq<int>|
                        old(self).sets_view().dom().contains(k) && k != nr && k != word_vals(root)
                            ==> final(self).sets_view()[k] == #[trigger] old(self).sets_view()[k])
                }
            },
    {
        proof {
            use_type_invariant(&*self);
        }
        let idx = match self.find_set_index(&root) {
            Some(i) => i,
            None => {
                return Err(ExecutionError::AdviceSetNotFound(root));
            },
        };
        let i64 = index.as_int();
        proof {
            self.sets@[idx as int].1.lemma_wf_bounds();
        }
        let tree_depth = self.sets[idx].1.depth();
        let path = match self.sets[idx].1.get_path(tree_depth, i64) {
            Ok(p) => p,
            Err(e) => {
                proof {
                    let t = old(self).sets_view()[word_vals(root)];
                    assert(e == AdviceSetError::InvalidIndex(i64));
                }
                return Err(ExecutionError::AdviceSetLookupFailed(e));
            },
        };
        let mut updated = if update_in_copy {
            self.sets[idx].1.duplicate()
        } else {
            let ghost old_entries = self.sets@;
            let mut sets: Vec<(Word, MerkleTree)> = Vec::new();
            core::mem::swap(&mut sets, &mut self.sets);
            let entry = sets.remove(idx);
            proof {
                lemma_sets_of_remove(old_entries, idx as int);
                assert forall|i: int, j: int| 0 <= i < j < sets@.len() implies word_vals(
                    #[trigger] sets@[i].0,
                ) != word_vals(#[trigger] sets@[j].0) by {
                    let oi = if i < idx { i } else { i + 1 };
                    let oj = if j < idx { j } else { j + 1 };
                    assert(sets@[i] == old_entries[oi] && sets@[j] == old_entries[oj]);
                }
                assert forall|i: int| 0 <= i < sets@.len() implies (#[trigger] sets@[i].1).wf()
                    && word_vals(sets@[i].0) == sets@[i].1.root_val() by {
                    let oi = if i < idx { i } else { i + 1 };
                    assert(sets@[i] == old_entries[oi]);
                }
            }
            self.sets = sets;
            entry.1
        };
        match updated.update_leaf(i64, leaf_value) {
            Ok(()) => (),
            Err(_) => {
                proof {
                    assert(false);
                }
                return Err(ExecutionError::AdviceSetNotFound(root));
            },
        }
        proof {
            use_type_invariant(&updated);
        }
        self.insert_set_entry(updated);
        proof {
            let t = old(self).sets_view()[word_vals(root)];
            let nr = t.updated_root_val(index.val(), word_vals(leaf_value));
            if update_in_copy {
                assert(final(self).sets_view().dom() =~= old(self).sets_view().dom().insert(nr));
            } else {
                assert(final(self).sets_view().dom() =~= old(self).sets_view().dom().remove(
                    word_vals(root),
                ).insert(nr));
            }
        }
        Ok(path)
    }

    // CONTEXT MANAGEMENT
    // --------------------------------------------------------------------

    /// Increments the clock cycle used in tape-read error reporting.
    pub fn advance_clock(&mut self)
        requires
            old(self).step_val() < u32::MAX,
        ensures
            final(self).step_val() == old(self).step_val() + 1,
            final(self).tape_view() == old(self).tape_view(),
            final(self).map_view() == old(self).map_view(),
            final(self).sets_view() == old(self).sets_view(),
    {
        proof {
            use_type_invariant(&*self);
        }
        self.step = self.step + 1;
    }
}

/// Removing an entry removes exactly its key from the denoted map.
proof fn lemma_sets_of_remove(entries: Seq<(Word, MerkleTree)>, idx: int)
    requires
        set_keys_distinct(entries),
        0 <= idx < entries.len(),
    ensures
        advice_sets_of(entries.remove(idx)) == advice_sets_of(entries).remove(
            word_vals(entries[idx].0),
        ),
    decreases entries.len(),
{
    let k = word_vals(entries[idx].0);
    lemma_advice_sets_of_props(entries.drop_last());
    if idx == entries.len() - 1 {
        assert(entries.remove(idx) =~= entries.drop_last());
        assert(!advice_sets_of(entries.drop_last()).dom().contains(k));
        assert(advice_sets_of(entries.drop_last()) =~= advice_sets_of(entries).remove(k));
    } else {
        assert(entries.remove(idx).drop_last() =~= entries.drop_last().remove(idx));
        assert(entries.remove(idx).last() == entries.last());
        assert(set_keys_distinct(entries.drop_last()));
        assert(entries.drop_last()[idx] == entries[idx]);
        lemma_sets_of_remove(entries.drop_last(), idx);
        assert(word_vals(entries.last().0) != k);
        assert(advice_sets_of(entries.remove(idx)) =~= advice_sets_of(entries).remove(k));
    }
}

/// Replacing the entry that holds a key rewrites that key's image and
/// nothing else.
proof fn lemma_sets_of_update(
    entries: Seq<(Word, MerkleTree)>,
    idx: int,
    root: Word,
    tree: MerkleTree,
)
    requires
        set_keys_distinct(entries),
        0 <= idx < entries.len(),
        word_vals(entries[idx].0) == word_vals(root),
    ensures
        advice_sets_of(entries.update(idx, (root, tree))) == advice_sets_of(entries).insert(
            word_vals(root),
            tree,
        ),
    decreases entries.len(),
{
    let updated = entries.update(idx, (root, tree));
    if idx == entries.len() - 1 {
        assert(updated.drop_last() =~= entries.drop_last());
        assert(updated.last() == (root, tree));
        assert(advice_sets_of(updated) == advice_sets_of(entries.drop_last()).insert(
            word_vals(root),
            tree,
        ));
        assert(advice_sets_of(entries).insert(word_vals(root), tree) =~= advice_sets_of(
            entries.drop_last(),
        ).insert(word_vals(root), tree));
    } else {
        assert(updated.drop_last() =~= entries.drop_last().update(idx, (root, tree)));
        assert(updated.last() == entries.last());
        assert(set_keys_distinct(entries.drop_last()));
        assert(entries.drop_last()[idx] == entries[idx]);
        lemma_sets_of_update(entries.drop_last(), idx, root, tree);
        assert(word_vals(entries.last().0) != word_vals(root));
        assert(advice_sets_of(updated) =~= advice_sets_of(entries).insert(word_vals(root), tree));
    }
}

/// Tape round-trip law: inserting a value list under a fresh key and then
/// replaying that key onto a tape leaves the list readable in its original
/// order. Reads take the last tape element first, so the `j`-th read from
/// the extended tape returns the `j`-th stored value; and the key is
/// present afterwards, so a second insertion under it is refused by
/// [`AdviceProvider::insert_into_map`]'s contract.
pub proof fn lemma_insert_replay_round_trip(
    m: Map<Seq<int>, Seq<int>>,
    tape: Seq<int>,
    key: Seq<int>,
    vals: Seq<int>,
)
    requires
        !m.dom().contains(key),
    ensures
        m.insert(key, vals).dom().contains(key),
        m.insert(key, vals)[key] == vals,
        forall|j: int|
            0 <= j < vals.len() ==> (tape + vals.reverse())[(tape + vals.reverse()).len() - 1 - j]
                == vals[j],
{
    assert forall|j: int| 0 <= j < vals.len() implies (tape + vals.reverse())[(tape
        + vals.reverse()).len() - 1 - j] == vals[j] by {
        let ext = tape + vals.reverse();
        assert(ext[ext.len() - 1 - j] == vals.reverse()[vals.len() - 1 - j]);
        assert(vals.reverse()[vals.len() - 1 - j] == vals[j]);
    }
}

/// Retention law for leaf updates, over the set-map shapes that
/// [`AdviceProvider::update_merkle_leaf`] guarantees: when the update
/// produces a root different from the old one, a copying update leaves the
/// old root's tree present and unchanged — so node queries under it answer
/// as before — while an in-place update removes the old root, so lookups
/// under it fail as unknown.
pub proof fn lemma_update_retains_or_retires_old_root(
    before: Map<Seq<int>, MerkleTree>,
    after: Map<Seq<int>, MerkleTree>,
    rv: Seq<int>,
    nr: Seq<int>,
    update_in_copy: bool,
)
    requires
        before.dom().contains(rv),
        nr != rv,
        update_in_copy ==> after.dom() == before.dom().insert(nr) && (forall|k: Seq<int>|
            before.dom().contains(k) && k != nr ==> after[k] == #[trigger] before[k]),
        !update_in_copy ==> after.dom() == before.dom().remove(rv).insert(nr),
    ensures
        update_in_copy ==> after.dom().contains(rv) && after[rv] == before[rv],
        !update_in_copy ==> !after.dom().contains(rv),
{
}

} // verus!
