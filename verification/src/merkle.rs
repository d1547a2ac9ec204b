//! Merkle-tree views over words.
//!
//! A tree stores its leaves; inner nodes are defined by the hasher's
//! two-to-one compression. Nodes are addressed by `(depth, index)`, where
//! depth `0` is the root row and index counts nodes left to right, so a node
//! at depth `d` covers `2^(tree depth - d)` consecutive leaves. Point
//! lookups return node values and authentication paths, and leaf updates
//! recompute the root implicitly, since the root is always derived from the
//! stored leaves.

use crate::errors::AdviceSetError;
use crate::field::{word_vals, Word};
use crate::hasher::merge;
use crate::hasher::merge_spec;
use vstd::arithmetic::div_mod::{lemma_div_denominator, lemma_mul_mod_noop_general};
use vstd::arithmetic::mul::{
    lemma_mul_inequality, lemma_mul_is_associative, lemma_mul_is_commutative,
    lemma_mul_is_distributive_add,
};
use vstd::arithmetic::power2::{
    lemma2_to64, lemma2_to64_rest, lemma_pow2_adds, lemma_pow2_pos, lemma_pow2_strictly_increases,
    lemma_pow2_unfold, pow2,
};
use vstd::prelude::*;

verus! {

/// The largest supported tree depth.
pub const MAX_TREE_DEPTH: u32 = 31;

/// Value of the subtree of `len` leaves starting at `lo`: the leaf itself
/// for a single leaf, otherwise the compression of the two half subtrees.
pub open spec fn subtree_val(leaves: Seq<Seq<int>>, lo: int, len: nat) -> Seq<int>
    decreases len,
{
    if len <= 1 {
        leaves[lo]
    } else {
        merge_spec(
            subtree_val(leaves, lo, (len / 2) as nat),
            subtree_val(leaves, lo + len / 2, (len / 2) as nat),
            0,
        )
    }
}

/// The index of the other child of a node's parent.
pub open spec fn sibling_of(i: int) -> int {
    if i % 2 == 0 {
        i + 1
    } else {
        i - 1
    }
}

/// A Merkle-tree view: a power-of-two number of word leaves, hashed with
/// the hasher's compression function.
#[derive(Debug)]
pub struct MerkleTree {
    depth: u32,
    leaves: Vec<Word>,
}

impl MerkleTree {
    /// Structural soundness: at least one level, and exactly `2^depth`
    /// leaves.
    pub closed spec fn wf(self) -> bool {
        1 <= self.depth <= MAX_TREE_DEPTH && self.leaves@.len() == pow2(self.depth as nat)
    }

    #[verifier::type_invariant]
    pub open spec fn type_inv(self) -> bool {
        self.wf()
    }

    /// The depth of the tree: the number of levels below the root.
    pub closed spec fn depth_val(self) -> int {
        self.depth as int
    }

    /// The mathematical values of the leaves, left to right.
    pub closed spec fn leaf_vals(self) -> Seq<Seq<int>> {
        Seq::new(self.leaves@.len(), |i: int| word_vals(self.leaves@[i]))
    }

    /// Whether `(depth, index)` addresses a node of this tree: the root row
    /// itself is not addressable.
    pub open spec fn valid_coords(self, d: int, i: int) -> bool {
        1 <= d <= self.depth_val() && 0 <= i < pow2(d as nat)
    }

    /// The value of the node at `(depth, index)`.
    pub open spec fn node_val(self, d: int, i: int) -> Seq<int> {
        subtree_val(
            self.leaf_vals(),
            i * pow2((self.depth_val() - d) as nat),
            pow2((self.depth_val() - d) as nat),
        )
    }

    /// The root value of the tree.
    pub open spec fn root_val(self) -> Seq<int> {
        subtree_val(self.leaf_vals(), 0, self.leaf_vals().len())
    }

    /// The root the tree would have after replacing the leaf at `i` with
    /// the word value `v`.
    pub open spec fn updated_root_val(self, i: int, v: Seq<int>) -> Seq<int> {
        subtree_val(self.leaf_vals().update(i, v), 0, self.leaf_vals().len())
    }

    /// The authentication path of the node at `(depth, index)`: the node
    /// itself, then the sibling of each ancestor from the node's level up
    /// to the children of the root.
    pub open spec fn path_val(self, d: int, i: int) -> Seq<Seq<int>> {
        Seq::new(
            (d + 1) as nat,
            |j: int|
                if j == 0 {
                    self.node_val(d, i)
                } else {
                    self.node_val(d - j + 1, sibling_of(i / pow2((j - 1) as nat) as int))
                },
        )
    }

    /// Well-formedness spells out the tree's shape: a depth between one
    /// and the maximum, and one leaf per slot of the bottom level.
    pub proof fn lemma_wf_bounds(self)
        requires
            self.wf(),
        ensures
            1 <= self.depth_val() <= MAX_TREE_DEPTH as int,
            self.leaf_vals().len() == pow2(self.depth_val() as nat),
    {
    }

    /// Builds a tree from its leaves. Succeeds exactly when the number of
    /// leaves is a power of two between `2` and `2^MAX_TREE_DEPTH`.
    pub fn new(leaves: Vec<Word>) -> (r: Result<MerkleTree, AdviceSetError>)
        ensures
            (exists|k: nat| 1 <= k <= MAX_TREE_DEPTH && leaves@.len() == pow2(k)) <==> r is Ok,
            r matches Ok(t) ==> {
                &&& t.wf()
                &&& t.leaf_vals() == Seq::new(leaves@.len(), |i: int| word_vals(leaves@[i]))
                &&& leaves@.len() == pow2(t.depth_val() as nat)
            },
            r matches Err(e) ==> e == AdviceSetError::InvalidNumLeaves(leaves@.len() as usize),
    {
        let n = leaves.len();
        let mut p: usize = 1;
        let mut d: u32 = 0;
        proof {
            lemma2_to64();
        }
        while p < n && d < MAX_TREE_DEPTH
            invariant
                n == leaves@.len(),
                d <= MAX_TREE_DEPTH,
                p == pow2(d as nat),
                1 <= p <= 0x8000_0000,
                forall|k: nat| k < d ==> pow2(k) < n,
            decreases MAX_TREE_DEPTH - d,
        {
            proof {
                lemma_pow2_unfold((d + 1) as nat);
                assert forall|k: nat| k < d + 1 implies pow2(k) < n by {
                    if k < d {
                    } else {
                        assert(pow2(k) == p);
                    }
                }
                lemma_pow2_strictly_increases(d as nat, MAX_TREE_DEPTH as nat);
                assert(pow2(MAX_TREE_DEPTH as nat) == 0x8000_0000) by {
                    lemma2_to64();
                }
                if d + 1 < MAX_TREE_DEPTH {
                    lemma_pow2_strictly_increases((d + 1) as nat, MAX_TREE_DEPTH as nat);
                }
                lemma_pow2_unfold((d + 1) as nat);
            }
            p = p * 2;
            d = d + 1;
        }
        if p == n && d >= 1 {
            proof {
                assert(leaves@.len() == pow2(d as nat));
            }
            let t = MerkleTree { depth: d, leaves };
            proof {
                assert(t.leaf_vals() =~= Seq::new(t.leaves@.len(), |i: int| word_vals(t.leaves@[i])));
            }
            Ok(t)
        } else {
            proof {
                assert forall|k: nat| 1 <= k <= MAX_TREE_DEPTH implies n != pow2(k) by {
                    if k < d {
                    } else if k == d {
                        assert(p == pow2(d as nat));
                    } else {
                        lemma_pow2_strictly_increases(d as nat, k);
                        if p >= n {
                            // the loop stopped because p reached n without
                            // hitting it exactly
                            assert(pow2(k) > n || p == n);
                        }
                    }
                }
            }
            Err(AdviceSetError::InvalidNumLeaves(n))
        }
    }

    /// The tree's depth.
    pub fn depth(&self) -> (r: u32)
        ensures
            r as int == self.depth_val(),
            1 <= r <= MAX_TREE_DEPTH,
    {
        proof {
            use_type_invariant(self);
        }
        self.depth
    }

    /// The root of the tree.
    pub fn root(&self) -> (r: Word)
        ensures
            word_vals(r) == self.root_val(),
    {
        proof {
            use_type_invariant(self);
        }
        let len = self.leaves.len();
        self.subtree_hash(0, len, Ghost(self.depth as nat))
    }

    /// An exact copy of the tree.
    pub fn duplicate(&self) -> (t: MerkleTree)
        ensures
            t.depth_val() == self.depth_val(),
            t.leaf_vals() == self.leaf_vals(),
            t.wf(),
    {
        proof {
            use_type_invariant(self);
        }
        let mut leaves: Vec<Word> = Vec::new();
        let n = self.leaves.len();
        for i in 0..n
            invariant
                n == self.leaves@.len(),
                leaves@.len() == i,
                forall|k: int| 0 <= k < i ==> leaves@[k] == self.leaves@[k],
        {
            leaves.push(self.leaves[i]);
        }
        proof {
            assert(leaves@ =~= self.leaves@);
        }
        let t = MerkleTree { depth: self.depth, leaves };
        proof {
            assert(t.leaf_vals() =~= self.leaf_vals());
        }
        t
    }

    /// Hashes the subtree of `len` leaves starting at `lo`.
    fn subtree_hash(&self, lo: usize, len: usize, Ghost(k): Ghost<nat>) -> (r: Word)
        requires
            len == pow2(k),
            lo + len <= self.leaves@.len(),
        ensures
            word_vals(r) == subtree_val(self.leaf_vals(), lo as int, len as nat),
        decreases len,
    {
        proof {
            lemma_pow2_pos(k);
        }
        let n = self.leaves.len();
        if len == 1 {
            self.leaves[lo]
        } else {
            proof {
                if k == 0 {
                    assert(pow2(0nat) == 1) by {
                        lemma2_to64();
                    }
                }
                lemma_pow2_unfold(k);
            }
            let half = len / 2;
            let left = self.subtree_hash(lo, half, Ghost((k - 1) as nat));
            let right = self.subtree_hash(lo + half, half, Ghost((k - 1) as nat));
            merge(&left, &right)
        }
    }

    /// Checks `(depth, index)` and returns the value used to look the node
    /// up: the first leaf it covers and the number of leaves it covers.
    fn node_range(&self, depth: u32, index: u64) -> (r: Result<
        (usize, usize),
        AdviceSetError,
    >)
        ensures
            r matches Ok(range) ==> {
                &&& self.valid_coords(depth as int, index as int)
                &&& range.0 as int == index * pow2((self.depth_val() - depth) as nat)
                &&& range.1 as nat == pow2((self.depth_val() - depth) as nat)
                &&& range.0 + range.1 <= self.leaf_vals().len()
            },
            depth == 0 ==> r == Err::<(usize, usize), AdviceSetError>(AdviceSetError::DepthTooSmall),
            depth > self.depth_val() ==> r == Err::<(usize, usize), AdviceSetError>(
                AdviceSetError::DepthTooBig(depth as u64),
            ),
            1 <= depth <= self.depth_val() && index >= pow2(depth as nat) ==> r == Err::<
                (usize, usize),
                AdviceSetError,
            >(AdviceSetError::InvalidIndex(index)),
            self.valid_coords(depth as int, index as int) ==> r is Ok,
    {
        proof {
            use_type_invariant(self);
        }
        if depth == 0 {
            return Err(AdviceSetError::DepthTooSmall);
        }
        if depth > self.depth {
            return Err(AdviceSetError::DepthTooBig(depth as u64));
        }
        let bound = pow2_u64(depth);
        if index >= bound {
            return Err(AdviceSetError::InvalidIndex(index));
        }
        let sub_len_u64 = pow2_u64(self.depth - depth);
        let n = self.leaves.len();
        proof {
            assert(pow2(32nat) == 0x1_0000_0000) by {
                lemma2_to64();
            }
            lemma_pow2_strictly_increases((self.depth - depth) as nat, 32nat);
            lemma_pow2_strictly_increases(depth as nat, 32nat);
        }
        let sub_len: usize = sub_len_u64 as usize;
        proof {
            lemma_pow2_adds(depth as nat, (self.depth - depth) as nat);
            // index * sub_len + sub_len <= pow2(depth) * sub_len == leaves
            lemma_mul_inequality(index as int + 1, pow2(depth as nat) as int, sub_len as int);
            lemma_mul_is_distributive_add(sub_len as int, index as int, 1);
            lemma_mul_is_commutative(index as int + 1, sub_len as int);
            lemma_mul_is_commutative(pow2(depth as nat) as int, sub_len as int);
            assert(index * sub_len + sub_len <= n);
        }
        let lo: usize = (index as usize) * sub_len;
        Ok((lo, sub_len))
    }

    /// The value of the node at `(depth, index)`.
    pub fn get_node(&self, depth: u32, index: u64) -> (r: Result<Word, AdviceSetError>)
        ensures
            self.valid_coords(depth as int, index as int) ==> (r matches Ok(w) && word_vals(w)
                == self.node_val(depth as int, index as int)),
            depth == 0 ==> r == Err::<Word, AdviceSetError>(AdviceSetError::DepthTooSmall),
            depth > self.depth_val() ==> r == Err::<Word, AdviceSetError>(
                AdviceSetError::DepthTooBig(depth as u64),
            ),
            1 <= depth <= self.depth_val() && index >= pow2(depth as nat) ==> r == Err::<
                Word,
                AdviceSetError,
            >(AdviceSetError::InvalidIndex(index)),
            r is Ok <==> self.valid_coords(depth as int, index as int),
    {
        proof {
            use_type_invariant(self);
        }
        match self.node_range(depth, index) {
            Ok((lo, sub_len)) => Ok(
                self.subtree_hash(lo, sub_len, Ghost((self.depth - depth) as nat)),
            ),
            Err(e) => Err(e),
        }
    }

    /// The authentication path of the node at `(depth, index)`: the node
    /// itself, then one sibling per level from the node's level upward.
    pub fn get_path(&self, depth: u32, index: u64) -> (r: Result<Vec<Word>, AdviceSetError>)
        ensures
            self.valid_coords(depth as int, index as int) ==> (r matches Ok(p) && p@.len() == depth
                + 1 && Seq::new(p@.len(), |j: int| word_vals(p@[j])) == self.path_val(
                depth as int,
                index as int,
            )),
            depth == 0 ==> r == Err::<Vec<Word>, AdviceSetError>(AdviceSetError::DepthTooSmall),
            depth > self.depth_val() ==> r == Err::<Vec<Word>, AdviceSetError>(
                AdviceSetError::DepthTooBig(depth as u64),
            ),
            1 <= depth <= self.depth_val() && index >= pow2(depth as nat) ==> r == Err::<
                Vec<Word>,
                AdviceSetError,
            >(AdviceSetError::InvalidIndex(index)),
            r is Ok <==> self.valid_coords(depth as int, index as int),
    {
        proof {
            use_type_invariant(self);
            lemma2_to64();
        }
        let first = match self.node_range(depth, index) {
            Ok((lo, sub_len)) => self.subtree_hash(lo, sub_len, Ghost((self.depth - depth) as nat)),
            Err(e) => {
                return Err(e);
            },
        };
        let mut path: Vec<Word> = Vec::new();
        path.push(first);
        let mut cur: u64 = index;
        let mut level: u32 = depth;
        proof {
            assert(pow2(0nat) == 1);
            assert(index as int / 1 == index as int);
        }
        while level >= 1
            invariant
                self.wf(),
                self.valid_coords(depth as int, index as int),
                level <= depth,
                cur as int == index as int / pow2((depth - level) as nat) as int,
                cur < pow2(level as nat),
                path@.len() == depth - level + 1,
                word_vals(path@[0]) == self.node_val(depth as int, index as int),
                forall|j: int|
                    1 <= j < path@.len() ==> word_vals(path@[j]) == self.node_val(
                        depth - j + 1,
                        sibling_of(index as int / pow2((j - 1) as nat) as int),
                    ),
            decreases level,
        {
            let sib: u64 = if cur % 2 == 0 {
                proof {
                    lemma_pow2_pos(level as nat);
                }
                cur + 1
            } else {
                cur - 1
            };
            proof {
                assert(sib < pow2(level as nat)) by {
                    if cur % 2 == 0 {
                        assert(cur as int % 2 == 0);
                        assert(cur + 1 < pow2(level as nat)) by {
                            lemma_even_below_pow2(cur as int, level as nat);
                        }
                    }
                }
            }
            let sib_word = match self.node_range(level, sib) {
                Ok((lo, sub_len)) => self.subtree_hash(
                    lo,
                    sub_len,
                    Ghost((self.depth - level) as nat),
                ),
                Err(e) => {
                    proof {
                        assert(self.valid_coords(level as int, sib as int));
                        assert(false);
                    }
                    return Err(e);
                },
            };
            path.push(sib_word);
            proof {
                let j = path@.len() - 1;
                assert(path@[j] == sib_word);
                assert(sib as int == sibling_of(index as int / pow2((j - 1) as nat) as int)) by {
                    assert(depth - level == j - 1);
                }
                lemma_div_chain(index as int, (depth - level) as nat);
                assert(cur as int / 2 < pow2((level - 1) as nat)) by {
                    lemma_pow2_unfold(level as nat);
                    assert(2 * (cur as int / 2) <= cur as int) by {
                        vstd::arithmetic::div_mod::lemma_fundamental_div_mod(cur as int, 2);
                        vstd::arithmetic::div_mod::lemma_mod_bound(cur as int, 2);
                    }
                }
            }
            cur = cur / 2;
            level = level - 1;
        }
        proof {
            let p = path@;
            assert(Seq::new(p.len(), |j: int| word_vals(p[j])) =~= self.path_val(
                depth as int,
                index as int,
            ));
        }
        Ok(path)
    }

    /// Replaces the leaf at `index`, changing every node above it, the root
    /// included. Fails exactly when `index` is not a leaf position.
    pub fn update_leaf(&mut self, index: u64, value: Word) -> (r: Result<(), AdviceSetError>)
        ensures
            final(self).depth_val() == old(self).depth_val(),
            index < pow2(old(self).depth_val() as nat) ==> {
                &&& r is Ok
                &&& final(self).leaf_vals() == old(self).leaf_vals().update(
                    index as int,
                    word_vals(value),
                )
            },
            index >= pow2(old(self).depth_val() as nat) ==> r == Err::<(), AdviceSetError>(
                AdviceSetError::InvalidIndex(index),
            ) && *final(self) == *old(self),
    {
        proof {
            use_type_invariant(&*self);
            lemma_pow2_strictly_increases(self.depth as nat, 32nat);
            lemma2_to64_rest();
        }
        let num_leaves = self.leaves.len();
        if index >= num_leaves as u64 {
            return Err(AdviceSetError::InvalidIndex(index));
        }
        let i = index as usize;
        self.leaves[i] = value;
        proof {
            assert(final(self).leaf_vals() =~= old(self).leaf_vals().update(
                index as int,
                word_vals(value),
            ));
        }
        Ok(())
    }
}

/// `2^e` as a machine integer.
fn pow2_u64(e: u32) -> (r: u64)
    requires
        e <= 63,
    ensures
        r as nat == pow2(e as nat),
{
    let mut r: u64 = 1;
    let mut i: u32 = 0;
    proof {
        lemma2_to64();
    }
    while i < e
        invariant
            i <= e,
            e <= 63,
            r as nat == pow2(i as nat),
        decreases e - i,
    {
        proof {
            if (i as nat) < 63 {
                lemma_pow2_strictly_increases(i as nat, 63nat);
            }
            lemma2_to64_rest();
            lemma_pow2_unfold((i + 1) as nat);
        }
        r = r * 2;
        i = i + 1;
    }
    r
}

/// An even number strictly below a positive power of two leaves room for
/// its odd successor.
proof fn lemma_even_below_pow2(c: int, l: nat)
    requires
        l >= 1,
        c % 2 == 0,
        0 <= c < pow2(l),
    ensures
        c + 1 < pow2(l),
{
    lemma_pow2_unfold(l);
    assert(pow2(l) as int % 2 == 0) by {
        lemma_mul_mod_noop_general(2, pow2((l - 1) as nat) as int, 2);
    }
    if c + 1 == pow2(l) {
        assert((c + 1) % 2 == 1);
        assert(false);
    }
}

/// Dividing twice by consecutive powers of two is dividing by the next
/// power.
proof fn lemma_div_chain(x: int, k: nat)
    requires
        x >= 0,
    ensures
        (x / pow2(k) as int) / 2 == x / pow2((k + 1) as nat) as int,
{
    lemma_pow2_pos(k);
    lemma_div_denominator(x, pow2(k) as int, 2);
    lemma_pow2_unfold((k + 1) as nat);
    assert(pow2(k) as int * 2 == pow2((k + 1) as nat) as int) by {
        lemma_mul_is_commutative(2, pow2(k) as int);
    }
}

/// Walks an authentication path from the bottom: the running value starts at
/// the path's own node and absorbs one sibling per step, ordered by the
/// node index's bit at that level.
pub open spec fn fold_path(path: Seq<Seq<int>>, i: int, n: nat) -> Seq<int>
    decreases n,
{
    if n == 0 {
        path[0]
    } else {
        let prev = fold_path(path, i, (n - 1) as nat);
        if (i / pow2((n - 1) as nat) as int) % 2 == 0 {
            merge_spec(prev, path[n as int], 0)
        } else {
            merge_spec(path[n as int], prev, 0)
        }
    }
}

/// A node's parent is the compression of the node and its sibling, ordered
/// by the node index's parity.
proof fn lemma_parent_node(t: MerkleTree, l: int, x: int)
    requires
        t.wf(),
        1 <= l <= t.depth_val(),
        0 <= x < pow2(l as nat),
    ensures
        t.node_val(l - 1, x / 2) == if x % 2 == 0 {
            merge_spec(t.node_val(l, x), t.node_val(l, x + 1), 0)
        } else {
            merge_spec(t.node_val(l, x - 1), t.node_val(l, x), 0)
        },
{
    let dd = t.depth_val();
    let half = pow2((dd - l) as nat) as int;
    let len = pow2((dd - l + 1) as nat) as int;
    let leaves = t.leaf_vals();
    lemma_pow2_pos((dd - l) as nat);
    lemma_pow2_unfold((dd - l + 1) as nat);
    assert(len == 2 * half);
    assert(len / 2 == half);
    let q = x / 2;
    let b = x % 2;
    vstd::arithmetic::div_mod::lemma_fundamental_div_mod(x, 2);
    vstd::arithmetic::div_mod::lemma_mod_bound(x, 2);
    assert(x == 2 * q + b);
    // the parent subtree splits at its midpoint
    let lo = q * len;
    assert(t.node_val(l - 1, q) == subtree_val(leaves, lo, len as nat));
    assert(len as nat > 1);
    assert(subtree_val(leaves, lo, len as nat) == merge_spec(
        subtree_val(leaves, lo, half as nat),
        subtree_val(leaves, lo + half, half as nat),
        0,
    ));
    // identify the two halves with the child nodes
    assert(lo == (2 * q) * half) by {
        lemma_mul_is_associative(q, 2, half);
        lemma_mul_is_commutative(q, 2);
        lemma_mul_is_commutative(q, len);
        assert(q * len == q * (2 * half));
        lemma_mul_is_associative(q, 2, half);
    }
    assert(lo + half == (2 * q + 1) * half) by {
        lemma_mul_is_distributive_add(half, 2 * q, 1);
        lemma_mul_is_commutative(2 * q + 1, half);
        lemma_mul_is_commutative(2 * q, half);
    }
    if b == 0 {
        assert(x == 2 * q);
        assert(t.node_val(l, x) == subtree_val(leaves, (2 * q) * half, half as nat));
        assert(t.node_val(l, x + 1) == subtree_val(leaves, (2 * q + 1) * half, half as nat));
    } else {
        assert(x - 1 == 2 * q);
        assert(t.node_val(l, x - 1) == subtree_val(leaves, (2 * q) * half, half as nat));
        assert(t.node_val(l, x) == subtree_val(leaves, (2 * q + 1) * half, half as nat));
    }
}

/// Folding the first `k` siblings of a path yields the node's ancestor `k`
/// levels up.
proof fn lemma_fold_path_prefix(t: MerkleTree, d: int, i: int, k: nat)
    requires
        t.wf(),
        t.valid_coords(d, i),
        k <= d,
    ensures
        fold_path(t.path_val(d, i), i, k) == t.node_val(d - k, i / pow2(k) as int),
    decreases k,
{
    let path = t.path_val(d, i);
    if k == 0 {
        assert(path[0] == t.node_val(d, i));
        assert(pow2(0nat) == 1) by {
            lemma2_to64();
        }
        assert(i / 1 == i);
    } else {
        lemma_fold_path_prefix(t, d, i, (k - 1) as nat);
        let x = i / pow2((k - 1) as nat) as int;
        assert(path[k as int] == t.node_val(d - k + 1, sibling_of(x)));
        lemma_pow2_pos((k - 1) as nat);
        assert(x >= 0) by {
            vstd::arithmetic::div_mod::lemma_div_pos_is_pos(i, pow2((k - 1) as nat) as int);
        }
        assert(x < pow2((d - k + 1) as nat)) by {
            lemma_pow2_adds((k - 1) as nat, (d - k + 1) as nat);
            vstd::arithmetic::div_mod::lemma_multiply_divide_lt(
                i,
                pow2((k - 1) as nat) as int,
                pow2((d - k + 1) as nat) as int,
            );
        }
        lemma_parent_node(t, d - k + 1, x);
        lemma_div_chain(i, (k - 1) as nat);
        assert(x / 2 == i / pow2(k) as int);
        if x % 2 == 0 {
            assert(sibling_of(x) == x + 1);
            assert(fold_path(path, i, k) == merge_spec(
                t.node_val(d - k + 1, x),
                t.node_val(d - k + 1, x + 1),
                0,
            ));
        } else {
            assert(sibling_of(x) == x - 1);
            assert(fold_path(path, i, k) == merge_spec(
                t.node_val(d - k + 1, x - 1),
                t.node_val(d - k + 1, x),
                0,
            ));
        }
    }
}

/// The authentication path of any addressable node carries the node's own
/// value first and, walked upward with the index's bit pattern, reproduces
/// the tree's root.
pub proof fn lemma_path_determines_node(t: MerkleTree, d: int, i: int)
    requires
        t.wf(),
        t.valid_coords(d, i),
    ensures
        t.path_val(d, i)[0] == t.node_val(d, i),
        fold_path(t.path_val(d, i), i, d as nat) == t.root_val(),
{
    lemma_fold_path_prefix(t, d, i, d as nat);
    assert(i / pow2(d as nat) as int == 0) by {
        lemma_pow2_pos(d as nat);
        vstd::arithmetic::div_mod::lemma_basic_div(i, pow2(d as nat) as int);
    }
    assert(t.node_val(0, 0) == subtree_val(
        t.leaf_vals(),
        0,
        pow2((t.depth_val()) as nat),
    )) by {
        assert(0int * pow2((t.depth_val()) as nat) as int == 0) by {
            lemma_mul_is_commutative(0, pow2((t.depth_val()) as nat) as int);
        }
    }
}

} // verus!
