//! Witness construction for the inclusion circuit.  Given the live tree and
//! a secret (or a raw demo value), this module locates the commitment among
//! the leaves and assembles the leaf, path siblings, direction bits and
//! public root that the prover consumes.  When the value is absent it hands
//! back dummy path entries, which the prover is guaranteed to reject only
//! probabilistically; the `found` flag records the decision.

use vstd::prelude::*;

use crate::field::{commit_of, poseidon_commit, u64_le, zero_le, Fe};
use crate::merkle::{
    fold_path, lemma_added_leaf_present, next_pow2, pad_zeros, strip_zeros, views_of, MerkleTree,
};

verus! {

/// Outcome of a proof request.
#[derive(Clone, Copy, Debug, PartialEq, Eq, Structural)]
pub struct ZKProofResponse {
    /// Whether the proof verified.
    pub proof: bool,
}

/// The private and public inputs handed to the inclusion circuit, for a
/// tree snapshot: the leaf being proven, one sibling and one direction bit
/// per level (leaf level first), and the expected root.
pub struct CircuitWitness {
    /// The leaf value being proven.
    pub leaf: Fe,
    /// Sibling nodes along the path, leaf level first.
    pub siblings: Vec<Fe>,
    /// Direction bits, `0` for a left path node and `1` for a right one.
    pub directions: Vec<Fe>,
    /// The root of the tree snapshot: the single public input.
    pub root: Fe,
    /// Whether the leaf was found; with `false` the path entries are dummy
    /// zeros and the prover cannot succeed except with negligible
    /// probability.
    pub found: bool,
}

/// Registration soundness, up to the prover: a tree whose leaves are the
/// result of appending `poseidon_commit(secret)` holds that commitment, so
/// `witness_for_secret` on it reports the leaf found, and by its contract
/// the witness folds to the new root.  What remains — that the prover
/// accepts a folding witness — is the circuit's completeness.
pub proof fn lemma_register_then_witness_found(before: Seq<Seq<u8>>, secret: u64)
    ensures
        ({
            let after = pad_zeros(
                strip_zeros(before).push(commit_of(secret)),
                next_pow2(strip_zeros(before).len() + 1),
            );
            exists|i: int| 0 <= i < after.len() && after[i] == commit_of(secret)
        }),
{
    lemma_added_leaf_present(before, commit_of(secret));
}

/// The first leaf position holding the given encoding, if any.
pub fn find_leaf(tree: &MerkleTree, value: &Fe) -> (r: Option<usize>)
    ensures
        (r matches Some(i) ==> {
            &&& (i as nat) < tree.leaf_views().len()
            &&& tree.leaf_views()[i as int] == value@
            &&& forall|j: int| 0 <= j < i ==> tree.leaf_views()[j] != value@
        }),
        r is None ==> forall|j: int|
            0 <= j < tree.leaf_views().len() ==> tree.leaf_views()[j] != value@,
{
    let leaves = tree.leaves();
    let mut i: usize = 0;
    while i < leaves.len()
        invariant
            i <= leaves@.len(),
            views_of(leaves@) == tree.leaf_views(),
            forall|j: int| 0 <= j < i ==> tree.leaf_views()[j] != value@,
        decreases leaves@.len() - i,
    {
        if leaves[i] == *value {
            proof {
                assert(tree.leaf_views()[i as int] == leaves@[i as int]@);
            }
            return Some(i);
        }
        proof {
            assert(tree.leaf_views()[i as int] == leaves@[i as int]@);
        }
        i += 1;
    }
    None
}

/// Build the witness for proving that the given leaf encoding is in the
/// tree.  When the leaf is present the path comes from the tree and folding
/// the leaf through it provably reproduces the root; when it is absent the
/// path entries are zeros and `found` is false.
pub fn witness_for_leaf(tree: &MerkleTree, leaf: Fe) -> (w: CircuitWitness)
    requires
        tree.well_formed(),
    ensures
        w.leaf@ == leaf@,
        w.root@ == tree.root_spec(),
        w.siblings@.len() == tree.depth_spec(),
        w.directions@.len() == tree.depth_spec(),
        w.found <==> (exists|i: int|
            0 <= i < tree.leaf_views().len() && tree.leaf_views()[i] == leaf@),
        w.found ==> fold_path(w.leaf@, views_of(w.siblings@), views_of(w.directions@))
            == tree.root_spec(),
        !w.found ==> (forall|k: int|
            0 <= k < tree.depth_spec() ==> (#[trigger] w.siblings@[k])@ == zero_le()),
        !w.found ==> (forall|k: int|
            0 <= k < tree.depth_spec() ==> (#[trigger] w.directions@[k])@ == zero_le()),
{
    match find_leaf(tree, &leaf) {
        Some(idx) => {
            match tree.generate_proof(idx) {
                Some(p) => {
                    proof {
                        assert(tree.leaf_views()[idx as int] == leaf@);
                    }
                    CircuitWitness {
                        leaf: p.leaf,
                        siblings: p.siblings,
                        directions: p.directions,
                        root: p.root,
                        found: true,
                    }
                },
                None => vstd::pervasive::unreached(),
            }
        },
        None => {
            let depth = tree.depth();
            let mut siblings: Vec<Fe> = Vec::new();
            let mut directions: Vec<Fe> = Vec::new();
            let mut k: usize = 0;
            while k < depth
                invariant
                    k <= depth,
                    siblings@.len() == k,
                    directions@.len() == k,
                    forall|j: int| 0 <= j < k ==> (#[trigger] siblings@[j])@ == zero_le(),
                    forall|j: int| 0 <= j < k ==> (#[trigger] directions@[j])@ == zero_le(),
                decreases depth - k,
            {
                let z1 = Fe::zero();
                let z2 = Fe::zero();
                siblings.push(z1);
                directions.push(z2);
                k += 1;
            }
            let root = tree.root();
            let w = CircuitWitness { leaf, siblings, directions, root, found: false };
            proof {
                assert forall|j: int| 0 <= j < tree.depth_spec() implies (#[trigger] w.siblings@[j])@
                    == zero_le() by {
                    assert(siblings@[j]@ == zero_le());
                }
                assert forall|j: int| 0 <= j < tree.depth_spec() implies (
                #[trigger] w.directions@[j])@ == zero_le() by {
                    assert(directions@[j]@ == zero_le());
                }
            }
            w
        },
    }
}

/// Build the witness for proving knowledge of a secret: commit to the
/// secret with Poseidon and look the commitment up among the leaves.  The
/// commitment here and the one clients compute are the same function, so a
/// secret registered as its commitment is always found.
pub fn witness_for_secret(tree: &MerkleTree, secret: u64) -> (w: CircuitWitness)
    requires
        tree.well_formed(),
    ensures
        w.leaf@ == commit_of(secret),
        w.root@ == tree.root_spec(),
        w.siblings@.len() == tree.depth_spec(),
        w.directions@.len() == tree.depth_spec(),
        w.found <==> (exists|i: int|
            0 <= i < tree.leaf_views().len() && tree.leaf_views()[i] == commit_of(secret)),
        w.found ==> fold_path(w.leaf@, views_of(w.siblings@), views_of(w.directions@))
            == tree.root_spec(),
{
    let c = poseidon_commit(secret);
    witness_for_leaf(tree, c)
}

/// Build the witness for proving that a raw 64-bit value is a leaf of the
/// demo tree.
pub fn witness_for_value(tree: &MerkleTree, value: u64) -> (w: CircuitWitness)
    requires
        tree.well_formed(),
    ensures
        w.leaf@ == u64_le(value),
        w.root@ == tree.root_spec(),
        w.siblings@.len() == tree.depth_spec(),
        w.directions@.len() == tree.depth_spec(),
        w.found <==> (exists|i: int|
            0 <= i < tree.leaf_views().len() && tree.leaf_views()[i] == u64_le(value)),
        w.found ==> fold_path(w.leaf@, views_of(w.siblings@), views_of(w.directions@))
            == tree.root_spec(),
{
    let fe = Fe::from_u64(value);
    witness_for_leaf(tree, fe)
}

} // verus!
