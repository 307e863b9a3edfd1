//! The registration service: owns the Merkle accumulator, appends raw
//! values and client-supplied commitments, and renders roots in the hex
//! wire format.  A host that dispatches requests concurrently wraps the
//! service in its own lock; every operation here is synchronous.

use vstd::prelude::*;

use crate::codec::{bytes_to_hex, fe_to_hex, hex_to_bytes, hex_to_fe, valid_commitment_hex};
use crate::field::{u64_le, Fe};
use crate::merkle::{next_pow2, pad_zeros, strip_zeros, LeafValue, MerkleTree};

verus! {

/// Response carrying the root hash of the tree as 64 lowercase hex
/// characters.
#[derive(Debug)]
pub struct TreeResponse {
    /// The root hash in the hex wire format.
    pub data: String,
}

/// Why a registration was rejected.
#[derive(Clone, Copy, Debug, PartialEq, Eq, Structural)]
pub enum RegisterError {
    /// The submitted commitment was not 64 lowercase hex characters, or its
    /// encoding was not a canonical field element.
    InvalidCommitment,
}

/// Parse a client-supplied commitment: 64 lowercase hex characters holding
/// a canonical field-element encoding.
pub fn parse_fp_hex(hex: &str) -> (r: Option<Fe>)
    ensures
        r is Some <==> valid_commitment_hex(hex@),
        r matches Some(fe) ==> fe@ == hex_to_bytes(hex@),
{
    hex_to_fe(hex)
}

/// Owns the shared Merkle tree and serves appends and root reads.
pub struct MerkleTreeService {
    /// The accumulator.
    pub tree: MerkleTree,
}

impl MerkleTreeService {
    /// Create the service with the default demo tree of eight raw leaves
    /// `[10, 20, 30, 40, 50, 60, 70, 80]` (so the depth is 3).
    pub fn new() -> (s: Self)
        ensures
            s.tree.well_formed(),
            s.tree.depth_spec() == 3,
            s.tree.leaf_views() == seq![
                u64_le(10),
                u64_le(20),
                u64_le(30),
                u64_le(40),
                u64_le(50),
                u64_le(60),
                u64_le(70),
                u64_le(80),
            ],
    {
        let seed: Vec<LeafValue> = vec![
            LeafValue::Unhashed(10),
            LeafValue::Unhashed(20),
            LeafValue::Unhashed(30),
            LeafValue::Unhashed(40),
            LeafValue::Unhashed(50),
            LeafValue::Unhashed(60),
            LeafValue::Unhashed(70),
            LeafValue::Unhashed(80),
        ];
        let tree = MerkleTree::new(seed);
        proof {
            assert(crate::merkle::pow2(0) == 1);
            assert(crate::merkle::pow2(1) == 2);
            assert(crate::merkle::pow2(2) == 4);
            assert(crate::merkle::pow2(3) == 8);
            crate::merkle::lemma_next_pow2_unique(8, 3);
            crate::merkle::lemma_pow2_injective(tree.depth_spec(), 3);
            assert(tree.leaf_views() =~= seq![
                u64_le(10),
                u64_le(20),
                u64_le(30),
                u64_le(40),
                u64_le(50),
                u64_le(60),
                u64_le(70),
                u64_le(80),
            ]);
        }
        MerkleTreeService { tree }
    }

    /// Append a raw value as a leaf, rebuild, and return the new root hash.
    pub fn add_to_tree(&mut self, value: u64) -> (r: TreeResponse)
        requires
            old(self).tree.well_formed(),
            old(self).tree.leaf_views().len() < usize::MAX as nat / 2,
        ensures
            final(self).tree.well_formed(),
            final(self).tree.leaf_views() == pad_zeros(
                strip_zeros(old(self).tree.leaf_views()).push(u64_le(value)),
                next_pow2(strip_zeros(old(self).tree.leaf_views()).len() + 1),
            ),
            final(self).tree.depth_spec() <= old(self).tree.depth_spec() + 1,
            r.data@ == bytes_to_hex(final(self).tree.root_spec()),
            valid_commitment_hex(r.data@),
    {
        self.tree.add(LeafValue::Unhashed(value));
        let root = self.tree.root();
        TreeResponse { data: fe_to_hex(&root) }
    }

    /// Append an already-validated commitment and return the new root hash.
    pub fn register_commitment(&mut self, commitment: Fe) -> (r: TreeResponse)
        requires
            old(self).tree.well_formed(),
            old(self).tree.leaf_views().len() < usize::MAX as nat / 2,
        ensures
            final(self).tree.well_formed(),
            final(self).tree.leaf_views() == pad_zeros(
                strip_zeros(old(self).tree.leaf_views()).push(commitment@),
                next_pow2(strip_zeros(old(self).tree.leaf_views()).len() + 1),
            ),
            final(self).tree.depth_spec() <= old(self).tree.depth_spec() + 1,
            r.data@ == bytes_to_hex(final(self).tree.root_spec()),
            valid_commitment_hex(r.data@),
    {
        self.tree.add(LeafValue::Hashed(commitment));
        let root = self.tree.root();
        TreeResponse { data: fe_to_hex(&root) }
    }

    /// Validate and register a client-supplied commitment.  Exactly the
    /// strings of 64 lowercase hex digits below the field modulus are
    /// accepted; anything else is rejected and the tree is untouched.
    pub fn register(&mut self, commitment_hex: &str) -> (r: Result<TreeResponse, RegisterError>)
        requires
            old(self).tree.well_formed(),
            old(self).tree.leaf_views().len() < usize::MAX as nat / 2,
        ensures
            r is Ok <==> valid_commitment_hex(commitment_hex@),
            (r matches Ok(resp) ==> {
                &&& final(self).tree.well_formed()
                &&& final(self).tree.leaf_views() == pad_zeros(
                    strip_zeros(old(self).tree.leaf_views()).push(hex_to_bytes(commitment_hex@)),
                    next_pow2(strip_zeros(old(self).tree.leaf_views()).len() + 1),
                )
                &&& final(self).tree.depth_spec() <= old(self).tree.depth_spec() + 1
                &&& resp.data@ == bytes_to_hex(final(self).tree.root_spec())
                &&& valid_commitment_hex(resp.data@)
            }),
            r is Err ==> r == Result::<TreeResponse, RegisterError>::Err(
                RegisterError::InvalidCommitment,
            ) && *final(self) == *old(self),
    {
        match parse_fp_hex(commitment_hex) {
            Some(commitment) => Ok(self.register_commitment(commitment)),
            None => Err(RegisterError::InvalidCommitment),
        }
    }

    /// The current root in the hex wire format.
    pub fn current_root(&self) -> (r: String)
        requires
            self.tree.well_formed(),
        ensures
            r@ == bytes_to_hex(self.tree.root_spec()),
            valid_commitment_hex(r@),
    {
        let root = self.tree.root();
        fe_to_hex(&root)
    }

    /// The number of hash levels of the current tree.
    pub fn depth(&self) -> (r: usize)
        ensures
            r as nat == self.tree.depth_spec(),
    {
        self.tree.depth()
    }

    /// Run a read-only closure against the tree.
    pub fn with_tree<R, F: FnOnce(&MerkleTree) -> R>(&self, f: F) -> (r: R)
        requires
            call_requires(f, (&self.tree,)),
        ensures
            call_ensures(f, (&self.tree,), r),
    {
        f(&self.tree)
    }

    /// Mutable access to the tree.
    pub fn with_tree_mut(&mut self) -> (t: &mut MerkleTree)
        ensures
            *t == old(self).tree,
            final(self).tree == *final(t),
    {
        &mut self.tree
    }
}

} // verus!
