//! The Merkle accumulator: a Poseidon-hashed binary tree over field
//! elements, kept padded to a power of two, with append and inclusion-proof
//! extraction.
//!
//! The tree maintains three invariants: every internal node is the Poseidon
//! hash of its two children, the leaf count is a power of two, and padding
//! appended to reach that count is all zeros.  Extracted proofs provably
//! fold back to the root.

use vstd::prelude::*;

use crate::field::{
    lemma_nat_le_bytes_val, nat_le_bytes, one_le, poseidon2, poseidon2_of, u64_le, zero_le, Fe,
};

verus! {

/// 2 to the power `e`: the leaf counts and level widths of the tree.
pub open spec fn pow2(e: nat) -> nat
    decreases e,
{
    if e == 0 {
        1
    } else {
        2 * pow2((e - 1) as nat)
    }
}

/// Ceiling of the base-2 logarithm: the depth a tree of `n` leaves needs.
pub open spec fn clog2(n: nat) -> nat
    decreases n,
{
    if n <= 1 {
        0
    } else {
        1 + clog2(((n + 1) / 2) as nat)
    }
}

/// The smallest power of two that is at least `n` (and at least 1).
pub open spec fn next_pow2(n: nat) -> nat {
    pow2(clog2(n))
}

/// Powers of two are positive.
pub proof fn lemma_pow2_pos(e: nat)
    ensures
        pow2(e) >= 1,
    decreases e,
{
    if e > 0 {
        lemma_pow2_pos((e - 1) as nat);
    }
}

/// Powers of two are monotonic in the exponent.
pub proof fn lemma_pow2_monotonic(a: nat, b: nat)
    requires
        a <= b,
    ensures
        pow2(a) <= pow2(b),
    decreases b,
{
    if a < b {
        lemma_pow2_monotonic(a, (b - 1) as nat);
        lemma_pow2_pos((b - 1) as nat);
    }
}

/// A power of two exceeds its exponent.
pub proof fn lemma_pow2_lower(e: nat)
    ensures
        pow2(e) >= e + 1,
    decreases e,
{
    if e > 0 {
        lemma_pow2_lower((e - 1) as nat);
    }
}

/// A strictly larger exponent at least doubles the power.
pub proof fn lemma_pow2_strict(a: nat, b: nat)
    requires
        a < b,
    ensures
        2 * pow2(a) <= pow2(b),
    decreases b,
{
    if a + 1 < b {
        lemma_pow2_strict(a, (b - 1) as nat);
        lemma_pow2_pos(a);
    }
}

/// Equal powers have equal exponents.
pub proof fn lemma_pow2_injective(a: nat, b: nat)
    requires
        pow2(a) == pow2(b),
    ensures
        a == b,
{
    lemma_pow2_pos(a);
    lemma_pow2_pos(b);
    if a < b {
        lemma_pow2_strict(a, b);
    }
    if b < a {
        lemma_pow2_strict(b, a);
    }
}

/// `next_pow2(n)` is at least `n`, and halving it drops below `n`.
pub proof fn lemma_next_pow2_bounds(n: nat)
    ensures
        next_pow2(n) >= n,
        next_pow2(n) >= 1,
        n >= 2 ==> clog2(n) >= 1 && pow2((clog2(n) - 1) as nat) < n,
    decreases n,
{
    lemma_pow2_pos(clog2(n));
    if n >= 2 {
        let m = ((n + 1) / 2) as nat;
        lemma_next_pow2_bounds(m);
        assert(next_pow2(n) == 2 * pow2(clog2(m)));
        assert(2 * pow2(clog2(m)) >= 2 * m >= n);
        if m >= 2 {
            assert(pow2(clog2(m)) == 2 * pow2((clog2(m) - 1) as nat));
            assert(pow2((clog2(m) - 1) as nat) <= m - 1);
            assert(pow2(clog2(m)) <= 2 * m - 2 < n);
        } else {
            assert(n == 2);
            assert(clog2(1nat) == 0);
            assert(pow2(0) == 1 < n);
        }
    }
}

/// Any power of two at least `n` whose half is below `n` is `next_pow2(n)`.
pub proof fn lemma_next_pow2_unique(n: nat, e: nat)
    requires
        pow2(e) >= n,
        e == 0 || pow2((e - 1) as nat) < n,
    ensures
        pow2(e) == next_pow2(n),
        e == clog2(n),
{
    lemma_next_pow2_bounds(n);
    let c = clog2(n);
    if e < c {
        assert(n >= 2) by {
            if n <= 1 {
                assert(c == 0);
            }
        }
        lemma_pow2_monotonic(e, (c - 1) as nat);
        assert(false);
    }
    if c < e {
        assert(pow2((e - 1) as nat) < n);
        lemma_pow2_monotonic(c, (e - 1) as nat);
        assert(false);
    }
}

/// If `n` fits below a power of two, so does `next_pow2(n)`.
pub proof fn lemma_next_pow2_le_pow2(n: nat, e: nat)
    requires
        1 <= n <= pow2(e),
    ensures
        next_pow2(n) <= pow2(e),
        clog2(n) <= e,
    decreases n,
{
    if n <= 1 {
        lemma_pow2_pos(e);
    } else {
        let m = ((n + 1) / 2) as nat;
        assert(e >= 1) by {
            if e == 0 {
                assert(pow2(0) == 1);
            }
        }
        assert(pow2(e) == 2 * pow2((e - 1) as nat));
        assert(m <= pow2((e - 1) as nat));
        lemma_next_pow2_le_pow2(m, (e - 1) as nat);
        lemma_pow2_monotonic(clog2(m), (e - 1) as nat);
    }
}

/// The canonical encodings of a sequence of field elements.
pub open spec fn views_of(s: Seq<Fe>) -> Seq<Seq<u8>> {
    Seq::new(s.len(), |i: int| s[i]@)
}

/// A leaf submitted to the tree: either a raw 64-bit value, lifted into the
/// field, or a pre-hashed commitment used as is.
#[derive(Clone, Copy, Debug)]
pub enum LeafValue {
    /// A raw value, stored as the field element it lifts to.
    Unhashed(u64),
    /// A pre-hashed field element, stored as is.
    Hashed(Fe),
}

impl LeafValue {
    /// The field-element encoding this leaf contributes to the tree.
    pub open spec fn leaf_enc(self) -> Seq<u8> {
        match self {
            LeafValue::Unhashed(v) => u64_le(v),
            LeafValue::Hashed(fe) => fe@,
        }
    }

    /// The field element stored in the tree for this leaf.
    pub fn to_fe(self) -> (r: Fe)
        ensures
            r@ == self.leaf_enc(),
    {
        match self {
            LeafValue::Unhashed(v) => Fe::from_u64(v),
            LeafValue::Hashed(fe) => fe,
        }
    }
}

impl From<u64> for LeafValue {
    fn from(val: u64) -> (r: LeafValue) {
        LeafValue::Unhashed(val)
    }
}

impl vstd::std_specs::convert::FromSpecImpl<u64> for LeafValue {
    open spec fn obeys_from_spec() -> bool {
        true
    }

    open spec fn from_spec(val: u64) -> LeafValue {
        LeafValue::Unhashed(val)
    }
}

impl From<Fe> for LeafValue {
    fn from(val: Fe) -> (r: LeafValue) {
        LeafValue::Hashed(val)
    }
}

impl vstd::std_specs::convert::FromSpecImpl<Fe> for LeafValue {
    open spec fn obeys_from_spec() -> bool {
        true
    }

    open spec fn from_spec(val: Fe) -> LeafValue {
        LeafValue::Hashed(val)
    }
}

/// An inclusion proof for one leaf: the sibling on the path at each level,
/// the direction the path takes at each level (`0` for left, `1` for right,
/// as field elements), and the root it folds back to.
#[derive(Clone, Debug)]
pub struct MerkleProof {
    /// The leaf value being proven.
    pub leaf: Fe,
    /// Sibling nodes along the path, leaf level first.
    pub siblings: Vec<Fe>,
    /// Direction bits: `0` when the path node is the left child, `1` when it
    /// is the right child.
    pub directions: Vec<Fe>,
    /// The root at the moment of extraction.
    pub root: Fe,
}

/// A Poseidon-hashed binary Merkle tree.  The leaf count is always a power
/// of two; `levels[0]` is the leaves and each higher level hashes pairs of
/// the level below, up to the single root.
pub struct MerkleTree {
    leaves: Vec<Fe>,
    levels: Vec<Vec<Fe>>,
    depth: usize,
}

/// Structural well-formedness of the level arrays over plain encodings:
/// level 0 is the leaves, level widths halve, and every node at a positive
/// level is the Poseidon hash of its two children.
pub open spec fn levels_linked(
    leaves: Seq<Seq<u8>>,
    levels: Seq<Seq<Seq<u8>>>,
    depth: nat,
) -> bool {
    &&& leaves.len() >= 1
    &&& leaves.len() == pow2(depth)
    &&& levels.len() == depth + 1
    &&& levels[0] == leaves
    &&& forall|k: int| 0 <= k <= depth ==> (#[trigger] levels[k]).len() == pow2((depth - k) as nat)
    &&& forall|k: int, i: int|
        1 <= k <= depth && 0 <= i < levels[k].len() ==> #[trigger] levels[k][i] == poseidon2_of(
            levels[k - 1][2 * i],
            levels[k - 1][2 * i + 1],
        )
}

impl MerkleTree {
    /// The canonical encodings of the leaves, padding included.
    pub closed spec fn leaf_views(self) -> Seq<Seq<u8>> {
        views_of(self.leaves@)
    }

    /// The canonical encodings of every level, leaves first, root last.
    pub closed spec fn level_views(self) -> Seq<Seq<Seq<u8>>> {
        Seq::new(self.levels@.len(), |k: int| views_of(self.levels@[k]@))
    }

    /// The number of hash levels from leaf to root.
    pub closed spec fn depth_spec(self) -> nat {
        self.depth as nat
    }

    /// The tree invariants: hash links at every level, a power-of-two leaf
    /// count, and consistent level widths.
    pub open spec fn well_formed(self) -> bool {
        levels_linked(self.leaf_views(), self.level_views(), self.depth_spec())
    }

    /// The root encoding.
    pub open spec fn root_spec(self) -> Seq<u8> {
        self.level_views()[self.depth_spec() as int][0]
    }

    /// Rebuild every level above the leaves from scratch.
    #[verifier::loop_isolation(false)]
    fn build(&mut self)
        requires
            old(self).leaves@.len() >= 1,
            pow2(old(self).depth as nat) == old(self).leaves@.len(),
        ensures
            final(self).leaves == old(self).leaves,
            final(self).depth == old(self).depth,
            final(self).well_formed(),
    {
        self.levels = Vec::new();
        let mut level0: Vec<Fe> = Vec::new();
        let mut i: usize = 0;
        while i < self.leaves.len()
            invariant
                i <= self.leaves.len(),
                level0@.len() == i,
                forall|j: int| 0 <= j < i ==> level0@[j] == self.leaves@[j],
                self.leaves == old(self).leaves,
                self.depth == old(self).depth,
                self.levels@.len() == 0,
            decreases self.leaves.len() - i,
        {
            let fe = self.leaves[i];
            level0.push(fe);
            i += 1;
        }
        self.levels.push(level0);
        proof {
            assert(views_of(self.levels@[0]@) =~= views_of(self.leaves@));
        }
        let mut k: usize = 0;
        while k < self.depth
            invariant
                k <= self.depth,
                self.leaves == old(self).leaves,
                self.depth == old(self).depth,
                self.levels@.len() == k + 1,
                self.level_views()[0] == self.leaf_views(),
                forall|j: int|
                    0 <= j <= k ==> (#[trigger] self.level_views()[j]).len() == pow2(
                        (self.depth - j) as nat,
                    ),
                forall|kk: int, ii: int|
                    1 <= kk <= k && 0 <= ii < self.level_views()[kk].len()
                        ==> #[trigger] self.level_views()[kk][ii] == poseidon2_of(
                        self.level_views()[kk - 1][2 * ii],
                        self.level_views()[kk - 1][2 * ii + 1],
                    ),
            decreases self.depth - k,
        {
            let ghost pre_views = self.level_views();
            let n_cur = self.levels[k].len();
            proof {
                assert(self.level_views()[k as int].len() == pow2((self.depth - k) as nat));
                assert(self.level_views()[k as int] =~= views_of(self.levels@[k as int]@));
                assert(n_cur == pow2((self.depth - k) as nat));
                assert(pow2((self.depth - k) as nat) == 2 * pow2((self.depth - k - 1) as nat));
            }
            let half = n_cur / 2;
            let mut next: Vec<Fe> = Vec::new();
            let mut i: usize = 0;
            while i < half
                invariant
                    i <= half,
                    next@.len() == i,
                    self.levels@.len() == k + 1,
                    k < self.depth,
                    n_cur == self.levels@[k as int]@.len(),
                    half == n_cur / 2,
                    n_cur == 2 * half,
                    forall|j: int|
                        0 <= j < i ==> #[trigger] next@[j]@ == poseidon2_of(
                            self.level_views()[k as int][2 * j],
                            self.level_views()[k as int][2 * j + 1],
                        ),
                decreases half - i,
            {
                let a = self.levels[k][2 * i];
                let b = self.levels[k][2 * i + 1];
                let h = poseidon2(&a, &b);
                next.push(h);
                i += 1;
            }
            self.levels.push(next);
            k += 1;
            proof {
                assert(self.level_views().len() == k + 1);
                assert forall|j: int| 0 <= j <= k implies (#[trigger] self.level_views()[j]).len()
                    == pow2((self.depth - j) as nat) by {
                    if j < k {
                        assert(self.level_views()[j] =~= pre_views[j]);
                    } else {
                        assert(self.level_views()[j] =~= views_of(next@));
                    }
                }
                assert forall|kk: int, ii: int|
                    1 <= kk <= k && 0 <= ii < self.level_views()[kk].len()
                        implies #[trigger] self.level_views()[kk][ii] == poseidon2_of(
                        self.level_views()[kk - 1][2 * ii],
                        self.level_views()[kk - 1][2 * ii + 1],
                    ) by {
                    if kk < k {
                        assert(self.level_views()[kk] =~= pre_views[kk]);
                        assert(self.level_views()[kk - 1] =~= pre_views[kk - 1]);
                    } else {
                        assert(self.level_views()[kk] =~= views_of(next@));
                        assert(self.level_views()[kk - 1] =~= pre_views[kk - 1]);
                    }
                }
                assert(self.level_views()[0] =~= pre_views[0]);
            }
        }
    }

    /// Create a tree from a non-empty list of leaves, padding with zeros up
    /// to the next power of two and building every level.
    #[verifier::loop_isolation(false)]
    pub fn new(leaves: Vec<LeafValue>) -> (t: MerkleTree)
        requires
            leaves@.len() >= 1,
            leaves@.len() <= usize::MAX as nat / 2 + 1,
        ensures
            t.well_formed(),
            t.leaf_views().len() == next_pow2(leaves@.len()),
            forall|i: int|
                0 <= i < leaves@.len() ==> t.leaf_views()[i] == (#[trigger] leaves@[i]).leaf_enc(),
            forall|i: int|
                leaves@.len() <= i < t.leaf_views().len() ==> #[trigger] t.leaf_views()[i]
                    == zero_le(),
    {
        let mut fes: Vec<Fe> = Vec::new();
        let mut i: usize = 0;
        while i < leaves.len()
            invariant
                i <= leaves.len(),
                fes@.len() == i,
                forall|j: int| 0 <= j < i ==> #[trigger] fes@[j]@ == leaves@[j].leaf_enc(),
            decreases leaves.len() - i,
        {
            let fe = leaves[i].to_fe();
            fes.push(fe);
            i += 1;
        }
        let (target, d) = next_pow2_exec(fes.len());
        while fes.len() < target
            invariant
                leaves@.len() <= fes@.len() <= target,
                forall|j: int| 0 <= j < leaves@.len() ==> #[trigger] fes@[j]@ == leaves@[j].leaf_enc(),
                forall|j: int| leaves@.len() <= j < fes@.len() ==> #[trigger] fes@[j]@ == zero_le(),
            decreases target - fes@.len(),
        {
            let z = Fe::zero();
            fes.push(z);
        }
        let mut t = MerkleTree { leaves: fes, levels: Vec::new(), depth: d };
        t.build();
        t
    }

    /// Append a leaf.  Trailing zero padding is stripped first (never below
    /// one leaf), the new leaf is pushed, the sequence is re-padded with
    /// zeros to the next power of two, and every level is rebuilt.  The
    /// depth grows by at most one.
    #[verifier::loop_isolation(false)]
    pub fn add(&mut self, leaf: LeafValue)
        requires
            old(self).well_formed(),
            old(self).leaf_views().len() < usize::MAX as nat / 2,
        ensures
            final(self).well_formed(),
            final(self).leaf_views() == pad_zeros(
                strip_zeros(old(self).leaf_views()).push(leaf.leaf_enc()),
                next_pow2(strip_zeros(old(self).leaf_views()).len() + 1),
            ),
            final(self).depth_spec() <= old(self).depth_spec() + 1,
    {
        let z = Fe::zero();
        while self.leaves.len() > 1 && self.leaves[self.leaves.len() - 1] == z
            invariant
                1 <= self.leaves@.len() <= old(self).leaf_views().len(),
                strip_zeros(views_of(self.leaves@)) == strip_zeros(old(self).leaf_views()),
            decreases self.leaves@.len(),
        {
            let ghost pre = views_of(self.leaves@);
            proof {
                assert(pre.last() == zero_le());
            }
            self.leaves.pop();
            proof {
                assert(views_of(self.leaves@) =~= pre.drop_last());
            }
        }
        let ghost stripped = views_of(self.leaves@);
        proof {
            if self.leaves@.len() > 1 {
                assert(stripped.last() != zero_le());
            }
            assert(strip_zeros(stripped) == stripped);
            assert(stripped == strip_zeros(old(self).leaf_views()));
        }
        let fe = leaf.to_fe();
        self.leaves.push(fe);
        let ghost base = views_of(self.leaves@);
        proof {
            assert(base =~= stripped.push(leaf.leaf_enc()));
        }
        let (target, d) = next_pow2_exec(self.leaves.len());
        while self.leaves.len() < target
            invariant
                base.len() <= self.leaves@.len() <= target,
                forall|j: int| 0 <= j < base.len() ==> views_of(self.leaves@)[j] == base[j],
                forall|j: int|
                    base.len() <= j < self.leaves@.len() ==> views_of(self.leaves@)[j] == zero_le(),
            decreases target - self.leaves@.len(),
        {
            let ghost pre = self.leaves@;
            let zz = Fe::zero();
            self.leaves.push(zz);
            proof {
                assert forall|j: int| base.len() <= j < self.leaves@.len() implies views_of(
                    self.leaves@,
                )[j] == zero_le() by {
                    if j < pre.len() {
                        assert(views_of(pre)[j] == zero_le());
                        assert(self.leaves@[j] == pre[j]);
                    } else {
                        assert(self.leaves@[j] == zz);
                    }
                }
                assert forall|j: int| 0 <= j < base.len() implies views_of(self.leaves@)[j]
                    == base[j] by {
                    assert(views_of(pre)[j] == base[j]);
                    assert(self.leaves@[j] == pre[j]);
                }
            }
        }
        proof {
            assert(views_of(self.leaves@) =~= pad_zeros(base, target as nat));
        }
        self.depth = d;
        self.build();
        proof {
            lemma_next_pow2_bounds(old(self).leaf_views().len());
            assert(base.len() <= old(self).leaf_views().len() + 1);
            assert(old(self).leaf_views().len() == pow2(old(self).depth_spec()));
            lemma_pow2_pos(old(self).depth_spec());
            assert(base.len() <= pow2((old(self).depth_spec() + 1) as nat));
            lemma_next_pow2_le_pow2(base.len(), old(self).depth_spec() + 1);
        }
    }

    /// The root of the tree.
    pub fn root(&self) -> (r: Fe)
        requires
            self.well_formed(),
        ensures
            r@ == self.root_spec(),
    {
        proof {
            assert(self.level_views()[self.depth as int].len() == pow2(0));
        }
        self.levels[self.depth][0]
    }

    /// The number of hash levels from leaf to root.
    pub fn depth(&self) -> (r: usize)
        ensures
            r as nat == self.depth_spec(),
    {
        self.depth
    }

    /// The number of leaves, padding included.
    pub fn num_leaves(&self) -> (r: usize)
        ensures
            r as nat == self.leaf_views().len(),
    {
        self.leaves.len()
    }

    /// Extract an inclusion proof for the leaf at `leaf_index`, or `None`
    /// when the index is out of range.  The proof records, leaf level first,
    /// the sibling of the path node at each level and the direction the path
    /// takes there; folding the leaf through those entries reproduces the
    /// root the proof carries, which is the root of this tree.
    #[verifier::loop_isolation(false)]
    pub fn generate_proof(&self, leaf_index: usize) -> (r: Option<MerkleProof>)
        requires
            self.well_formed(),
        ensures
            r is Some <==> (leaf_index as nat) < self.leaf_views().len(),
            (r matches Some(p) ==> {
                &&& p.leaf@ == self.leaf_views()[leaf_index as int]
                &&& p.root@ == self.root_spec()
                &&& p.siblings@.len() == self.depth_spec()
                &&& p.directions@.len() == self.depth_spec()
                &&& (forall|k: int|
                    0 <= k < self.depth_spec() ==> (#[trigger] p.siblings@[k])@
                        == self.level_views()[k][sib_index(
                        leaf_index as int / (pow2(k as nat) as int),
                    )])
                &&& (forall|k: int|
                    0 <= k < self.depth_spec() ==> (#[trigger] p.directions@[k])@ == (if (
                    leaf_index as int / (pow2(k as nat) as int)) % 2 == 1 {
                        one_le()
                    } else {
                        zero_le()
                    }))
                &&& fold_path(p.leaf@, views_of(p.siblings@), views_of(p.directions@))
                    == self.root_spec()
            }),
    {
        if leaf_index >= self.leaves.len() {
            return None;
        }
        let mut siblings: Vec<Fe> = Vec::new();
        let mut directions: Vec<Fe> = Vec::new();
        let mut current_index: usize = leaf_index;
        let mut level: usize = 0;
        proof {
            assert(pow2(0) == 1);
            assert(leaf_index as int / 1 == leaf_index as int) by (nonlinear_arith);
        }
        while level < self.depth
            invariant
                level <= self.depth,
                siblings@.len() == level,
                directions@.len() == level,
                current_index <= leaf_index,
                current_index as int == leaf_index as int / (pow2(level as nat) as int),
                current_index < pow2((self.depth - level) as nat),
                forall|k: int|
                    0 <= k < level ==> (#[trigger] siblings@[k])@ == self.level_views()[k][sib_index(
                        leaf_index as int / (pow2(k as nat) as int),
                    )],
                forall|k: int|
                    0 <= k < level ==> (#[trigger] directions@[k])@ == (if (leaf_index as int / (
                    pow2(k as nat) as int)) % 2 == 1 {
                        one_le()
                    } else {
                        zero_le()
                    }),
            decreases self.depth - level,
        {
            let is_right = current_index % 2 == 1;
            let direction = if is_right {
                Fe::one()
            } else {
                Fe::zero()
            };
            directions.push(direction);
            proof {
                assert(self.level_views()[level as int].len() == pow2((self.depth - level) as nat));
                assert(self.level_views()[level as int] =~= views_of(self.levels@[level as int]@));
                assert(pow2((self.depth - level) as nat) == 2 * pow2(
                    (self.depth - level - 1) as nat,
                ));
            }
            let sibling_index = if is_right {
                current_index - 1
            } else {
                current_index + 1
            };
            let sibling = self.levels[level][sibling_index];
            siblings.push(sibling);
            proof {
                lemma_pow2_pos(level as nat);
                vstd::arithmetic::div_mod::lemma_div_denominator(
                    leaf_index as int,
                    pow2(level as nat) as int,
                    2,
                );
                assert(pow2(level as nat) * 2 == pow2((level + 1) as nat));
            }
            current_index = current_index / 2;
            level += 1;
        }
        let leaf = self.leaves[leaf_index];
        let root = self.root();
        let p = MerkleProof { leaf, siblings, directions, root };
        proof {
            assert(views_of(p.siblings@).len() == self.depth_spec());
            assert forall|j: int| 0 <= j < self.depth_spec() implies #[trigger] views_of(
                p.siblings@,
            )[j] == self.level_views()[j][sib_index(
                leaf_index as int / (pow2(j as nat) as int),
            )] by {
                assert(views_of(p.siblings@)[j] == p.siblings@[j]@);
            }
            assert forall|j: int| 0 <= j < self.depth_spec() implies #[trigger] views_of(
                p.directions@,
            )[j] == (if (leaf_index as int / (pow2(j as nat) as int)) % 2 == 1 {
                one_le()
            } else {
                zero_le()
            }) by {
                assert(views_of(p.directions@)[j] == p.directions@[j]@);
            }
            lemma_fold_to_root(
                *self,
                leaf_index as int,
                views_of(p.siblings@),
                views_of(p.directions@),
                0,
            );
            assert(pow2(0) == 1);
            assert(leaf_index as int / 1 == leaf_index as int) by (nonlinear_arith);
            assert(p.leaf@ == self.leaf_views()[leaf_index as int]);
        }
        Some(p)
    }

    /// The leaves, padding included.
    pub fn leaves(&self) -> (r: &[Fe])
        ensures
            views_of(r@) == self.leaf_views(),
    {
        proof {
            assert(views_of(self.leaves@) =~= self.leaf_views());
        }
        self.leaves.as_slice()
    }
}

/// Products of powers of two: `2^(a+b) == 2^a * 2^b`.
pub proof fn lemma_pow2_adds(a: nat, b: nat)
    ensures
        pow2(a + b) == pow2(a) * pow2(b),
    decreases a,
{
    if a == 0 {
        assert(pow2(0) == 1);
        assert(1 * pow2(b) == pow2(b)) by (nonlinear_arith);
    } else {
        lemma_pow2_adds((a - 1) as nat, b);
        assert(pow2(a + b) == 2 * pow2(((a - 1) + b) as nat));
        assert(2 * (pow2((a - 1) as nat) * pow2(b)) == (2 * pow2((a - 1) as nat)) * pow2(b))
            by (nonlinear_arith);
    }
}

/// One fold step along an inclusion path: hash the current node with its
/// sibling, ordered by the direction bit.
pub open spec fn fold_step(cur: Seq<u8>, sib: Seq<u8>, dir: Seq<u8>) -> Seq<u8> {
    if dir == one_le() {
        poseidon2_of(sib, cur)
    } else {
        poseidon2_of(cur, sib)
    }
}

/// Fold a node upward through the path entries from position `k` on.
pub open spec fn fold_from(cur: Seq<u8>, sibs: Seq<Seq<u8>>, dirs: Seq<Seq<u8>>, k: int) -> Seq<u8>
    decreases sibs.len() - k,
{
    if k < 0 || k >= sibs.len() {
        cur
    } else {
        fold_from(fold_step(cur, sibs[k], dirs[k]), sibs, dirs, k + 1)
    }
}

/// Fold a leaf along a whole extracted path, leaf level first.
pub open spec fn fold_path(leaf: Seq<u8>, sibs: Seq<Seq<u8>>, dirs: Seq<Seq<u8>>) -> Seq<u8> {
    fold_from(leaf, sibs, dirs, 0)
}

/// Index of the sibling of node `n` within its level.
pub open spec fn sib_index(n: int) -> int {
    if n % 2 == 0 {
        n + 1
    } else {
        n - 1
    }
}

/// The encodings of zero and one differ in their first byte.
proof fn lemma_zero_one_distinct()
    ensures
        one_le().len() == 32,
        one_le()[0] == 1u8,
        zero_le() != one_le(),
{
    lemma_nat_le_bytes_val(1, 8);
    assert(nat_le_bytes(1, 8) == seq![(1nat % 256) as u8] + nat_le_bytes(1nat / 256, 7));
    assert(nat_le_bytes(1, 8)[0] == 1u8);
    assert(one_le()[0] == nat_le_bytes(1, 8)[0]);
    assert(zero_le()[0] == 0u8);
}

/// Folding the path entries from level `k` on, starting at the path node at
/// level `k`, reproduces the root: each step lands on the parent node.
proof fn lemma_fold_to_root(
    t: MerkleTree,
    i: int,
    sibs: Seq<Seq<u8>>,
    dirs: Seq<Seq<u8>>,
    k: int,
)
    requires
        t.well_formed(),
        0 <= i < t.leaf_views().len(),
        sibs.len() == t.depth_spec(),
        dirs.len() == t.depth_spec(),
        0 <= k <= t.depth_spec(),
        forall|j: int|
            k <= j < t.depth_spec() ==> #[trigger] sibs[j] == t.level_views()[j][sib_index(
                i / (pow2(j as nat) as int),
            )],
        forall|j: int|
            k <= j < t.depth_spec() ==> #[trigger] dirs[j] == (if (i / (pow2(j as nat) as int)) % 2
                == 1 {
                one_le()
            } else {
                zero_le()
            }),
    ensures
        fold_from(t.level_views()[k][i / (pow2(k as nat) as int)], sibs, dirs, k) == t.root_spec(),
    decreases t.depth_spec() - k,
{
    let d = t.depth_spec() as int;
    let lv = t.level_views();
    let p = pow2(k as nat) as int;
    lemma_pow2_pos(k as nat);
    let idx = i / p;
    lemma_pow2_adds(k as nat, (d - k) as nat);
    assert(i < pow2(t.depth_spec()));
    assert(idx < pow2((d - k) as nat)) by (nonlinear_arith)
        requires
            0 <= i,
            i < pow2(k as nat) * pow2((d - k) as nat),
            p == pow2(k as nat),
            p >= 1,
            idx == i / p,
    {}
    assert(idx >= 0) by (nonlinear_arith)
        requires
            0 <= i,
            p >= 1,
            idx == i / p,
    {}
    if k == d {
        assert(pow2(0) == 1);
        assert(fold_from(lv[k][idx], sibs, dirs, k) == lv[k][idx]);
    } else {
        let cur = lv[k][idx];
        let parent_idx = idx / 2;
        lemma_zero_one_distinct();
        vstd::arithmetic::div_mod::lemma_div_denominator(i, p, 2);
        assert(p * 2 == pow2((k + 1) as nat));
        assert(parent_idx == i / (pow2((k + 1) as nat) as int));
        assert(lv[k].len() == pow2((d - k) as nat));
        assert(pow2((d - k) as nat) == 2 * pow2((d - k - 1) as nat));
        assert(lv[k + 1].len() == pow2((d - k - 1) as nat));
        assert(idx == 2 * parent_idx + idx % 2);
        assert(0 <= parent_idx < lv[k + 1].len());
        assert(lv[k + 1][parent_idx] == poseidon2_of(
            lv[k][2 * parent_idx],
            lv[k][2 * parent_idx + 1],
        ));
        if idx % 2 == 0 {
            assert(sibs[k] == lv[k][idx + 1]);
            assert(dirs[k] == zero_le());
            assert(fold_step(cur, sibs[k], dirs[k]) == poseidon2_of(cur, sibs[k]));
            assert(2 * parent_idx == idx);
            assert(fold_step(cur, sibs[k], dirs[k]) == lv[k + 1][parent_idx]);
        } else {
            assert(sibs[k] == lv[k][idx - 1]);
            assert(dirs[k] == one_le());
            assert(fold_step(cur, sibs[k], dirs[k]) == poseidon2_of(sibs[k], cur));
            assert(2 * parent_idx == idx - 1);
            assert(fold_step(cur, sibs[k], dirs[k]) == lv[k + 1][parent_idx]);
        }
        lemma_fold_to_root(t, i, sibs, dirs, k + 1);
    }
}

/// Leaves with trailing zero padding removed: stripping stops at the first
/// non-zero leaf from the back, and never drops below one leaf.
pub open spec fn strip_zeros(s: Seq<Seq<u8>>) -> Seq<Seq<u8>>
    decreases s.len(),
{
    if s.len() <= 1 || s.last() != zero_le() {
        s
    } else {
        strip_zeros(s.drop_last())
    }
}

/// `s` padded with zero leaves up to length `m` (`m` at least `s.len()`).
pub open spec fn pad_zeros(s: Seq<Seq<u8>>, m: nat) -> Seq<Seq<u8>> {
    s + Seq::new((m - s.len()) as nat, |i: int| zero_le())
}

/// An appended leaf is always among the leaves afterwards: stripping keeps
/// it at the end of the stripped prefix and padding only adds zeros after
/// it.  Together with the witness contracts this says that a registered
/// commitment is found, and its path folds to the new root.
pub proof fn lemma_added_leaf_present(before: Seq<Seq<u8>>, c: Seq<u8>)
    ensures
        ({
            let after = pad_zeros(
                strip_zeros(before).push(c),
                next_pow2(strip_zeros(before).len() + 1),
            );
            exists|i: int| 0 <= i < after.len() && after[i] == c
        }),
{
    let s = strip_zeros(before).push(c);
    let after = pad_zeros(s, next_pow2(strip_zeros(before).len() + 1));
    lemma_next_pow2_bounds(s.len());
    assert(after[s.len() - 1] == c);
}

/// Two well-formed trees over the same leaves agree on every level: the
/// whole tree, its root included, is a function of the leaves alone.
pub proof fn lemma_root_determined(a: MerkleTree, b: MerkleTree)
    requires
        a.well_formed(),
        b.well_formed(),
        a.leaf_views() == b.leaf_views(),
    ensures
        a.depth_spec() == b.depth_spec(),
        a.root_spec() == b.root_spec(),
{
    lemma_pow2_injective(a.depth_spec(), b.depth_spec());
    lemma_level_determined(a, b, a.depth_spec() as int);
}

/// Level `k` of a well-formed tree is a function of the leaves alone.
proof fn lemma_level_determined(a: MerkleTree, b: MerkleTree, k: int)
    requires
        a.well_formed(),
        b.well_formed(),
        a.leaf_views() == b.leaf_views(),
        a.depth_spec() == b.depth_spec(),
        0 <= k <= a.depth_spec(),
    ensures
        a.level_views()[k] == b.level_views()[k],
    decreases k,
{
    if k == 0 {
        assert(a.level_views()[0] == a.leaf_views());
        assert(b.level_views()[0] == b.leaf_views());
    } else {
        lemma_level_determined(a, b, k - 1);
        assert forall|i: int| 0 <= i < a.level_views()[k].len() implies a.level_views()[k][i]
            == b.level_views()[k][i] by {
            assert(a.level_views()[k][i] == poseidon2_of(
                a.level_views()[k - 1][2 * i],
                a.level_views()[k - 1][2 * i + 1],
            ));
            assert(b.level_views()[k][i] == poseidon2_of(
                b.level_views()[k - 1][2 * i],
                b.level_views()[k - 1][2 * i + 1],
            ));
        }
        assert(a.level_views()[k] =~= b.level_views()[k]);
    }
}

/// The smallest power of two at least `n`, with its exponent.
#[verifier::loop_isolation(false)]
fn next_pow2_exec(n: usize) -> (r: (usize, usize))
    requires
        n <= usize::MAX as nat / 2 + 1,
    ensures
        r.0 as nat == next_pow2(n as nat),
        pow2(r.1 as nat) == r.0 as nat,
        r.1 as nat == clog2(n as nat),
        r.0 >= n,
{
    let mut p: usize = 1;
    let mut d: usize = 0;
    while p < n
        invariant
            1 <= p,
            pow2(d as nat) == p as nat,
            d == 0 || pow2((d - 1) as nat) < n as nat,
        decreases 2 * (n as int) - (p as int),
    {
        proof {
            assert(p < n <= usize::MAX as nat / 2 + 1);
            lemma_pow2_lower(d as nat);
        }
        p = p * 2;
        d = d + 1;
    }
    proof {
        lemma_next_pow2_unique(n as nat, d as nat);
    }
    (p, d)
}

} // verus!
