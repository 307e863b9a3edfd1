use halo2_gadgets::poseidon::primitives::{ConstantLength, Hash as PoseidonHash, P128Pow5T3};
use halo2_gadgets::poseidon::{Hash as PoseidonGadget, Pow5Chip, Pow5Config};
use halo2_proofs::circuit::{Layouter, SimpleFloorPlanner, Value};
use halo2_proofs::dev::MockProver;
use halo2_proofs::pasta::group::ff::PrimeField;
use halo2_proofs::pasta::Fp;
use halo2_proofs::plonk::{
    self, Advice, Circuit, Column, ConstraintSystem, Expression, Instance, Selector,
};
use halo2_proofs::poly::Rotation;

use zk_rust_api::codec::fe_to_hex;
use zk_rust_api::field::{poseidon_commit, Fe};
use zk_rust_api::merkle::{LeafValue, MerkleTree};
use zk_rust_api::merkle_tree_service::MerkleTreeService;
use zk_rust_api::zk_service::{witness_for_secret, witness_for_value, CircuitWitness};

/// The inclusion circuit: witnesses a leaf, conditionally swaps it with the
/// sibling at each level under a binary direction bit, hashes upward with
/// Poseidon, and constrains the final node to the public root.  One
/// instantiation per supported tree depth.
#[derive(Clone, Debug)]
struct MerkleCircuit<const DEPTH: usize> {
    leaf: Value<Fp>,
    siblings: [Value<Fp>; DEPTH],
    directions: [Value<Fp>; DEPTH],
}

#[derive(Clone, Debug)]
struct MerkleConfig {
    advice: Column<Advice>,
    instance: Column<Instance>,
    poseidon: Pow5Config<Fp, 3, 2>,
    swap_current: Column<Advice>,
    swap_sibling: Column<Advice>,
    swap_direction: Column<Advice>,
    swap_left: Column<Advice>,
    swap_right: Column<Advice>,
    swap_selector: Selector,
}

impl<const DEPTH: usize> Circuit<Fp> for MerkleCircuit<DEPTH> {
    type Config = MerkleConfig;
    type FloorPlanner = SimpleFloorPlanner;

    fn without_witnesses(&self) -> Self {
        Self {
            leaf: Value::unknown(),
            siblings: [Value::unknown(); DEPTH],
            directions: [Value::unknown(); DEPTH],
        }
    }

    fn configure(meta: &mut ConstraintSystem<Fp>) -> Self::Config {
        let advice = meta.advice_column();
        let instance = meta.instance_column();

        meta.enable_equality(advice);
        meta.enable_equality(instance);

        let state = [
            meta.advice_column(),
            meta.advice_column(),
            meta.advice_column(),
        ];
        let partial_sbox = meta.advice_column();
        meta.enable_equality(partial_sbox);

        for col in &state {
            meta.enable_equality(*col);
        }

        let rc_a = [
            meta.fixed_column(),
            meta.fixed_column(),
            meta.fixed_column(),
        ];
        let rc_b = [
            meta.fixed_column(),
            meta.fixed_column(),
            meta.fixed_column(),
        ];

        meta.enable_constant(rc_a[0]);
        meta.enable_constant(rc_a[1]);
        meta.enable_constant(rc_a[2]);
        meta.enable_constant(rc_b[0]);
        meta.enable_constant(rc_b[1]);
        meta.enable_constant(rc_b[2]);

        let poseidon =
            Pow5Chip::<Fp, 3, 2>::configure::<P128Pow5T3>(meta, state, partial_sbox, rc_a, rc_b);

        let swap_current = meta.advice_column();
        let swap_sibling = meta.advice_column();
        let swap_direction = meta.advice_column();
        let swap_left = meta.advice_column();
        let swap_right = meta.advice_column();

        meta.enable_equality(swap_current);
        meta.enable_equality(swap_sibling);
        meta.enable_equality(swap_direction);
        meta.enable_equality(swap_left);
        meta.enable_equality(swap_right);

        let swap_selector = meta.selector();

        // When the selector is enabled:
        //   1. dir * (1 - dir) = 0 (the direction must be 0 or 1)
        //   2. left = cur * (1 - dir) + sibling * dir
        //   3. right = cur * dir + sibling * (1 - dir)
        meta.create_gate("conditional swap", |meta| {
            let s = meta.query_selector(swap_selector);
            let cur = meta.query_advice(swap_current, Rotation::cur());
            let sibling = meta.query_advice(swap_sibling, Rotation::cur());
            let dir = meta.query_advice(swap_direction, Rotation::cur());
            let left = meta.query_advice(swap_left, Rotation::cur());
            let right = meta.query_advice(swap_right, Rotation::cur());

            vec![
                s.clone() * dir.clone() * (Expression::Constant(Fp::one()) - dir.clone()),
                s.clone()
                    * (left
                        - (cur.clone() * (Expression::Constant(Fp::one()) - dir.clone())
                            + sibling.clone() * dir.clone())),
                s * (right
                    - (cur * dir.clone() + sibling * (Expression::Constant(Fp::one()) - dir))),
            ]
        });

        MerkleConfig {
            advice,
            instance,
            poseidon,
            swap_current,
            swap_sibling,
            swap_direction,
            swap_left,
            swap_right,
            swap_selector,
        }
    }

    fn synthesize(
        &self,
        config: Self::Config,
        mut layouter: impl Layouter<Fp>,
    ) -> std::result::Result<(), plonk::Error> {
        let mut cur_cell = layouter.assign_region(
            || "assign leaf",
            |mut region| region.assign_advice(|| "leaf", config.advice, 0, || self.leaf),
        )?;

        for i in 0..DEPTH {
            let (left_cell, right_cell) = layouter.assign_region(
                || format!("conditional swap level {}", i),
                |mut region| {
                    config.swap_selector.enable(&mut region, 0)?;

                    let _cur_copy = region.assign_advice(
                        || format!("cur {}", i),
                        config.swap_current,
                        0,
                        || cur_cell.value().copied(),
                    )?;

                    let _sibling = region.assign_advice(
                        || format!("sibling {}", i),
                        config.swap_sibling,
                        0,
                        || self.siblings[i],
                    )?;

                    let _dir = region.assign_advice(
                        || format!("dir {}", i),
                        config.swap_direction,
                        0,
                        || self.directions[i],
                    )?;

                    let left_val = cur_cell
                        .value()
                        .zip(self.siblings[i])
                        .zip(self.directions[i])
                        .map(|((c, s), d)| c * (Fp::one() - d) + s * d);
                    let left = region.assign_advice(
                        || format!("left {}", i),
                        config.swap_left,
                        0,
                        || left_val,
                    )?;

                    let right_val = cur_cell
                        .value()
                        .zip(self.siblings[i])
                        .zip(self.directions[i])
                        .map(|((c, s), d)| c * d + s * (Fp::one() - d));
                    let right = region.assign_advice(
                        || format!("right {}", i),
                        config.swap_right,
                        0,
                        || right_val,
                    )?;

                    Ok((left, right))
                },
            )?;

            let hasher = PoseidonGadget::<_, _, P128Pow5T3, ConstantLength<2>, 3, 2>::init(
                Pow5Chip::<Fp, 3, 2>::construct(config.poseidon.clone()),
                layouter.namespace(|| format!("init hasher {}", i)),
            )?;

            cur_cell = hasher.hash(
                layouter.namespace(|| format!("hash level {}", i)),
                [left_cell, right_cell],
            )?;
        }

        layouter.constrain_instance(cur_cell.cell(), config.instance, 0)?;

        Ok(())
    }
}

fn posh(a: Fp, b: Fp) -> Fp {
    PoseidonHash::<Fp, P128Pow5T3, ConstantLength<2>, 3, 2>::init().hash([a, b])
}

fn to_fp(fe: &Fe) -> Fp {
    Fp::from_repr(fe.to_bytes()).unwrap()
}

fn run_circuit<const DEPTH: usize>(
    leaf: Fp,
    siblings: [Value<Fp>; DEPTH],
    directions: [Value<Fp>; DEPTH],
    root: Fp,
) -> bool {
    let circuit = MerkleCircuit::<DEPTH> {
        leaf: Value::known(leaf),
        siblings,
        directions,
    };
    let prover = MockProver::run(10, &circuit, vec![vec![root]]).unwrap();
    prover.verify().is_ok()
}

fn prove_depth<const DEPTH: usize>(w: &CircuitWitness) -> bool {
    let siblings: [Value<Fp>; DEPTH] = w
        .siblings
        .iter()
        .map(|f| Value::known(to_fp(f)))
        .collect::<Vec<_>>()
        .try_into()
        .unwrap();
    let directions: [Value<Fp>; DEPTH] = w
        .directions
        .iter()
        .map(|f| Value::known(to_fp(f)))
        .collect::<Vec<_>>()
        .try_into()
        .unwrap();
    run_circuit::<DEPTH>(to_fp(&w.leaf), siblings, directions, to_fp(&w.root))
}

/// Pick the compiled circuit that matches the witness depth.  A depth with
/// no compiled circuit is a deployment error and aborts.
fn prove_witness(w: &CircuitWitness) -> bool {
    match w.siblings.len() {
        2 => prove_depth::<2>(w),
        3 => prove_depth::<3>(w),
        4 => prove_depth::<4>(w),
        other => panic!("tree depth {} does not match a compiled circuit", other),
    }
}

#[test]
fn test_zk_proof_with_correct_value() {
    let service = MerkleTreeService::new();
    let witness = witness_for_value(&service.tree, 10);

    assert!(
        prove_witness(&witness),
        "Expected proof to be true for correct leaf value of 10"
    );
}

#[test]
fn test_zk_proof_with_incorrect_value() {
    let service = MerkleTreeService::new();
    let witness = witness_for_value(&service.tree, 15);

    assert!(
        !prove_witness(&witness),
        "Expected proof to be false for incorrect leaf value of 15"
    );
}

#[test]
fn test_zk_proof_with_zero() {
    let service = MerkleTreeService::new();
    let witness = witness_for_value(&service.tree, 0);

    assert!(
        !prove_witness(&witness),
        "Expected proof to be false for incorrect leaf value of 0"
    );
}

#[test]
fn test_zk_proof_with_large_incorrect_value() {
    let service = MerkleTreeService::new();
    let witness = witness_for_value(&service.tree, 1000);

    assert!(
        !prove_witness(&witness),
        "Expected proof to be false for incorrect leaf value of 1000"
    );
}

#[test]
fn test_zk_proof_with_last_level_value() {
    // The default tree has leaves [10, 20, 30, 40, 50, 60, 70, 80]; 70 sits
    // at index 6, on the last level before the padding boundary.
    let service = MerkleTreeService::new();
    let witness = witness_for_value(&service.tree, 70);

    assert!(
        prove_witness(&witness),
        "Expected proof to be true for leaf value 70 at index 6 on last level"
    );
}

#[test]
fn test_zk_proof_with_last_leaf() {
    let service = MerkleTreeService::new();
    let witness = witness_for_value(&service.tree, 80);

    assert!(
        prove_witness(&witness),
        "Expected proof to be true for last leaf value 80 at index 7"
    );
}

#[test]
fn test_direction_bits_all_zeros() {
    let leaf = Fp::from(10u64);
    let s1 = Fp::from(20);
    let s2 = Fp::from(30);
    let s3 = Fp::from(40);

    let h1 = posh(leaf, s1);
    let h2 = posh(h1, s2);
    let expected_root = posh(h2, s3);

    let ok = run_circuit::<3>(
        leaf,
        [Value::known(s1), Value::known(s2), Value::known(s3)],
        [
            Value::known(Fp::zero()),
            Value::known(Fp::zero()),
            Value::known(Fp::zero()),
        ],
        expected_root,
    );
    assert!(ok, "Direction bits [0, 0, 0] should verify");
}

#[test]
fn test_direction_bits_all_ones() {
    let leaf = Fp::from(10u64);
    let s1 = Fp::from(20);
    let s2 = Fp::from(30);
    let s3 = Fp::from(40);

    let h1 = posh(s1, leaf);
    let h2 = posh(s2, h1);
    let expected_root = posh(s3, h2);

    let ok = run_circuit::<3>(
        leaf,
        [Value::known(s1), Value::known(s2), Value::known(s3)],
        [
            Value::known(Fp::one()),
            Value::known(Fp::one()),
            Value::known(Fp::one()),
        ],
        expected_root,
    );
    assert!(ok, "Direction bits [1, 1, 1] should verify");
}

#[test]
fn test_direction_bits_mixed() {
    let leaf = Fp::from(10u64);
    let s1 = Fp::from(20);
    let s2 = Fp::from(30);
    let s3 = Fp::from(40);

    let h1 = posh(leaf, s1);
    let h2 = posh(s2, h1);
    let expected_root = posh(h2, s3);

    let ok = run_circuit::<3>(
        leaf,
        [Value::known(s1), Value::known(s2), Value::known(s3)],
        [
            Value::known(Fp::zero()),
            Value::known(Fp::one()),
            Value::known(Fp::zero()),
        ],
        expected_root,
    );
    assert!(ok, "Direction bits [0, 1, 0] should verify");
}

#[test]
fn test_direction_bits_wrong_direction() {
    let leaf = Fp::from(10u64);
    let s1 = Fp::from(20);
    let s2 = Fp::from(30);
    let s3 = Fp::from(40);

    let h1 = posh(leaf, s1);
    let h2 = posh(h1, s2);
    let expected_root = posh(h2, s3);

    let ok = run_circuit::<3>(
        leaf,
        [Value::known(s1), Value::known(s2), Value::known(s3)],
        [
            Value::known(Fp::one()),
            Value::known(Fp::zero()),
            Value::known(Fp::zero()),
        ],
        expected_root,
    );
    assert!(!ok, "Wrong direction bits should fail verification");
}

#[test]
fn test_invalid_direction_bit() {
    let leaf = Fp::from(10u64);
    let s1 = Fp::from(20);
    let s2 = Fp::from(30);
    let s3 = Fp::from(40);

    let h1 = posh(leaf, s1);
    let h2 = posh(h1, s2);
    let expected_root = posh(h2, s3);

    let ok = run_circuit::<3>(
        leaf,
        [Value::known(s1), Value::known(s2), Value::known(s3)],
        [
            Value::known(Fp::from(2)),
            Value::known(Fp::zero()),
            Value::known(Fp::zero()),
        ],
        expected_root,
    );
    assert!(!ok, "Non-binary direction bit should fail verification");
}

fn seeded_tree() -> MerkleTree {
    let seeds = [42u64, 99, 7, 13, 55, 77, 100, 200];
    let leaves: Vec<LeafValue> = seeds
        .iter()
        .map(|&s| LeafValue::Hashed(poseidon_commit(s)))
        .collect();
    MerkleTree::new(leaves)
}

#[test]
fn test_seed_membership() {
    let tree = seeded_tree();
    for secret in [42u64, 99, 200] {
        let witness = witness_for_secret(&tree, secret);
        assert!(witness.found);
        assert!(prove_witness(&witness));
    }
}

#[test]
fn test_unknown_secret() {
    let tree = seeded_tree();
    for secret in [1u64, 0] {
        let witness = witness_for_secret(&tree, secret);
        assert!(!witness.found);
        assert!(!prove_witness(&witness));
    }
}

#[test]
fn test_register_then_prove() {
    let mut service = MerkleTreeService { tree: seeded_tree() };
    let hex = fe_to_hex(&poseidon_commit(999));
    assert!(service.register(&hex).is_ok());

    let witness = witness_for_secret(&service.tree, 999);
    assert!(witness.found);
    assert!(prove_witness(&witness));
}

#[test]
fn test_prove_at_depth_two() {
    let seeds = [42u64, 99, 7, 13];
    let leaves: Vec<LeafValue> = seeds
        .iter()
        .map(|&s| LeafValue::Hashed(poseidon_commit(s)))
        .collect();
    let tree = MerkleTree::new(leaves);
    assert_eq!(tree.depth(), 2);

    let witness = witness_for_secret(&tree, 7);
    assert!(witness.found);
    assert!(prove_witness(&witness));
}
