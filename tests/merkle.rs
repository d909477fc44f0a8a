use msm::bls12::{Bls12Parameters, Bls12_377Parameters, Bls12_381Parameters, G1Prepared, TwistType};
use msm::group::{CurvePoint, ModPoint};
use msm::merkle::{BatchFieldBasedHash, BatchedMerkleTreeMem, FieldBasedHashParameters};

/// A toy two-to-one hash over `u64`: not collision resistant, only
/// sensitive to order.
struct ToyHash;

struct ToyParameters;

impl FieldBasedHashParameters for ToyParameters {
    type Fr = u64;
}

fn toy(a: u64, b: u64) -> u64 {
    a.wrapping_mul(31).wrapping_add(b).wrapping_add(7)
}

impl BatchFieldBasedHash for ToyHash {
    type Data = u64;
    type Parameters = ToyParameters;

    fn spec_hash(a: u64, b: u64) -> u64 {
        toy(a, b)
    }

    fn spec_zero() -> u64 {
        0
    }

    fn zero() -> u64 {
        0
    }

    fn batch_evaluate(input_array: &Vec<u64>) -> Vec<u64> {
        input_array.chunks(2).map(|p| toy(p[0], p[1])).collect()
    }
}

fn reference_root(mut level: Vec<u64>) -> u64 {
    while level.len() > 1 {
        level = level.chunks(2).map(|p| toy(p[0], p[1])).collect();
    }
    level[0]
}

#[test]
fn merkle_root_of_padded_leaves() {
    for (n, step) in [(1usize, 1usize), (2, 2), (5, 2), (8, 4), (13, 3), (64, 1000), (100, 7)] {
        let mut tree = BatchedMerkleTreeMem::<ToyHash>::new(n, step);
        let leaves: Vec<u64> = (0..n as u64).map(|i| i * i + 3).collect();
        for &l in leaves.iter() {
            tree.push(l);
        }
        tree.finalize();
        let mut padded = leaves.clone();
        padded.resize(n.next_power_of_two(), 0);
        assert_eq!(tree.root(), reference_root(padded));
    }
}

#[test]
fn merkle_leaves_past_capacity_are_dropped() {
    let mut a = BatchedMerkleTreeMem::<ToyHash>::new(4, 2);
    let mut b = BatchedMerkleTreeMem::<ToyHash>::new(4, 2);
    for l in [1u64, 2, 3, 4] {
        a.push(l);
        b.push(l);
    }
    b.push(99);
    a.finalize();
    b.finalize();
    assert_eq!(a.root(), b.root());
    assert_eq!(a.root(), toy(toy(1, 2), toy(3, 4)));
}

#[test]
fn merkle_update_keeps_the_root_until_finalize() {
    let mut tree = BatchedMerkleTreeMem::<ToyHash>::new(4, 2);
    tree.push(5);
    tree.push(6);
    tree.update();
    assert_eq!(tree.root(), 0);
    tree.finalize();
    assert_eq!(tree.root(), toy(toy(5, 6), toy(0, 0)));
}

#[test]
fn bls12_parameters() {
    assert_eq!(Bls12_377Parameters::x(), vec![0x8508c00000000001]);
    assert!(!Bls12_377Parameters::x_is_negative());
    assert_eq!(Bls12_377Parameters::twist_type(), TwistType::D);
    assert_eq!(Bls12_381Parameters::x(), vec![0xd201000000010000]);
    assert!(Bls12_381Parameters::x_is_negative());
    assert_eq!(Bls12_381Parameters::twist_type(), TwistType::M);
}

#[test]
fn prepared_g1_point() {
    let p = G1Prepared::from_affine(ModPoint::new(42));
    assert!(!p.is_zero());
    assert_eq!(p.0.log(), 42);
    assert!(G1Prepared::from_affine(ModPoint::zero()).is_zero());
}
