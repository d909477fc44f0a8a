use msm::bigint::BigInt;
use msm::group::{CurvePoint, ModPoint};
use msm::pippenger::VariableBaseMSM;

struct Rng(u64);

impl Rng {
    fn seed_from_u64(seed: u64) -> Rng {
        Rng(seed)
    }

    fn next(&mut self) -> u64 {
        self.0 ^= self.0 << 13;
        self.0 ^= self.0 >> 7;
        self.0 ^= self.0 << 17;
        self.0
    }

    /// A scalar below `2^61`.
    fn scalar(&mut self) -> BigInt {
        BigInt::new(vec![self.next() >> 3])
    }

    fn point(&mut self) -> ModPoint {
        ModPoint::new(self.next())
    }
}

fn naive_var_base_msm(bases: &[ModPoint], scalars: &[BigInt]) -> ModPoint {
    let mut acc = ModPoint::zero();
    for (base, scalar) in bases.iter().zip(scalars.iter()) {
        let v = scalar.limbs[0];
        let mut term = ModPoint::zero();
        for bit in (0..64).rev() {
            term = term.double();
            if (v >> bit) & 1 == 1 {
                term = term.add(base);
            }
        }
        acc = acc.add(&term);
    }
    acc
}

#[test]
fn test_with_bn_382_c() {
    const SAMPLES: usize = 1 << 10;

    let mut rng = Rng::seed_from_u64(234872845u64);
    let v = (0..SAMPLES).map(|_| rng.scalar()).collect::<Vec<_>>();
    let g = (0..SAMPLES).map(|_| rng.point()).collect::<Vec<_>>();

    for c in 4..25 {
        let fast = VariableBaseMSM::multi_scalar_mul_c(g.as_slice(), v.as_slice(), c);
        let affine = VariableBaseMSM::multi_scalar_mul_affine_c(g.as_slice(), v.as_slice(), c);
        let affine_sd = VariableBaseMSM::multi_scalar_mul_affine_sd_c(g.as_slice(), v.as_slice(), c);
        assert_eq!(fast, affine);
        assert_eq!(affine, affine_sd);
    }
}

#[test]
fn test_all() {
    const SAMPLES: usize = 1 << 10;

    let mut rng = Rng::seed_from_u64(234872845u64);
    let v = (0..SAMPLES).map(|_| rng.scalar()).collect::<Vec<_>>();
    let g = (0..SAMPLES).map(|_| rng.point()).collect::<Vec<_>>();

    let naive = naive_var_base_msm(g.as_slice(), v.as_slice());
    let fast = VariableBaseMSM::multi_scalar_mul(g.as_slice(), v.as_slice());
    let affine = VariableBaseMSM::multi_scalar_mul_affine(g.as_slice(), v.as_slice());
    let affine_sd = VariableBaseMSM::multi_scalar_mul_affine_sd(g.as_slice(), v.as_slice());

    assert_eq!(naive, fast);
    assert_eq!(fast, affine);
    assert_eq!(affine, affine_sd);
}

#[test]
fn test_with_unequal_numbers() {
    const SAMPLES: usize = 1 << 10;

    let mut rng = Rng::seed_from_u64(234872845u64);
    let v = (0..SAMPLES - 1).map(|_| rng.scalar()).collect::<Vec<_>>();
    let g = (0..SAMPLES).map(|_| rng.point()).collect::<Vec<_>>();

    let naive = naive_var_base_msm(g.as_slice(), v.as_slice());
    let fast = VariableBaseMSM::multi_scalar_mul(g.as_slice(), v.as_slice());
    let affine = VariableBaseMSM::multi_scalar_mul_affine(g.as_slice(), v.as_slice());

    assert_eq!(naive, fast);
    assert_eq!(naive, affine)
}

#[test]
fn multiexp() {
    let mut length = 1000000;
    let mut rng = Rng::seed_from_u64(234872845u64);
    let bases = (0..length).map(|_| rng.point()).collect::<Vec<_>>();
    let scalars = (0..length).map(|_| rng.scalar()).collect::<Vec<_>>();

    loop {
        let base = bases[0..length].to_vec();
        let scalar = scalars[0..length].to_vec();

        let s1 = VariableBaseMSM::multi_scalar_mul_affine(&base, &scalar);
        let s2 = VariableBaseMSM::multi_scalar_mul(&base, &scalar);

        assert_eq!(s1, s2);
        if length == 1 {
            break;
        }
        length = length / 10;
    }
}
