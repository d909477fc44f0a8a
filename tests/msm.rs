use msm::bigint::BigInt;
use msm::density::{dense_indices, multiexp, multiexp_c, DensityTracker, FullDensity, SynthesisError};
use msm::group::{CurvePoint, ModPoint, MOD_POINT_ORDER};
use msm::orchestrate::{combine_partials, cpu_share, plan_work, GpuError};
use msm::pippenger::VariableBaseMSM;
use msm::recode::{decompose, num_windows, recode_sd, recode_sd_chunk, window_width, window_width_sd};

const P: u128 = MOD_POINT_ORDER as u128;

/// A small deterministic generator of test values.
struct Lcg(u64);

impl Lcg {
    fn next(&mut self) -> u64 {
        self.0 = self.0.wrapping_mul(6364136223846793005).wrapping_add(1442695040888963407);
        self.0 >> 1
    }
}

fn scalar(v: u64) -> BigInt {
    BigInt::new(vec![v])
}

fn random_inputs(n: usize, seed: u64, bits: u32) -> (Vec<ModPoint>, Vec<BigInt>) {
    let mut g = Lcg(seed);
    let mut bases = Vec::new();
    let mut scalars = Vec::new();
    for _ in 0..n {
        bases.push(ModPoint::new(g.next()));
        scalars.push(scalar(g.next() >> (64 - bits)));
    }
    (bases, scalars)
}

/// Double-and-add reference: each base multiplied by its scalar bit by bit.
fn naive(bases: &[ModPoint], scalars: &[BigInt]) -> u64 {
    let mut acc = ModPoint::zero();
    for (b, s) in bases.iter().zip(scalars.iter()) {
        let v = s.limbs[0];
        let mut term = ModPoint::zero();
        for bit in (0..64).rev() {
            term = term.double();
            if (v >> bit) & 1 == 1 {
                term = term.add(b);
            }
        }
        acc = acc.add(&term);
    }
    acc.log()
}

fn weighted_sum(bases: &[ModPoint], scalars: &[BigInt]) -> u64 {
    let mut acc: u128 = 0;
    for (b, s) in bases.iter().zip(scalars.iter()) {
        acc = (acc + (b.log() as u128) * (s.limbs[0] as u128 % P) % P) % P;
    }
    acc as u64
}

#[test]
fn single_unit_scalar_gives_the_base() {
    let g = ModPoint::new(123456789);
    let r = VariableBaseMSM::multi_scalar_mul(&[g], &[scalar(1)]);
    assert_eq!(r.log(), g.log());
}

#[test]
fn two_unit_scalars_give_twice_the_base() {
    let g = ModPoint::new(987654321);
    let r = VariableBaseMSM::multi_scalar_mul(&[g, g], &[scalar(1), scalar(1)]);
    assert_eq!(r.log(), g.double().log());
    assert_eq!(r.log(), 2 * 987654321);
}

#[test]
fn empty_input_gives_identity() {
    let r = VariableBaseMSM::multi_scalar_mul::<ModPoint>(&[], &[]);
    assert_eq!(r.log(), 0);
    assert!(r.is_zero());
    let r = VariableBaseMSM::multi_scalar_mul_affine_sd::<ModPoint>(&[], &[]);
    assert!(r.is_zero());
}

#[test]
fn zero_scalars_give_identity() {
    let (bases, _) = random_inputs(50, 7, 61);
    let zeros: Vec<BigInt> = (0..50).map(|_| scalar(0)).collect();
    assert!(VariableBaseMSM::multi_scalar_mul(&bases, &zeros).is_zero());
    assert!(VariableBaseMSM::multi_scalar_mul_affine(&bases, &zeros).is_zero());
    assert!(VariableBaseMSM::multi_scalar_mul_affine_sd(&bases, &zeros).is_zero());
}

#[test]
fn zero_scalar_and_identity_base_contribute_nothing() {
    let (mut bases, mut scalars) = random_inputs(40, 11, 61);
    let before = VariableBaseMSM::multi_scalar_mul(&bases, &scalars).log();
    bases.push(ModPoint::new(5555));
    scalars.push(scalar(0));
    bases.push(ModPoint::zero());
    scalars.push(scalar(77777));
    let after = VariableBaseMSM::multi_scalar_mul(&bases, &scalars).log();
    assert_eq!(before, after);
}

#[test]
fn matches_naive_oracle() {
    for n in [1usize, 5, 31, 32, 100, 300] {
        let (bases, scalars) = random_inputs(n, n as u64 + 3, 61);
        let expected = naive(&bases, &scalars);
        assert_eq!(expected, weighted_sum(&bases, &scalars));
        assert_eq!(VariableBaseMSM::multi_scalar_mul(&bases, &scalars).log(), expected);
        assert_eq!(VariableBaseMSM::multi_scalar_mul_affine(&bases, &scalars).log(), expected);
    }
}

#[test]
fn widths_agree_on_random_inputs() {
    let (bases, scalars) = random_inputs(1024, 1024, 61);
    let expected = naive(&bases, &scalars);
    for c in 3..14 {
        assert_eq!(VariableBaseMSM::multi_scalar_mul_c(&bases, &scalars, c).log(), expected);
        assert_eq!(VariableBaseMSM::multi_scalar_mul_affine_c(&bases, &scalars, c).log(), expected);
    }
}

#[test]
fn signed_digit_agrees_with_unsigned() {
    // Two spare top bits keep the recoding from carrying out of its top window.
    let (bases, scalars) = random_inputs(1024, 99, 59);
    let expected = VariableBaseMSM::multi_scalar_mul(&bases, &scalars).log();
    for c in 3..14 {
        assert_eq!(VariableBaseMSM::multi_scalar_mul_affine_sd_c(&bases, &scalars, c).log(), expected);
    }
    assert_eq!(VariableBaseMSM::multi_scalar_mul_affine_sd(&bases, &scalars).log(), expected);
}

#[test]
fn signed_digit_recoding_keeps_the_top_carry() {
    // 61 bits in two windows of 31: both windows carry, and the carry out of
    // the top window becomes a third digit.
    let v = (1u64 << 61) - 1;
    let r = recode_sd::<ModPoint>(&scalar(v), 31);
    assert_eq!(r, vec![1, -(1i64 << 30), -1]);
    let value = (r[0] as i128) * (1i128 << 62) + (r[1] as i128) * (1i128 << 31) + r[2] as i128;
    assert_eq!(value, v as i128);
    // 2^61 - 2^30: the low window is 2^30 and carries, and so does the top.
    let v = (1u64 << 61) - (1u64 << 30);
    let r = recode_sd::<ModPoint>(&scalar(v), 31);
    assert_eq!(r, vec![1, -(1i64 << 30), -(1i64 << 30)]);
}

#[test]
fn signed_digit_chunk_takes_any_carry() {
    let mut coeff = vec![0i64; 2];
    let mut carry = 1i64;
    recode_sd_chunk(&scalar(0), 4, 0, 2, &mut coeff, &mut carry);
    assert_eq!((coeff.clone(), carry), (vec![1, 0], 0));
    // 0xF7 with a carry in: 7 + 1 = 8 carries, then 15 + 1 = 16 carries.
    let mut carry = 1i64;
    recode_sd_chunk(&scalar(0xF7), 4, 0, 2, &mut coeff, &mut carry);
    assert_eq!((coeff.clone(), carry), (vec![-8, 0], 1));
    assert_eq!(coeff[0] + coeff[1] * 16 + carry * 256, 0xF7 + 1);
}

#[test]
fn density_tracker_counts_set_bits() {
    let mut d = DensityTracker::new();
    for _ in 0..4 {
        d.add_element();
    }
    d.inc(1);
    d.inc(1);
    d.inc(3);
    assert_eq!(d.get_total_density(), 2);
    assert_eq!(d.bv, vec![false, true, false, true]);

    let mut other = DensityTracker::new();
    other.add_element();
    other.add_element();
    other.inc(0);
    other.inc(1);
    let mut input = d.clone();
    input.extend(other.clone(), true);
    assert_eq!(input.bv, vec![true, true, false, true, true]);
    assert_eq!(input.get_total_density(), 4);
    let mut plain = d.clone();
    plain.extend(other.clone(), false);
    assert_eq!(plain.bv, vec![false, true, false, true, true, true]);
    assert_eq!(plain.get_total_density(), 4);
    let mut empty = DensityTracker::new();
    empty.extend(other, true);
    assert_eq!(empty.get_total_density(), 2);
}

#[test]
fn multiexp_over_a_sparse_query() {
    let (bases, scalars) = random_inputs(6, 8, 61);
    let mut d = DensityTracker::new();
    for _ in 0..6 {
        d.add_element();
    }
    d.inc(1);
    d.inc(4);
    assert_eq!(dense_indices(&d, 6), vec![1, 4]);
    // the marked exponents take the source's bases in order
    let r = multiexp(&(bases[..2].to_vec(), 0usize), &d, &scalars).unwrap();
    assert_eq!(r.log(), weighted_sum(&bases[..2], &[scalars[1].clone(), scalars[4].clone()]));
    assert_eq!(
        multiexp(&(bases[..1].to_vec(), 0usize), &d, &scalars),
        Err(SynthesisError::UnexpectedEof)
    );
}

#[test]
fn unequal_lengths_use_the_shorter() {
    let (bases, scalars) = random_inputs(20, 5, 61);
    let r = VariableBaseMSM::multi_scalar_mul(&bases[..12], &scalars);
    assert_eq!(r.log(), weighted_sum(&bases[..12], &scalars[..12]));
    let r = VariableBaseMSM::multi_scalar_mul(&bases, &scalars[..7]);
    assert_eq!(r.log(), weighted_sum(&bases[..7], &scalars[..7]));
}

#[test]
fn width_policy() {
    assert_eq!(window_width(0), 3);
    assert_eq!(window_width(31), 3);
    // ceil(2/3 · 5) - 2
    assert_eq!(window_width(32), 2);
    // ceil(2/3 · 6) - 2
    assert_eq!(window_width(64), 2);
    assert_eq!(window_width(65), 3);
    // ceil(2/3 · 10) - 2
    assert_eq!(window_width(1024), 5);
    assert_eq!(window_width(1 << 20), 12);
    assert_eq!(window_width_sd(10), 4);
    assert_eq!(window_width_sd(1024), 6);
}

#[test]
fn window_count() {
    assert_eq!(num_windows(61, 4), 16);
    assert_eq!(num_windows(64, 4), 16);
    assert_eq!(num_windows(382, 10), 39);
    assert_eq!(num_windows(0, 3), 0);
}

#[test]
fn unsigned_decomposition() {
    let d = decompose(&scalar(0b1011_0111), 4, 12);
    assert_eq!(d, vec![0b0111, 0b1011, 0]);
    let wide = BigInt::new(vec![0xF000_0000_0000_0000, 0x3]);
    assert_eq!(wide.window(60, 8), 0x3F);
    assert_eq!(wide.window(64, 4), 0x3);
    assert_eq!(wide.window(200, 4), 0);
}

#[test]
fn signed_digit_recoding() {
    let r = recode_sd::<ModPoint>(&scalar(0b1011_0111), 4);
    assert_eq!(r.len(), 16);
    let mut expected = vec![0i64; 13];
    expected.extend_from_slice(&[1, -5, 7]);
    assert_eq!(r, expected);
}

#[test]
fn signed_digit_chunks_carry_between_chunks() {
    let s = scalar(0b1011_0111);
    let mut coeff = vec![0i64; 3];
    let mut carry = 0i64;
    recode_sd_chunk(&s, 4, 0, 1, &mut coeff, &mut carry);
    assert_eq!((coeff[0], carry), (7, 0));
    recode_sd_chunk(&s, 4, 1, 1, &mut coeff, &mut carry);
    assert_eq!((coeff[0], carry), (-5, 1));
    recode_sd_chunk(&s, 4, 2, 1, &mut coeff, &mut carry);
    assert_eq!((coeff[0], carry), (1, 0));
    assert_eq!(&coeff[1..], &[0, 0]);
}

#[test]
fn scalar_kinds() {
    assert!(BigInt::new(vec![]).is_zero());
    assert!(BigInt::new(vec![0, 0, 0]).is_zero());
    assert!(!BigInt::new(vec![0, 1]).is_zero());
    assert!(BigInt::new(vec![1, 0, 0]).is_one());
    assert!(!BigInt::new(vec![1, 1]).is_one());
    assert!(!BigInt::new(vec![]).is_one());
    assert!(BigInt::from_u64(1).is_one());
}

#[test]
fn group_operations() {
    let a = ModPoint::new(MOD_POINT_ORDER - 1);
    let b = ModPoint::new(5);
    assert_eq!(a.add(&b).log(), 4);
    assert_eq!(a.neg().log(), 1);
    assert_eq!(ModPoint::zero().neg().log(), 0);
    assert_eq!(a.double().log(), MOD_POINT_ORDER - 2);
    assert_eq!(ModPoint::new(MOD_POINT_ORDER).log(), 0);
    assert_eq!(ModPoint::generator().log(), 1);
}

#[test]
fn utilization_fractions_agree() {
    let (bases, scalars) = random_inputs(500, 21, 61);
    let whole = VariableBaseMSM::multi_scalar_mul(&bases, &scalars).log();
    for (num, den) in [(0u64, 1u64), (1, 2), (1, 1)] {
        let n = bases.len();
        let cpu_n = cpu_share(n, num, den);
        let plan = plan_work(n, cpu_n, &vec![64, 100, 7]);
        let mut parts = Vec::new();
        let cpu = plan.cpu;
        parts.push(Ok(VariableBaseMSM::multi_scalar_mul(
            &bases[cpu.start..cpu.end],
            &scalars[cpu.start..cpu.end],
        )));
        let mut covered = cpu.end - cpu.start;
        for launches in plan.devices.iter() {
            for s in launches.iter() {
                covered += s.end - s.start;
                parts.push(Ok(VariableBaseMSM::multi_scalar_mul_c(
                    &bases[s.start..s.end],
                    &scalars[s.start..s.end],
                    4,
                )));
            }
        }
        assert_eq!(covered, n);
        assert_eq!(combine_partials(parts).unwrap().log(), whole);
    }
}

#[test]
fn cpu_share_values() {
    assert_eq!(cpu_share(1000, 0, 1), 0);
    assert_eq!(cpu_share(1000, 1, 2), 500);
    assert_eq!(cpu_share(1000, 1, 1), 1000);
    assert_eq!(cpu_share(7, 1, 3), 2);
}

#[test]
fn plan_shares_evenly() {
    let plan = plan_work(10, 2, &vec![3, 100]);
    assert_eq!((plan.cpu.start, plan.cpu.end), (0, 2));
    let first: Vec<(usize, usize)> = plan.devices[0].iter().map(|s| (s.start, s.end)).collect();
    assert_eq!(first, vec![(2, 5), (5, 6)]);
    let second: Vec<(usize, usize)> = plan.devices[1].iter().map(|s| (s.start, s.end)).collect();
    assert_eq!(second, vec![(6, 10)]);
    let plan = plan_work(4, 4, &vec![3, 3]);
    assert!(plan.devices[0].is_empty());
    assert!(plan.devices[1].is_empty());
}

#[test]
fn any_failure_fails_the_call() {
    let g = ModPoint::new(3);
    let parts = vec![Ok(g), Err(GpuError::Taken), Err(GpuError::Device("lost".to_string()))];
    assert_eq!(combine_partials(parts), Err(GpuError::Taken));
    let parts = vec![Ok(g), Ok(g), Err(GpuError::Device("lost".to_string()))];
    assert_eq!(combine_partials(parts), Err(GpuError::Device("lost".to_string())));
    let parts: Vec<Result<ModPoint, GpuError>> = vec![Ok(g), Ok(g)];
    assert_eq!(combine_partials(parts).unwrap().log(), 6);
}

#[test]
fn multiexp_over_a_source() {
    let (bases, scalars) = random_inputs(100, 42, 61);
    let expected = weighted_sum(&bases, &scalars);
    let r = multiexp(&(bases.clone(), 0usize), &FullDensity, &scalars).unwrap();
    assert_eq!(r.log(), expected);
    for c in 2..9 {
        assert_eq!(multiexp_c(&(bases.clone(), 0usize), &FullDensity, &scalars, c).unwrap().log(), expected);
    }
    // The source starts at its offset.
    let mut shifted = vec![ModPoint::new(3), ModPoint::new(4)];
    shifted.extend_from_slice(&bases);
    assert_eq!(multiexp(&(shifted, 2usize), &FullDensity, &scalars).unwrap().log(), expected);
    // Too few bases.
    let short = bases[..99].to_vec();
    assert_eq!(multiexp(&(short, 0usize), &FullDensity, &scalars), Err(SynthesisError::UnexpectedEof));
    // The identity under a nonzero exponent.
    let mut with_identity = bases.clone();
    with_identity[10] = ModPoint::zero();
    // The identity under a nonzero exponent contributes nothing.
    let r = multiexp(&(with_identity.clone(), 0usize), &FullDensity, &scalars).unwrap();
    let mut without = scalars.clone();
    without[10] = scalar(0);
    assert_eq!(r.log(), weighted_sum(&bases, &without));
    // The identity under a zero exponent is skipped.
    let mut zeroed = scalars.clone();
    zeroed[10] = scalar(0);
    let r = multiexp(&(with_identity, 0usize), &FullDensity, &zeroed).unwrap();
    assert_eq!(r.log(), weighted_sum(&bases, &zeroed));
    // A unit exponent is read once.
    let units: Vec<BigInt> = (0..5).map(|_| scalar(1)).collect();
    let r = multiexp_c(&(bases[..5].to_vec(), 0usize), &FullDensity, &units, 3).unwrap();
    assert_eq!(r.log(), weighted_sum(&bases[..5], &units));
}
