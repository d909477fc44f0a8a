use msm::device::{calc_num_groups, launch_params, max_chunk_size, reduce_results};
use msm::ffgen::{decimal_string, define_field, field, kernel, limbs_of, params, FieldParams, KernelTemplates};
use msm::group::{CurvePoint, ModPoint};
use msm::orchestrate::should_break;
use msm::sources::{ec, fft, field2, multiexp, replace};

fn templates() -> KernelTemplates {
    KernelTemplates {
        common: "// common".to_string(),
        field: "FIELD FIELD_add(FIELD a, FIELD b);".to_string(),
        field2: "typedef struct { FIELD c0; FIELD c1; } FIELD2;".to_string(),
        fft: "kernel void radix_fft(global FIELD* x);".to_string(),
        ec: "typedef struct { FIELD x; FIELD y; FIELD z; } POINT_projective;".to_string(),
        multiexp: "kernel void POINT_bellman_multiexp(global EXPONENT *exps);".to_string(),
    }
}

/// The base field of BLS12-377.
fn bls12_377_fq() -> FieldParams {
    FieldParams {
        modulus: vec![
            0x8508c00000000001,
            0x170b5d4430000000,
            0x1ef3622fba094800,
            0x1a22d9f300f5138f,
            0xc63b05c06ca1493b,
            0x1ae3a4617c510ea,
        ],
        one: vec![
            202099033278250856,
            5854854902718660529,
            11492539364873682930,
            8885205928937022213,
            5545221690922665192,
            39800542322357402,
        ],
        r2: vec![
            0xb786686c9400cd22,
            0x329fcaab00431b1,
            0x22a5f11162d6b46d,
            0xbfdf7d03827dc3ac,
            0x837e92f041790bf9,
            0x6dfccb1e914b88,
        ],
        inv: 9586122913090633727,
    }
}

#[test]
fn gpu_bn_382_source_generate() {
    let fq = bls12_377_fq();
    let src = kernel(&templates(), &fq, &fq, true);
    println!("{}", src);
    assert!(src.starts_with("// common\n#define Fr_limb ulong\n#define Fr_LIMBS 6\n"));
    assert!(src.contains("kernel void radix_fft(global Fr* x);"));
    assert!(src.contains("typedef struct { Fq x; Fq y; Fq z; } G1_projective;"));
    assert!(src.contains("typedef struct { Fq2 x; Fq2 y; Fq2 z; } G2_projective;"));
    assert!(src.contains("typedef struct { Fq c0; Fq c1; } Fq2;"));
    assert!(src.contains("kernel void G2_bellman_multiexp(global Fr *exps);"));
    assert!(!src.contains("FIELD"));
    assert!(!src.contains("POINT"));
}

#[test]
fn replace_is_leftmost_and_non_overlapping() {
    assert_eq!(replace("aXbXX", "X", "yy"), "ayybyyyy");
    assert_eq!(replace("aaa", "aa", "b"), "ba");
    assert_eq!(replace("", "a", "b"), "");
    assert_eq!(replace("abc", "abcd", "x"), "abc");
    assert_eq!(replace("FIELD2 FIELD", "FIELD", "Fq"), "Fq2 Fq");
    assert_eq!(replace("abc", "b", ""), "ac");
}

#[test]
fn template_placeholders() {
    assert_eq!(field2("FIELD2 over FIELD", "Fq2", "Fq"), "Fq2 over Fq");
    assert_eq!(fft("FIELD_mul(FIELD a)", "Fr"), "Fr_mul(Fr a)");
    assert_eq!(ec("POINT over FIELD", "Fq", "G1"), "G1 over Fq");
    assert_eq!(multiexp("POINT EXPONENT", "G1", "Fr"), "G1 Fr");
}

#[test]
fn decimal_text() {
    assert_eq!(decimal_string(0), "0");
    assert_eq!(decimal_string(7), "7");
    assert_eq!(decimal_string(10), "10");
    assert_eq!(decimal_string(9586122913090633727), "9586122913090633727");
    assert_eq!(decimal_string(u64::MAX), "18446744073709551615");
}

#[test]
fn field_constants() {
    assert_eq!(define_field("FIELD_ONE", &vec![1, 20, 300]), "#define FIELD_ONE ((FIELD){ { 1, 20, 300 } })");
    assert_eq!(define_field("FIELD_ZERO", &vec![]), "#define FIELD_ZERO ((FIELD){ {  } })");
    assert_eq!(limbs_of(&vec![0x0000_0002_0000_0001], false), vec![1, 2]);
    assert_eq!(limbs_of(&vec![0x0000_0002_0000_0001], true), vec![0x0000_0002_0000_0001]);
    let p = FieldParams { modulus: vec![0x1_0000_0007], one: vec![5], r2: vec![9], inv: 3 };
    let expected = "#define FIELD_limb uint\n\
                    #define FIELD_LIMBS 2\n\
                    #define FIELD_LIMB_BITS 32\n\
                    #define FIELD_ONE ((FIELD){ { 5, 0 } })\n\
                    #define FIELD_P ((FIELD){ { 7, 1 } })\n\
                    #define FIELD_R2 ((FIELD){ { 9, 0 } })\n\
                    #define FIELD_ZERO ((FIELD){ { 0, 0 } })\n\
                    #define FIELD_INV 3\n\
                    typedef struct { FIELD_limb val[FIELD_LIMBS]; } FIELD;";
    assert_eq!(params(&p, false), expected);
    let f = field(&templates(), &p, true, "Fr");
    assert!(f.starts_with("// common\n#define Fr_limb ulong\n#define Fr_LIMBS 1\n#define Fr_LIMB_BITS 64\n"));
    assert!(f.ends_with("} Fr;\nFr Fr_add(Fr a, Fr b);"));
}

#[test]
fn launch_shape() {
    assert_eq!(calc_num_groups(2560, 39), 131);
    let p = launch_params(384, 2560, 10);
    assert_eq!(p.num_windows, 39);
    assert_eq!(p.num_groups, 131);
    assert_eq!(p.bucket_len, 1024);
    // 39 · 131 = 5109, rounded up to a multiple of 256
    assert_eq!(p.global_work_size, 5120);
    let p = launch_params(256, 64, 8);
    assert_eq!((p.num_windows, p.num_groups, p.global_work_size), (32, 4, 256));
}

#[test]
fn chunk_size_from_memory() {
    // 10 GB, of which 8 GB usable; buckets take 2 · 10 · 1025 · 288 bytes.
    let mem = 10_000_000_000u64;
    let buckets = 2 * 10 * 1025 * 288u64;
    assert_eq!(max_chunk_size(mem, 10, 200, 48, 288), Some((8_000_000_000 - buckets) / 248));
    assert_eq!(max_chunk_size(1000, 10, 200, 48, 288), None);
    assert_eq!(max_chunk_size(1000, u64::MAX, 200, 48, 288), None);
}

#[test]
fn host_reduction_weights_windows() {
    // Two groups, three windows of 4 bits over 10 exponent bits: the windows
    // weigh 2^6, 2^2 and 2^0 (the last window is 2 bits wide).
    let r: Vec<ModPoint> = [1u64, 2, 3, 10, 20, 30].iter().map(|&v| ModPoint::new(v)).collect();
    let total = reduce_results(&r, 2, 3, 4, 10);
    assert_eq!(total.log(), 64 * (1 + 10) + 4 * (2 + 20) + (3 + 30));
}

#[test]
fn preemption_decision() {
    assert!(should_break(false, true));
    assert!(!should_break(true, true));
    assert!(!should_break(false, false));
    assert!(!should_break(true, false));
    assert!(ModPoint::zero().is_zero());
}
