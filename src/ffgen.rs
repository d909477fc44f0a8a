use vstd::prelude::*;
use vstd::string::*;

use crate::sources::{ec, fft, field2, multiexp, replace, replaced};

verus! {

/// A prime field as a device program needs it: the modulus, the Montgomery
/// form of one and `R^2 mod p`, all as little-endian 64-bit limbs, and the
/// Montgomery constant `INV`.
pub struct FieldParams {
    pub modulus: Vec<u64>,
    pub one: Vec<u64>,
    pub r2: Vec<u64>,
    pub inv: u64,
}

/// The template texts of a device program.
pub struct KernelTemplates {
    /// Definitions shared by every field.
    pub common: String,
    /// Arithmetic of a prime field, over the placeholder `FIELD`.
    pub field: String,
    /// Arithmetic of a quadratic extension, over `FIELD2` and `FIELD`.
    pub field2: String,
    /// The FFT kernel, over `FIELD`.
    pub fft: String,
    /// The curve group law, over `FIELD` and `POINT`.
    pub ec: String,
    /// The bucket kernel, over `POINT` and `EXPONENT`.
    pub multiexp: String,
}

pub open spec fn digit_char(d: nat) -> char {
    seq!['0', '1', '2', '3', '4', '5', '6', '7', '8', '9'][d as int]
}

/// The decimal digits of `n`.
pub open spec fn decimal(n: nat) -> Seq<char>
    decreases n,
{
    if n < 10 {
        seq![digit_char(n)]
    } else {
        decimal(n / 10) + seq![digit_char(n % 10)]
    }
}

/// The limbs as the device reads them: 64-bit limbs as they are, or each
/// split into its low and high 32-bit halves.
pub open spec fn device_limbs(v: Seq<u64>, limb64: bool) -> Seq<u64> {
    if limb64 {
        v
    } else {
        Seq::new(
            2 * v.len(),
            |i: int|
                if i % 2 == 0 {
                    (v[i / 2] % 0x1_0000_0000) as u64
                } else {
                    (v[i / 2] / 0x1_0000_0000) as u64
                },
        )
    }
}

/// `"a, b, c"` for the limbs `a`, `b`, `c`.
pub open spec fn join_decimals(s: Seq<u64>) -> Seq<char>
    decreases s.len(),
{
    if s.len() == 0 {
        seq![]
    } else if s.len() == 1 {
        decimal(s[0] as nat)
    } else {
        join_decimals(s.drop_last()) + ", "@ + decimal(s.last() as nat)
    }
}

/// `#define NAME ((FIELD){ { a, b, c } })`.
pub open spec fn define_field_text(name: Seq<char>, limbs: Seq<u64>) -> Seq<char> {
    "#define "@ + name + " ((FIELD){ { "@ + join_decimals(limbs) + " } })"@
}

pub open spec fn limb_type(limb64: bool) -> Seq<char> {
    if limb64 {
        "ulong"@
    } else {
        "uint"@
    }
}

pub open spec fn limb_bits(limb64: bool) -> nat {
    if limb64 {
        64
    } else {
        32
    }
}

/// The constants and the type of a prime field, one definition per line.
pub open spec fn params_text(p: FieldParams, limb64: bool) -> Seq<char> {
    let one = device_limbs(p.one@, limb64);
    "#define FIELD_limb "@ + limb_type(limb64) + "\n"@ + "#define FIELD_LIMBS "@ + decimal(
        one.len(),
    ) + "\n"@ + "#define FIELD_LIMB_BITS "@ + decimal(limb_bits(limb64)) + "\n"@
        + define_field_text("FIELD_ONE"@, one) + "\n"@ + define_field_text(
        "FIELD_P"@,
        device_limbs(p.modulus@, limb64),
    ) + "\n"@ + define_field_text("FIELD_R2"@, device_limbs(p.r2@, limb64)) + "\n"@
        + define_field_text("FIELD_ZERO"@, Seq::new(one.len(), |i: int| 0u64)) + "\n"@
        + "#define FIELD_INV "@ + decimal(p.inv as nat) + "\n"@
        + "typedef struct { FIELD_limb val[FIELD_LIMBS]; } FIELD;"@
}

/// The source of the prime field `name`.
pub open spec fn field_text(t: KernelTemplates, p: FieldParams, limb64: bool, name: Seq<char>) -> Seq<
    char,
> {
    replaced(t.common@ + "\n"@ + params_text(p, limb64) + "\n"@ + t.field@, "FIELD"@, name)
}

/// The whole device program: both fields of the curve, the FFT, and for
/// each of the two groups its field, group law and bucket kernel.
pub open spec fn kernel_text(
    t: KernelTemplates,
    fr: FieldParams,
    fq: FieldParams,
    limb64: bool,
) -> Seq<char> {
    let sep = "\n\n"@;
    field_text(t, fr, limb64, "Fr"@) + sep + replaced(t.fft@, "FIELD"@, "Fr"@) + sep + field_text(
        t,
        fq,
        limb64,
        "Fq"@,
    ) + sep + replaced(replaced(t.ec@, "FIELD"@, "Fq"@), "POINT"@, "G1"@) + sep + replaced(
        replaced(t.multiexp@, "POINT"@, "G1"@),
        "EXPONENT"@,
        "Fr"@,
    ) + sep + replaced(replaced(t.field2@, "FIELD2"@, "Fq2"@), "FIELD"@, "Fq"@) + sep + replaced(
        replaced(t.ec@, "FIELD"@, "Fq2"@),
        "POINT"@,
        "G2"@,
    ) + sep + replaced(replaced(t.multiexp@, "POINT"@, "G2"@), "EXPONENT"@, "Fr"@)
}

/// The decimal digits of `n`.
pub fn decimal_string(n: u64) -> (r: String)
    ensures
        r@ == decimal(n as nat),
    decreases n,
{
    let digits = "0123456789";
    proof {
        reveal_strlit("0123456789");
    }
    if n < 10 {
        let d = n as usize;
        String::from_str(digits.substring_char(d, d + 1))
    } else {
        let mut s = decimal_string(n / 10);
        let d = (n % 10) as usize;
        s.append(digits.substring_char(d, d + 1));
        proof {
            assert(digits@.subrange(d as int, d + 1) =~= seq![digit_char(d as nat)]);
        }
        s
    }
}

/// The limbs as the device reads them.
pub fn limbs_of(v: &Vec<u64>, limb64: bool) -> (r: Vec<u64>)
    requires
        2 * v@.len() <= usize::MAX,
    ensures
        r@ == device_limbs(v@, limb64),
{
    if limb64 {
        return v.clone();
    }
    let mut r: Vec<u64> = Vec::new();
    let mut i: usize = 0;
    while i < v.len()
        invariant
            i <= v@.len(),
            2 * v@.len() <= usize::MAX,
            r@.len() == 2 * i,
            forall|j: int|
                0 <= j < 2 * i ==> #[trigger] r@[j] == if j % 2 == 0 {
                    (v@[j / 2] % 0x1_0000_0000) as u64
                } else {
                    (v@[j / 2] / 0x1_0000_0000) as u64
                },
        decreases v@.len() - i,
    {
        r.push(v[i] % 0x1_0000_0000);
        r.push(v[i] / 0x1_0000_0000);
        i = i + 1;
    }
    proof {
        assert(r@ =~= device_limbs(v@, limb64));
    }
    r
}

/// `"a, b, c"` for the limbs `a`, `b`, `c`.
fn join_limbs(s: &Vec<u64>) -> (r: String)
    ensures
        r@ == join_decimals(s@),
{
    let mut out = String::from_str("");
    proof {
        reveal_strlit("");
        assert(s@.subrange(0, 0) =~= Seq::<u64>::empty());
    }
    let mut i: usize = 0;
    while i < s.len()
        invariant
            i <= s@.len(),
            out@ == join_decimals(s@.subrange(0, i as int)),
        decreases s@.len() - i,
    {
        let d = decimal_string(s[i]);
        proof {
            reveal_strlit(", ");
            let next = s@.subrange(0, i + 1);
            assert(next.drop_last() =~= s@.subrange(0, i as int));
            assert(next.last() == s@[i as int]);
        }
        if i > 0 {
            out.append(", ");
        }
        out.append(d.as_str());
        proof {
            if i == 0 {
                assert(out@ =~= decimal(s@[0] as nat));
            }
        }
        i = i + 1;
    }
    proof {
        assert(s@.subrange(0, s@.len() as int) =~= s@);
    }
    out
}

/// `#define NAME ((FIELD){ { a, b, c } })` for the limbs `a`, `b`, `c`.
pub fn define_field(name: &str, limbs: &Vec<u64>) -> (r: String)
    ensures
        r@ == define_field_text(name@, limbs@),
{
    let mut out = String::from_str("#define ");
    out.append(name);
    out.append(" ((FIELD){ { ");
    let j = join_limbs(limbs);
    out.append(j.as_str());
    out.append(" } })");
    proof {
        assert(out@ =~= define_field_text(name@, limbs@));
    }
    out
}

/// The constants and the type definition of a prime field.
pub fn params(p: &FieldParams, limb64: bool) -> (r: String)
    requires
        2 * p.one@.len() <= usize::MAX,
        2 * p.modulus@.len() <= usize::MAX,
        2 * p.r2@.len() <= usize::MAX,
    ensures
        r@ == params_text(*p, limb64),
{
    let one = limbs_of(&p.one, limb64);
    let modulus = limbs_of(&p.modulus, limb64);
    let r2 = limbs_of(&p.r2, limb64);
    let mut zero: Vec<u64> = Vec::new();
    let mut i: usize = 0;
    while i < one.len()
        invariant
            i <= one@.len(),
            zero@.len() == i,
            forall|j: int| 0 <= j < i ==> #[trigger] zero@[j] == 0u64,
        decreases one@.len() - i,
    {
        zero.push(0);
        i = i + 1;
    }
    proof {
        assert(zero@ =~= Seq::new(one@.len(), |i: int| 0u64));
    }
    let mut out = String::from_str("#define FIELD_limb ");
    if limb64 {
        out.append("ulong");
    } else {
        out.append("uint");
    }
    out.append("\n");
    out.append("#define FIELD_LIMBS ");
    let count = decimal_string(one.len() as u64);
    out.append(count.as_str());
    out.append("\n");
    out.append("#define FIELD_LIMB_BITS ");
    let bits = decimal_string(if limb64 { 64 } else { 32 });
    out.append(bits.as_str());
    out.append("\n");
    let d = define_field("FIELD_ONE", &one);
    out.append(d.as_str());
    out.append("\n");
    let d = define_field("FIELD_P", &modulus);
    out.append(d.as_str());
    out.append("\n");
    let d = define_field("FIELD_R2", &r2);
    out.append(d.as_str());
    out.append("\n");
    let d = define_field("FIELD_ZERO", &zero);
    out.append(d.as_str());
    out.append("\n");
    out.append("#define FIELD_INV ");
    let inv = decimal_string(p.inv);
    out.append(inv.as_str());
    out.append("\n");
    out.append("typedef struct { FIELD_limb val[FIELD_LIMBS]; } FIELD;");
    proof {
        assert(out@ =~= params_text(*p, limb64));
    }
    out
}

/// The source of the prime field `name`: the shared definitions, the
/// field's constants and its arithmetic, with `FIELD` renamed to `name`.
pub fn field(t: &KernelTemplates, p: &FieldParams, limb64: bool, name: &str) -> (r: String)
    requires
        2 * p.one@.len() <= usize::MAX,
        2 * p.modulus@.len() <= usize::MAX,
        2 * p.r2@.len() <= usize::MAX,
    ensures
        r@ == field_text(*t, *p, limb64, name@),
{
    let mut src = t.common.clone();
    src.append("\n");
    let ps = params(p, limb64);
    src.append(ps.as_str());
    src.append("\n");
    src.append(t.field.as_str());
    proof {
        reveal_strlit("FIELD");
    }
    replace(src.as_str(), "FIELD", name)
}

/// The whole device program for a curve whose scalar field is `fr` and
/// whose base field is `fq`, with 64-bit limbs or with 32-bit ones.
pub fn kernel(t: &KernelTemplates, fr: &FieldParams, fq: &FieldParams, limb64: bool) -> (r: String)
    requires
        2 * fr.one@.len() <= usize::MAX,
        2 * fr.modulus@.len() <= usize::MAX,
        2 * fr.r2@.len() <= usize::MAX,
        2 * fq.one@.len() <= usize::MAX,
        2 * fq.modulus@.len() <= usize::MAX,
        2 * fq.r2@.len() <= usize::MAX,
    ensures
        r@ == kernel_text(*t, *fr, *fq, limb64),
{
    let sep = "\n\n";
    let mut out = field(t, fr, limb64, "Fr");
    out.append(sep);
    let s = fft(t.fft.as_str(), "Fr");
    out.append(s.as_str());
    out.append(sep);
    let s = field(t, fq, limb64, "Fq");
    out.append(s.as_str());
    out.append(sep);
    let s = ec(t.ec.as_str(), "Fq", "G1");
    out.append(s.as_str());
    out.append(sep);
    let s = multiexp(t.multiexp.as_str(), "G1", "Fr");
    out.append(s.as_str());
    out.append(sep);
    let s = field2(t.field2.as_str(), "Fq2", "Fq");
    out.append(s.as_str());
    out.append(sep);
    let s = ec(t.ec.as_str(), "Fq2", "G2");
    out.append(s.as_str());
    out.append(sep);
    let s = multiexp(t.multiexp.as_str(), "G2", "Fr");
    out.append(s.as_str());
    proof {
        assert(out@ =~= kernel_text(*t, *fr, *fq, limb64));
    }
    out
}

} // verus!
