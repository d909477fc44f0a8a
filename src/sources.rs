use vstd::prelude::*;
use vstd::std_specs::iter::IteratorSpec;
use vstd::string::*;

verus! {

broadcast use {axiom_spec_iter, next_postcondition};

/// Leftmost, non-overlapping replacement of `p` by `r` in `t`, from index `i` on.
pub open spec fn replace_from(t: Seq<char>, p: Seq<char>, r: Seq<char>, i: int) -> Seq<char>
    decreases t.len() - i,
{
    if i < 0 || i >= t.len() {
        seq![]
    } else if p.len() > 0 && i + p.len() <= t.len() && t.subrange(i, i + p.len()) == p {
        r + replace_from(t, p, r, i + p.len())
    } else {
        seq![t[i]] + replace_from(t, p, r, i + 1)
    }
}

/// `t` with every occurrence of `p` replaced by `r`, scanning from the left
/// and not re-reading what was put in.
pub open spec fn replaced(t: Seq<char>, p: Seq<char>, r: Seq<char>) -> Seq<char> {
    replace_from(t, p, r, 0)
}

/// The characters of `s`.
fn chars_of(s: &str) -> (r: Vec<char>)
    ensures
        r@ == s@,
{
    let mut r: Vec<char> = Vec::new();
    let mut it = s.chars();
    loop
        invariant
            r@ + it.remaining() == s@,
            it.obeys_prophetic_iter_laws(),
            it.decrease() is Some,
        ensures
            r@ == s@,
        decreases it.decrease()->0,
    {
        match it.next() {
            Some(c) => {
                r.push(c);
                proof {
                    assert(r@ + it.remaining() =~= s@);
                }
            },
            None => {
                proof {
                    assert(it.remaining().len() == 0);
                    assert(r@ =~= s@);
                }
                break ;
            },
        }
    }
    r
}

/// Whether `p` occurs in `t` at index `i`.
fn occurs_at(t: &Vec<char>, p: &Vec<char>, i: usize) -> (r: bool)
    requires
        i <= t@.len(),
    ensures
        r == (i + p@.len() <= t@.len() && t@.subrange(i as int, i + p@.len()) == p@),
{
    let tn = t.len();
    if p.len() > tn - i {
        return false;
    }
    let mut j: usize = 0;
    while j < p.len()
        invariant
            j <= p@.len(),
            i + p@.len() <= t@.len(),
            t@.len() <= usize::MAX,
            forall|k: int| 0 <= k < j ==> t@[i + k] == p@[k],
        decreases p@.len() - j,
    {
        if t[i + j] != p[j] {
            proof {
                assert(t@.subrange(i as int, i + p@.len())[j as int] != p@[j as int]);
            }
            return false;
        }
        j = j + 1;
    }
    proof {
        assert(t@.subrange(i as int, i + p@.len()) =~= p@);
    }
    true
}

/// Replaces every occurrence of `pat` in `text` by `rep`, leftmost first and
/// without overlap, as `str::replace` does.
pub fn replace(text: &str, pat: &str, rep: &str) -> (r: String)
    requires
        pat@.len() > 0,
    ensures
        r@ == replaced(text@, pat@, rep@),
{
    let t = chars_of(text);
    let p = chars_of(pat);
    let n = t.len();
    let mut out = String::from_str("");
    proof {
        reveal_strlit("");
    }
    let mut seg: usize = 0;
    let mut i: usize = 0;
    while i < n
        invariant
            n == t@.len(),
            t@ == text@,
            p@ == pat@,
            p@.len() > 0,
            seg <= i <= n,
            out@ + t@.subrange(seg as int, i as int) + replace_from(t@, p@, rep@, i as int)
                == replace_from(t@, p@, rep@, 0),
        decreases n - i,
    {
        let ghost before = out@;
        if occurs_at(&t, &p, i) {
            let piece = text.substring_char(seg, i);
            out.append(piece);
            out.append(rep);
            proof {
                assert(replace_from(t@, p@, rep@, i as int) == rep@ + replace_from(
                    t@,
                    p@,
                    rep@,
                    i + p@.len(),
                ));
                assert(t@.subrange((i + p@.len()) as int, (i + p@.len()) as int) =~= seq![]);
                assert(out@ + t@.subrange((i + p@.len()) as int, (i + p@.len()) as int)
                    + replace_from(t@, p@, rep@, i + p@.len()) =~= before + t@.subrange(
                    seg as int,
                    i as int,
                ) + replace_from(t@, p@, rep@, i as int));
            }
            i = i + p.len();
            seg = i;
        } else {
            proof {
                assert(replace_from(t@, p@, rep@, i as int) == seq![t@[i as int]] + replace_from(
                    t@,
                    p@,
                    rep@,
                    i + 1,
                ));
                assert(t@.subrange(seg as int, i as int) + seq![t@[i as int]] =~= t@.subrange(
                    seg as int,
                    i + 1,
                ));
            }
            i = i + 1;
        }
    }
    let piece = text.substring_char(seg, n);
    out.append(piece);
    proof {
        assert(replace_from(t@, p@, rep@, n as int) == Seq::<char>::empty());
        assert(out@ =~= out@ + replace_from(t@, p@, rep@, n as int));
    }
    out
}

/// Source of the quadratic extension field `extension` over `field`: the
/// template with its placeholders `FIELD2` and `FIELD` filled in.
pub fn field2(template: &str, extension: &str, field: &str) -> (r: String)
    ensures
        r@ == replaced(replaced(template@, "FIELD2"@, extension@), "FIELD"@, field@),
{
    proof {
        reveal_strlit("FIELD2");
        reveal_strlit("FIELD");
    }
    let s = replace(template, "FIELD2", extension);
    replace(s.as_str(), "FIELD", field)
}

/// Source of the FFT kernel over `field`.
pub fn fft(template: &str, field: &str) -> (r: String)
    ensures
        r@ == replaced(template@, "FIELD"@, field@),
{
    proof {
        reveal_strlit("FIELD");
    }
    replace(template, "FIELD", field)
}

/// Source of the curve group law for points `point` over `field`.
pub fn ec(template: &str, field: &str, point: &str) -> (r: String)
    ensures
        r@ == replaced(replaced(template@, "FIELD"@, field@), "POINT"@, point@),
{
    proof {
        reveal_strlit("FIELD");
        reveal_strlit("POINT");
    }
    let s = replace(template, "FIELD", field);
    replace(s.as_str(), "POINT", point)
}

/// Source of the bucket kernel for points `point` and exponents `exp`.
pub fn multiexp(template: &str, point: &str, exp: &str) -> (r: String)
    ensures
        r@ == replaced(replaced(template@, "POINT"@, point@), "EXPONENT"@, exp@),
{
    proof {
        reveal_strlit("POINT");
        reveal_strlit("EXPONENT");
    }
    let s = replace(template, "POINT", point);
    replace(s.as_str(), "EXPONENT", exp)
}

} // verus!
