//! Exact decimal values.
//!
//! Frequencies, gains and Q factors are carried through the pipeline
//! verbatim: a value is the sign and the digit strings of its source
//! token, so parsing and re-emission are lossless and no rounding can
//! occur.  The grammar is `['-'] digit+ ['.' digit+]`.
use vstd::prelude::*;

use crate::text::{
    all_digits, byte_is_digit, digit_prefix_len, is_digit, lemma_digit_prefix_len,
    lemma_digit_prefix_unique, sub_vec,
};

verus! {

/// Length of the leading sign of a decimal token (0 or 1).
pub open spec fn sign_len(s: Seq<u8>) -> int {
    if s.len() > 0 && s[0] == 45 {
        1
    } else {
        0
    }
}

/// Index just past the integer digits of a decimal token.
pub open spec fn int_end(s: Seq<u8>) -> int {
    sign_len(s) + digit_prefix_len(s.skip(sign_len(s)))
}

/// `s` is a well-formed decimal token: an optional minus sign, at least
/// one integer digit, and an optional dot followed by at least one
/// fraction digit, with nothing else.
pub open spec fn is_decimal(s: Seq<u8>) -> bool {
    let b = sign_len(s);
    let k = int_end(s);
    k > b && (k == s.len() || (s[k] == 46 && k + 1 < s.len() && digit_prefix_len(s.skip(k + 1))
        == s.len() - k - 1))
}

/// The sign of a decimal token.
pub open spec fn dec_neg(s: Seq<u8>) -> bool {
    sign_len(s) == 1
}

/// The integer digits of a decimal token.
pub open spec fn dec_int(s: Seq<u8>) -> Seq<u8> {
    s.subrange(sign_len(s), int_end(s))
}

/// The fraction digits of a decimal token (empty if it has no dot).
pub open spec fn dec_frac(s: Seq<u8>) -> Seq<u8> {
    if int_end(s) == s.len() {
        Seq::empty()
    } else {
        s.subrange(int_end(s) + 1, s.len() as int)
    }
}

/// The token printed for a sign and two digit strings.
pub open spec fn dec_render(neg: bool, ip: Seq<u8>, fp: Seq<u8>) -> Seq<u8> {
    (if neg {
        seq![45u8]
    } else {
        Seq::empty()
    }) + ip + (if fp.len() > 0 {
        seq![46u8] + fp
    } else {
        Seq::empty()
    })
}

/// Well-formed components: at least one integer digit, digits only.
pub open spec fn dec_wf(neg: bool, ip: Seq<u8>, fp: Seq<u8>) -> bool {
    ip.len() > 0 && all_digits(ip) && all_digits(fp)
}

/// Rendering well-formed components gives a well-formed token, and the
/// token decomposes back into exactly those components.
pub proof fn lemma_decimal_render_parse(neg: bool, ip: Seq<u8>, fp: Seq<u8>)
    requires
        dec_wf(neg, ip, fp),
    ensures
        is_decimal(dec_render(neg, ip, fp)),
        dec_neg(dec_render(neg, ip, fp)) == neg,
        dec_int(dec_render(neg, ip, fp)) == ip,
        dec_frac(dec_render(neg, ip, fp)) == fp,
{
    let s = dec_render(neg, ip, fp);
    let b: int = if neg {
        1
    } else {
        0
    };
    assert(s.len() == b + ip.len() + (if fp.len() > 0 {
        1 + fp.len() as int
    } else {
        0int
    }));
    assert forall|i: int| 0 <= i < ip.len() implies s[b + i] == ip[i] by {}
    if neg {
        assert(s[0] == 45);
    } else {
        assert(s[0] == ip[0]);
        assert(is_digit(ip[0]));
    }
    assert(sign_len(s) == b);
    let rest = s.skip(b);
    assert forall|i: int| 0 <= i < ip.len() implies rest[i] == ip[i] by {
        assert(rest[i] == s[b + i]);
    }
    assert(rest.take(ip.len() as int) =~= ip);
    if fp.len() > 0 {
        assert(rest[ip.len() as int] == s[b + ip.len()]);
        assert(s[b + ip.len()] == 46);
        assert(!is_digit(46u8));
        lemma_digit_prefix_unique(rest, ip.len() as int);
        assert(int_end(s) == b + ip.len());
        let k = int_end(s);
        let fr = s.skip(k + 1);
        assert(fr.len() == fp.len());
        assert forall|i: int| 0 <= i < fp.len() implies fr[i] == fp[i] by {
            assert(fr[i] == s[k + 1 + i]);
        }
        assert(fr =~= fp);
        assert(fr.take(fr.len() as int) =~= fr);
        lemma_digit_prefix_unique(fr, fr.len() as int);
        assert(is_decimal(s));
        assert(dec_int(s) =~= ip);
        assert(dec_frac(s) =~= fp);
    } else {
        assert(rest.len() == ip.len());
        assert(rest =~= ip);
        lemma_digit_prefix_unique(rest, ip.len() as int);
        assert(int_end(s) == s.len());
        assert(is_decimal(s));
        assert(dec_int(s) =~= ip);
        assert(dec_frac(s) =~= fp);
    }
}

/// A well-formed token re-renders from its components byte for byte, and
/// its components are well formed.
pub proof fn lemma_decimal_parse_render(s: Seq<u8>)
    requires
        is_decimal(s),
    ensures
        dec_wf(dec_neg(s), dec_int(s), dec_frac(s)),
        dec_render(dec_neg(s), dec_int(s), dec_frac(s)) == s,
{
    let b = sign_len(s);
    let k = int_end(s);
    lemma_digit_prefix_len(s.skip(b));
    assert(b <= k <= s.len());
    assert(dec_int(s).len() > 0);
    assert forall|i: int| 0 <= i < dec_int(s).len() implies is_digit(#[trigger] dec_int(s)[i]) by {
        assert(dec_int(s)[i] == s.skip(b)[i]);
    }
    if k == s.len() {
        assert(dec_frac(s).len() == 0);
        assert(dec_render(dec_neg(s), dec_int(s), dec_frac(s)) =~= s);
    } else {
        lemma_digit_prefix_len(s.skip(k + 1));
        assert forall|i: int| 0 <= i < dec_frac(s).len() implies is_digit(
            #[trigger] dec_frac(s)[i],
        ) by {
            assert(dec_frac(s)[i] == s.skip(k + 1)[i]);
            assert(digit_prefix_len(s.skip(k + 1)) == s.len() - k - 1);
        }
        assert(dec_frac(s).len() > 0);
        assert(dec_render(dec_neg(s), dec_int(s), dec_frac(s)) =~= s);
    }
}

/// An exact decimal number: the integer and fraction digit strings of its
/// textual form, kept verbatim.
#[derive(Debug, Clone, PartialEq, Eq)]
pub struct Decimal {
    pub negative: bool,
    pub int_digits: Vec<u8>,
    pub frac_digits: Vec<u8>,
}

impl Decimal {
    /// Structural well-formedness of the digit strings.
    pub open spec fn wf(&self) -> bool {
        dec_wf(self.negative, self.int_digits@, self.frac_digits@)
    }

    /// The token this value prints as.
    pub open spec fn to_bytes(&self) -> Seq<u8> {
        dec_render(self.negative, self.int_digits@, self.frac_digits@)
    }

    /// Parses a decimal token.  Returns a value exactly when the token is
    /// well formed, and the value re-renders as the token itself.
    pub fn parse(t: &[u8]) -> (r: Option<Decimal>)
        ensures
            r is Some <==> is_decimal(t@),
            r matches Some(d) ==> d.wf() && d.to_bytes() == t@ && d.negative == dec_neg(t@)
                && d.int_digits@ == dec_int(t@) && d.frac_digits@ == dec_frac(t@),
    {
        let n: usize = t.len();
        if n == 0 {
            return None;
        }
        let negative = t[0] == 45;
        let b: usize = if negative {
            1
        } else {
            0
        };
        let mut k: usize = b;
        while k < n && byte_is_digit(t[k])
            invariant
                b <= k <= n,
                n == t@.len(),
                forall|q: int| b <= q < k ==> is_digit(#[trigger] t@[q]),
            decreases n - k,
        {
            k += 1;
        }
        proof {
            let rest = t@.skip(b as int);
            assert forall|q: int| 0 <= q < k - b implies is_digit(#[trigger] rest[q]) by {
                assert(rest[q] == t@[b + q]);
            }
            assert(rest.take(k - b) =~= t@.subrange(b as int, k as int));
            if (k as int) < n as int {
                assert(rest[k - b] == t@[k as int]);
            }
            lemma_digit_prefix_unique(rest, k - b);
            assert(sign_len(t@) == b);
            assert(int_end(t@) == k);
        }
        if k == b {
            return None;
        }
        if k == n {
            let d = Decimal {
                negative,
                int_digits: sub_vec(t, b, k),
                frac_digits: Vec::new(),
            };
            proof {
                assert(d.to_bytes() =~= t@);
            }
            return Some(d);
        }
        if t[k] != 46 {
            return None;
        }
        let mut j: usize = k + 1;
        while j < n && byte_is_digit(t[j])
            invariant
                k + 1 <= j <= n,
                n == t@.len(),
                forall|q: int| k + 1 <= q < j ==> is_digit(#[trigger] t@[q]),
            decreases n - j,
        {
            j += 1;
        }
        proof {
            let fr = t@.skip(k + 1);
            assert forall|q: int| 0 <= q < j - k - 1 implies is_digit(#[trigger] fr[q]) by {
                assert(fr[q] == t@[k + 1 + q]);
            }
            assert(fr.take(j - k - 1) =~= t@.subrange(k + 1, j as int));
            if (j as int) < n as int {
                assert(fr[j - k - 1] == t@[j as int]);
            }
            lemma_digit_prefix_unique(fr, j - k - 1);
        }
        if j < n {
            return None;
        }
        if j == k + 1 {
            return None;
        }
        let d = Decimal {
            negative,
            int_digits: sub_vec(t, b, k),
            frac_digits: sub_vec(t, k + 1, n),
        };
        proof {
            assert(d.to_bytes() =~= t@);
        }
        Some(d)
    }

    /// Prints the value back as its token.
    pub fn render(&self) -> (r: Vec<u8>)
        requires
            self.wf(),
        ensures
            r@ == self.to_bytes(),
    {
        let mut out: Vec<u8> = Vec::new();
        if self.negative {
            out.push(45);
        }
        let mut i: usize = 0;
        let n: usize = self.int_digits.len();
        let base: usize = out.len();
        while i < n
            invariant
                0 <= i <= n,
                n == self.int_digits@.len(),
                base == if self.negative { 1int } else { 0int },
                out@.len() == base + i,
                out@ =~= (if self.negative { seq![45u8] } else { Seq::<u8>::empty() })
                    + self.int_digits@.take(i as int),
            decreases n - i,
        {
            out.push(self.int_digits[i]);
            proof {
                assert(self.int_digits@.take(i + 1) =~= self.int_digits@.take(i as int).push(
                    self.int_digits@[i as int],
                ));
                assert(out@ =~= (if self.negative { seq![45u8] } else { Seq::<u8>::empty() })
                    + self.int_digits@.take(i + 1));
            }
            i += 1;
        }
        proof {
            assert(self.int_digits@.take(n as int) =~= self.int_digits@);
        }
        if self.frac_digits.len() > 0 {
            out.push(46);
            let m: usize = self.frac_digits.len();
            let ghost head = (if self.negative { seq![45u8] } else { Seq::<u8>::empty() })
                + self.int_digits@ + seq![46u8];
            proof {
                assert(out@ =~= head + self.frac_digits@.take(0));
            }
            let mut j: usize = 0;
            while j < m
                invariant
                    0 <= j <= m,
                    m == self.frac_digits@.len(),
                    out@ =~= head + self.frac_digits@.take(j as int),
                decreases m - j,
            {
                out.push(self.frac_digits[j]);
                proof {
                    assert(self.frac_digits@.take(j + 1) =~= self.frac_digits@.take(j as int).push(
                        self.frac_digits@[j as int],
                    ));
                    assert(out@ =~= head + self.frac_digits@.take(j + 1));
                }
                j += 1;
            }
            proof {
                assert(self.frac_digits@.take(m as int) =~= self.frac_digits@);
                assert(out@ =~= self.to_bytes());
            }
        } else {
            proof {
                assert(out@ =~= self.to_bytes());
            }
        }
        out
    }

    /// A whole number, for preset data: `n` with an optional minus sign.
    pub fn from_int(n: u64, negative: bool) -> (r: Decimal)
        ensures
            r.wf(),
            r.negative == negative,
            r.int_digits@ == crate::text::dec_digits_of(n as nat),
            r.frac_digits@ == Seq::<u8>::empty(),
    {
        proof {
            crate::text::lemma_dec_digits_wf(n as nat);
        }
        let d = Decimal { negative, int_digits: crate::text::u64_digits(n), frac_digits: Vec::new() };
        proof {
            assert(d.frac_digits@ =~= Seq::<u8>::empty());
        }
        d
    }

    /// A number with a fraction part, for preset data: the digits of
    /// `int_part`, a dot, then the digits of `frac_part`.
    pub fn from_parts(int_part: u64, frac_part: u64, negative: bool) -> (r: Decimal)
        ensures
            r.wf(),
            r.negative == negative,
            r.int_digits@ == crate::text::dec_digits_of(int_part as nat),
            r.frac_digits@ == crate::text::dec_digits_of(frac_part as nat),
    {
        proof {
            crate::text::lemma_dec_digits_wf(int_part as nat);
            crate::text::lemma_dec_digits_wf(frac_part as nat);
        }
        Decimal {
            negative,
            int_digits: crate::text::u64_digits(int_part),
            frac_digits: crate::text::u64_digits(frac_part),
        }
    }
}


/// Every byte of a well-formed decimal token is a minus sign, a dot or a
/// digit; in particular no whitespace occurs in one.
pub proof fn lemma_decimal_bytes(s: Seq<u8>)
    requires
        is_decimal(s),
    ensures
        forall|i: int|
            0 <= i < s.len() ==> (#[trigger] s[i] == 45 || s[i] == 46 || is_digit(s[i])),
{
    lemma_decimal_parse_render(s);
    let neg = dec_neg(s);
    let ip = dec_int(s);
    let fp = dec_frac(s);
    let b: int = if neg {
        1
    } else {
        0
    };
    assert forall|i: int|
        0 <= i < s.len() implies (#[trigger] s[i] == 45 || s[i] == 46 || is_digit(s[i])) by {
        let r = dec_render(neg, ip, fp);
        assert(r == s);
        if i < b {
            assert(r[i] == 45);
        } else if i < b + ip.len() {
            assert(r[i] == ip[i - b]);
        } else if fp.len() > 0 && i == b + ip.len() {
            assert(r[i] == 46);
        } else if fp.len() > 0 {
            assert(r[i] == fp[i - b - ip.len() - 1]);
        }
    }
}


/// Two decimal values with the same sign and the same digit strings.
pub open spec fn dec_equiv(a: Decimal, b: Decimal) -> bool {
    a.negative == b.negative && a.int_digits@ == b.int_digits@ && a.frac_digits@ == b.frac_digits@
}

} // verus!
