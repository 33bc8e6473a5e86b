//! The correction-data text parser.
//!
//! A correction resource is one header line carrying the preamp gain and
//! then one line per EQ band.  Band lines follow the fixed layout
//! `Filter <n>: ON PK Fc <freq> Hz Gain <gain> dB Q <q>`; every literal
//! token is checked, so a line of any other band kind fails loudly
//! instead of being misread as a peaking band.
use vstd::prelude::*;

use crate::configcreation::{BiquadParameters, CorrectionFilterSet, PeakingWidth};
use crate::decimal::{is_decimal, Decimal};
use crate::text::{
    all_digits, byte_is_digit, digit_prefix_len, is_digit, lemma_digit_prefix_unique,
    lemma_until_byte_unique, lines_of, split_ws, sub_vec, text_lines, until_byte_len, views_of,
    ws_tokens,
};
use vstd::string::StringSliceAdditionalSpecFns;

verus! {

/// Why a correction resource was rejected.
#[derive(Debug, Clone, Copy, PartialEq, Eq, Structural)]
pub enum ParseError {
    /// The first line does not carry a readable gain value.
    MalformedHeader,
    /// A band line (1-based line number in the resource) is out of grammar.
    MalformedBandLine { line: usize },
}

/// Removes a trailing `dB` unit (bytes 100, 66) from a gain token.
pub open spec fn strip_unit(t: Seq<u8>) -> Seq<u8> {
    if t.len() >= 2 && t[t.len() - 2] == 100 && t[t.len() - 1] == 66 {
        t.take(t.len() - 2)
    } else {
        t
    }
}

/// The header line is exactly two whitespace-separated tokens, and the
/// second is a decimal value with an optional `dB` unit appended.
pub open spec fn header_ok(line: Seq<u8>) -> bool {
    ws_tokens(line).len() == 2 && is_decimal(strip_unit(ws_tokens(line)[1]))
}

/// The gain token of a well-formed header, unit removed.
pub open spec fn header_gain(line: Seq<u8>) -> Seq<u8> {
    strip_unit(ws_tokens(line)[1])
}

/// Parses the header line of a correction resource into the preamp gain.
/// Succeeds exactly on well-formed headers, and the value returned prints
/// back as the header's own gain token.
pub fn parse_preamp_gain(line: &[u8]) -> (r: Result<Decimal, ParseError>)
    ensures
        r is Ok <==> header_ok(line@),
        r matches Ok(d) ==> d.wf() && d.to_bytes() == header_gain(line@),
        r matches Err(e) ==> e == ParseError::MalformedHeader,
{
    let tokens = split_ws(line);
    if tokens.len() != 2 {
        proof {
            assert(views_of(tokens@).len() == tokens@.len());
        }
        return Err(ParseError::MalformedHeader);
    }
    proof {
        assert(views_of(tokens@).len() == tokens@.len());
        assert(views_of(tokens@)[1] == tokens@[1]@);
    }
    let t = &tokens[1];
    let tn: usize = t.len();
    let stripped: Vec<u8> = if tn >= 2 && t[tn - 2] == 100 && t[tn - 1] == 66 {
        sub_vec(t.as_slice(), 0, tn - 2)
    } else {
        sub_vec(t.as_slice(), 0, tn)
    };
    proof {
        assert(stripped@ =~= strip_unit(ws_tokens(line@)[1]));
    }
    match Decimal::parse(stripped.as_slice()) {
        Some(d) => Ok(d),
        None => Err(ParseError::MalformedHeader),
    }
}


/// First literal of a band line.
pub open spec fn band_lit1() -> Seq<u8> {
    "Filter ".spec_bytes()
}

/// Literal between the band index and the frequency.
pub open spec fn band_lit2() -> Seq<u8> {
    ": ON PK Fc ".spec_bytes()
}

/// Literal between the frequency and the gain.
pub open spec fn band_lit3() -> Seq<u8> {
    " Hz Gain ".spec_bytes()
}

/// Literal between the gain and the Q factor.
pub open spec fn band_lit4() -> Seq<u8> {
    " dB Q ".spec_bytes()
}

/// Lengths and boundary bytes of the four literals, for the decomposition
/// arguments: the byte after the index is a colon (58), and the literals
/// after the frequency and the gain both start with a space (32).
pub proof fn lemma_band_literals()
    ensures
        band_lit1().len() == 7,
        band_lit2().len() == 11,
        band_lit3().len() == 9,
        band_lit4().len() == 6,
        band_lit2()[0] == 58,
        band_lit3()[0] == 32,
        band_lit4()[0] == 32,
        !is_digit(58u8),
{
    reveal_strlit("Filter ");
    reveal_strlit(": ON PK Fc ");
    reveal_strlit(" Hz Gain ");
    reveal_strlit(" dB Q ");
    assert(vstd::string::is_ascii("Filter "));
    assert(vstd::string::is_ascii(": ON PK Fc "));
    assert(vstd::string::is_ascii(" Hz Gain "));
    assert(vstd::string::is_ascii(" dB Q "));
    vstd::string::is_ascii_spec_bytes("Filter ");
    vstd::string::is_ascii_spec_bytes(": ON PK Fc ");
    vstd::string::is_ascii_spec_bytes(" Hz Gain ");
    vstd::string::is_ascii_spec_bytes(" dB Q ");
}

/// The line is exactly the four literals interleaved with a band index
/// (digits), a frequency, a gain and a Q factor (decimal tokens).
pub open spec fn band_line_form(
    line: Seq<u8>,
    idx: Seq<u8>,
    f: Seq<u8>,
    g: Seq<u8>,
    q: Seq<u8>,
) -> bool {
    &&& line == band_lit1() + idx + band_lit2() + f + band_lit3() + g + band_lit4() + q
    &&& idx.len() > 0
    &&& all_digits(idx)
    &&& is_decimal(f)
    &&& is_decimal(g)
    &&& is_decimal(q)
}

/// The line is a well-formed band line.
pub open spec fn band_line_ok(line: Seq<u8>) -> bool {
    exists|idx: Seq<u8>, f: Seq<u8>, g: Seq<u8>, q: Seq<u8>| band_line_form(line, idx, f, g, q)
}

/// What parsing a band line returns: a peaking band whose three values
/// print back as the line's own frequency, gain and Q tokens.
pub open spec fn band_parse_post(line: Seq<u8>, b: BiquadParameters) -> bool {
    exists|idx: Seq<u8>, f: Seq<u8>, g: Seq<u8>, q: Seq<u8>|
        {
            &&& band_line_form(line, idx, f, g, q)
            &&& match b {
                BiquadParameters::Peaking(PeakingWidth::Q { freq, q: qv, gain }) => freq.wf()
                    && qv.wf() && gain.wf() && freq.to_bytes() == f && gain.to_bytes() == g
                    && qv.to_bytes() == q,
                _ => false,
            }
        }
}

/// A band-line decomposition fixes every boundary position: the index is
/// the digit run after the first literal, and the frequency and gain end
/// at the first space after their own starts.
pub proof fn lemma_band_line_positions(
    line: Seq<u8>,
    idx: Seq<u8>,
    f: Seq<u8>,
    g: Seq<u8>,
    q: Seq<u8>,
)
    requires
        band_line_form(line, idx, f, g, q),
    ensures
        line.len() == 33 + idx.len() + f.len() + g.len() + q.len(),
        line.len() >= 7 && line.subrange(0, 7) == band_lit1(),
        idx.len() == digit_prefix_len(line.skip(7)),
        idx == line.subrange(7, 7 + idx.len() as int),
        line.subrange(7 + idx.len() as int, 18 + idx.len() as int) == band_lit2(),
        f.len() == until_byte_len(line.skip(18 + idx.len() as int), 32),
        f == line.subrange(18 + idx.len() as int, 18 + idx.len() + f.len() as int),
        line.subrange(18 + idx.len() + f.len() as int, 27 + idx.len() + f.len() as int)
            == band_lit3(),
        g.len() == until_byte_len(line.skip(27 + idx.len() + f.len() as int), 32),
        g == line.subrange(
            27 + idx.len() + f.len() as int,
            27 + idx.len() + f.len() + g.len() as int,
        ),
        line.subrange(
            27 + idx.len() + f.len() + g.len() as int,
            33 + idx.len() + f.len() + g.len() as int,
        ) == band_lit4(),
        q == line.subrange(33 + idx.len() + f.len() + g.len() as int, line.len() as int),
{
    lemma_band_literals();
    let il = idx.len() as int;
    let fl = f.len() as int;
    let gl = g.len() as int;
    let ql = q.len() as int;
    let w = band_lit1() + idx + band_lit2() + f + band_lit3() + g + band_lit4() + q;
    assert(line.len() == 33 + il + fl + gl + ql);
    // positions of each piece inside the concatenation
    assert forall|i: int| 0 <= i < 7 implies line[i] == band_lit1()[i] by {}
    assert forall|i: int| 0 <= i < il implies line[7 + i] == idx[i] by {}
    assert forall|i: int| 0 <= i < 11 implies line[7 + il + i] == band_lit2()[i] by {}
    assert forall|i: int| 0 <= i < fl implies line[18 + il + i] == f[i] by {}
    assert forall|i: int| 0 <= i < 9 implies line[18 + il + fl + i] == band_lit3()[i] by {}
    assert forall|i: int| 0 <= i < gl implies line[27 + il + fl + i] == g[i] by {}
    assert forall|i: int| 0 <= i < 6 implies line[27 + il + fl + gl + i] == band_lit4()[i] by {}
    assert forall|i: int| 0 <= i < ql implies line[33 + il + fl + gl + i] == q[i] by {}
    assert(line.subrange(0, 7) =~= band_lit1());
    assert(idx =~= line.subrange(7, 7 + il));
    assert(line.subrange(7 + il, 18 + il) =~= band_lit2());
    assert(f =~= line.subrange(18 + il, 18 + il + fl));
    assert(line.subrange(18 + il + fl, 27 + il + fl) =~= band_lit3());
    assert(g =~= line.subrange(27 + il + fl, 27 + il + fl + gl));
    assert(line.subrange(27 + il + fl + gl, 33 + il + fl + gl) =~= band_lit4());
    assert(q =~= line.subrange(33 + il + fl + gl, line.len() as int));
    // the index is the maximal digit run after the first literal
    let s7 = line.skip(7);
    assert forall|i: int| 0 <= i < il implies is_digit(#[trigger] s7[i]) by {
        assert(s7[i] == line[7 + i]);
        assert(line[7 + i] == idx[i]);
    }
    assert(s7.take(il) =~= idx);
    assert(s7[il] == line[7 + il]);
    assert(line[7 + il] == band_lit2()[0]);
    lemma_digit_prefix_unique(s7, il);
    // the frequency runs to the first space after its start
    crate::decimal::lemma_decimal_bytes(f);
    let sf = line.skip(18 + il);
    assert forall|i: int| 0 <= i < fl implies #[trigger] sf[i] != 32 by {
        assert(sf[i] == line[18 + il + i]);
        assert(line[18 + il + i] == f[i]);
        assert(f[i] == 45 || f[i] == 46 || is_digit(f[i]));
    }
    assert(sf[fl] == line[18 + il + fl]);
    assert(line[18 + il + fl] == band_lit3()[0]);
    lemma_until_byte_unique(sf, 32, fl);
    // the gain runs to the first space after its start
    crate::decimal::lemma_decimal_bytes(g);
    let sg = line.skip(27 + il + fl);
    assert forall|i: int| 0 <= i < gl implies #[trigger] sg[i] != 32 by {
        assert(sg[i] == line[27 + il + fl + i]);
        assert(line[27 + il + fl + i] == g[i]);
        assert(g[i] == 45 || g[i] == 46 || is_digit(g[i]));
    }
    assert(sg[gl] == line[27 + il + fl + gl]);
    assert(line[27 + il + fl + gl] == band_lit4()[0]);
    lemma_until_byte_unique(sg, 32, gl);
}

/// A band line decomposes in exactly one way, so parsing is a function of
/// the line alone: two values that both satisfy the parse contract on the
/// same line are equal.
#[verifier::rlimit(60)]
pub proof fn lemma_band_parse_deterministic(line: Seq<u8>, b1: BiquadParameters, b2: BiquadParameters)
    requires
        band_parse_post(line, b1),
        band_parse_post(line, b2),
    ensures
        match (b1, b2) {
            (
                BiquadParameters::Peaking(PeakingWidth::Q { freq: fr1, q: qv1, gain: gn1 }),
                BiquadParameters::Peaking(PeakingWidth::Q { freq: fr2, q: qv2, gain: gn2 }),
            ) => crate::decimal::dec_equiv(fr1, fr2) && crate::decimal::dec_equiv(gn1, gn2)
                && crate::decimal::dec_equiv(qv1, qv2),
            _ => false,
        },
{
    let (i1, f1, g1, q1) = choose|i: Seq<u8>, f: Seq<u8>, g: Seq<u8>, q: Seq<u8>|
        band_line_form(line, i, f, g, q) && match b1 {
            BiquadParameters::Peaking(PeakingWidth::Q { freq, q: qv, gain }) => freq.wf()
                && qv.wf() && gain.wf() && freq.to_bytes() == f && gain.to_bytes() == g
                && qv.to_bytes() == q,
            _ => false,
        };
    let (i2, f2, g2, q2) = choose|i: Seq<u8>, f: Seq<u8>, g: Seq<u8>, q: Seq<u8>|
        band_line_form(line, i, f, g, q) && match b2 {
            BiquadParameters::Peaking(PeakingWidth::Q { freq, q: qv, gain }) => freq.wf()
                && qv.wf() && gain.wf() && freq.to_bytes() == f && gain.to_bytes() == g
                && qv.to_bytes() == q,
            _ => false,
        };
    lemma_band_line_positions(line, i1, f1, g1, q1);
    lemma_band_line_positions(line, i2, f2, g2, q2);
    assert(i1 == i2);
    assert(f1 == f2);
    assert(g1 == g2);
    assert(q1 == q2);
    match (b1, b2) {
        (
            BiquadParameters::Peaking(PeakingWidth::Q { freq: fr1, q: qv1, gain: gn1 }),
            BiquadParameters::Peaking(PeakingWidth::Q { freq: fr2, q: qv2, gain: gn2 }),
        ) => {
            crate::decimal::lemma_decimal_render_parse(
                fr1.negative,
                fr1.int_digits@,
                fr1.frac_digits@,
            );
            crate::decimal::lemma_decimal_render_parse(
                fr2.negative,
                fr2.int_digits@,
                fr2.frac_digits@,
            );
            crate::decimal::lemma_decimal_render_parse(
                gn1.negative,
                gn1.int_digits@,
                gn1.frac_digits@,
            );
            crate::decimal::lemma_decimal_render_parse(
                gn2.negative,
                gn2.int_digits@,
                gn2.frac_digits@,
            );
            crate::decimal::lemma_decimal_render_parse(
                qv1.negative,
                qv1.int_digits@,
                qv1.frac_digits@,
            );
            crate::decimal::lemma_decimal_render_parse(
                qv2.negative,
                qv2.int_digits@,
                qv2.frac_digits@,
            );
            assert(fr1.int_digits@ == fr2.int_digits@);
            assert(fr1.frac_digits@ == fr2.frac_digits@);
            assert(gn1.int_digits@ == gn2.int_digits@);
            assert(gn1.frac_digits@ == gn2.frac_digits@);
            assert(qv1.int_digits@ == qv2.int_digits@);
            assert(qv1.frac_digits@ == qv2.frac_digits@);
        },
        _ => {},
    }
}

/// Does `lit` occur in `line` starting at `pos`?
fn expect(line: &[u8], pos: usize, lit: &str) -> (r: bool)
    ensures
        r == (pos + lit.spec_bytes().len() <= line@.len() && line@.subrange(
            pos as int,
            pos + lit.spec_bytes().len(),
        ) == lit.spec_bytes()),
{
    let lb = lit.as_bytes();
    let m: usize = lb.len();
    if pos > line.len() || m > line.len() - pos {
        return false;
    }
    let sub = vstd::slice::slice_subrange(line, pos, pos + m);
    crate::text::bytes_eq(sub, lb)
}

/// First position at or after `pos` holding a space, or the line's end.
fn scan_to_space(line: &[u8], pos: usize) -> (r: usize)
    requires
        pos <= line@.len(),
    ensures
        pos <= r <= line@.len(),
        r - pos == until_byte_len(line@.skip(pos as int), 32),
{
    let n: usize = line.len();
    let mut j: usize = pos;
    while j < n && line[j] != 32
        invariant
            pos <= j <= n,
            n == line@.len(),
            forall|t: int| pos <= t < j ==> line@[t] != 32,
        decreases n - j,
    {
        j += 1;
    }
    proof {
        let rest = line@.skip(pos as int);
        assert forall|t: int| 0 <= t < j - pos implies rest[t] != 32 by {
            assert(rest[t] == line@[pos + t]);
        }
        if (j as int) < n as int {
            assert(rest[j - pos] == line@[j as int]);
        }
        lemma_until_byte_unique(rest, 32, j - pos);
    }
    j
}

/// Parses one band line.  Succeeds exactly on lines of the band grammar,
/// returning the peaking band whose values print back as the line's own
/// frequency, gain and Q tokens.
#[verifier::rlimit(100)]
pub fn parse_filter_line(line: &[u8]) -> (r: Option<BiquadParameters>)
    ensures
        r is Some <==> band_line_ok(line@),
        r matches Some(b) ==> band_parse_post(line@, b),
{
    proof {
        lemma_band_literals();
    }
    let n: usize = line.len();
    if !expect(line, 0, "Filter ") {
        proof {
            if band_line_ok(line@) {
                let (idx, f, g, q) = choose|idx: Seq<u8>, f: Seq<u8>, g: Seq<u8>, q: Seq<u8>|
                    band_line_form(line@, idx, f, g, q);
                lemma_band_line_positions(line@, idx, f, g, q);
            }
        }
        return None;
    }
    // the band index: the digit run after the first literal
    let mut k: usize = 7;
    while k < n && byte_is_digit(line[k])
        invariant
            7 <= k <= n,
            n == line@.len(),
            forall|t: int| 7 <= t < k ==> is_digit(#[trigger] line@[t]),
        decreases n - k,
    {
        k += 1;
    }
    proof {
        let rest = line@.skip(7);
        assert forall|t: int| 0 <= t < k - 7 implies is_digit(#[trigger] rest[t]) by {
            assert(rest[t] == line@[7 + t]);
        }
        assert(rest.take(k - 7) =~= line@.subrange(7, k as int));
        if (k as int) < n as int {
            assert(rest[k - 7] == line@[k as int]);
        }
        lemma_digit_prefix_unique(rest, k - 7);
    }
    if k == 7 {
        proof {
            if band_line_ok(line@) {
                let (idx, f, g, q) = choose|idx: Seq<u8>, f: Seq<u8>, g: Seq<u8>, q: Seq<u8>|
                    band_line_form(line@, idx, f, g, q);
                lemma_band_line_positions(line@, idx, f, g, q);
            }
        }
        return None;
    }
    if !expect(line, k, ": ON PK Fc ") {
        proof {
            if band_line_ok(line@) {
                let (idx, f, g, q) = choose|idx: Seq<u8>, f: Seq<u8>, g: Seq<u8>, q: Seq<u8>|
                    band_line_form(line@, idx, f, g, q);
                lemma_band_line_positions(line@, idx, f, g, q);
            }
        }
        return None;
    }
    let p1: usize = k + 11;
    let s1 = scan_to_space(line, p1);
    let freq_tok = sub_vec(line, p1, s1);
    let freq = match Decimal::parse(freq_tok.as_slice()) {
        Some(d) => d,
        None => {
            proof {
                if band_line_ok(line@) {
                    let (idx, f, g, q) = choose|idx: Seq<u8>, f: Seq<u8>, g: Seq<u8>, q: Seq<u8>|
                        band_line_form(line@, idx, f, g, q);
                    lemma_band_line_positions(line@, idx, f, g, q);
                    assert(f =~= freq_tok@);
                }
            }
            return None;
        },
    };
    if !expect(line, s1, " Hz Gain ") {
        proof {
            if band_line_ok(line@) {
                let (idx, f, g, q) = choose|idx: Seq<u8>, f: Seq<u8>, g: Seq<u8>, q: Seq<u8>|
                    band_line_form(line@, idx, f, g, q);
                lemma_band_line_positions(line@, idx, f, g, q);
                assert(f =~= freq_tok@);
            }
        }
        return None;
    }
    let p2: usize = s1 + 9;
    let s2 = scan_to_space(line, p2);
    let gain_tok = sub_vec(line, p2, s2);
    let gain = match Decimal::parse(gain_tok.as_slice()) {
        Some(d) => d,
        None => {
            proof {
                if band_line_ok(line@) {
                    let (idx, f, g, q) = choose|idx: Seq<u8>, f: Seq<u8>, g: Seq<u8>, q: Seq<u8>|
                        band_line_form(line@, idx, f, g, q);
                    lemma_band_line_positions(line@, idx, f, g, q);
                    assert(f =~= freq_tok@);
                    assert(g =~= gain_tok@);
                }
            }
            return None;
        },
    };
    if !expect(line, s2, " dB Q ") {
        proof {
            if band_line_ok(line@) {
                let (idx, f, g, q) = choose|idx: Seq<u8>, f: Seq<u8>, g: Seq<u8>, q: Seq<u8>|
                    band_line_form(line@, idx, f, g, q);
                lemma_band_line_positions(line@, idx, f, g, q);
                assert(f =~= freq_tok@);
                assert(g =~= gain_tok@);
            }
        }
        return None;
    }
    let p3: usize = s2 + 6;
    let q_tok = sub_vec(line, p3, n);
    let qv = match Decimal::parse(q_tok.as_slice()) {
        Some(d) => d,
        None => {
            proof {
                if band_line_ok(line@) {
                    let (idx, f, g, q) = choose|idx: Seq<u8>, f: Seq<u8>, g: Seq<u8>, q: Seq<u8>|
                        band_line_form(line@, idx, f, g, q);
                    lemma_band_line_positions(line@, idx, f, g, q);
                    assert(f =~= freq_tok@);
                    assert(g =~= gain_tok@);
                    assert(q =~= q_tok@);
                }
            }
            return None;
        },
    };
    let band = BiquadParameters::Peaking(PeakingWidth::Q { freq, q: qv, gain });
    proof {
        let idx = line@.subrange(7, k as int);
        assert(line@ =~= band_lit1() + idx + band_lit2() + freq_tok@ + band_lit3() + gain_tok@
            + band_lit4() + q_tok@);
        assert(band_line_form(line@, idx, freq_tok@, gain_tok@, q_tok@));
        assert(band_parse_post(line@, band));
    }
    Some(band)
}


/// The nonempty lines of a line sequence, in order.
pub open spec fn nonempty_lines(ls: Seq<Seq<u8>>) -> Seq<Seq<u8>>
    decreases ls.len(),
{
    if ls.len() == 0 {
        Seq::empty()
    } else if ls[0].len() > 0 {
        seq![ls[0]] + nonempty_lines(ls.drop_first())
    } else {
        nonempty_lines(ls.drop_first())
    }
}

pub proof fn lemma_nonempty_lines_push(ls: Seq<Seq<u8>>, l: Seq<u8>)
    ensures
        nonempty_lines(ls.push(l)) =~= nonempty_lines(ls) + (if l.len() > 0 {
            seq![l]
        } else {
            Seq::<Seq<u8>>::empty()
        }),
    decreases ls.len(),
{
    let p = ls.push(l);
    if ls.len() == 0 {
        assert(p[0] == l);
        assert(p.drop_first() =~= Seq::<Seq<u8>>::empty());
        assert(nonempty_lines(Seq::<Seq<u8>>::empty()) =~= Seq::<Seq<u8>>::empty());
        if l.len() > 0 {
            assert(nonempty_lines(p) == seq![p[0]] + nonempty_lines(p.drop_first()));
            assert(nonempty_lines(p) =~= nonempty_lines(ls) + seq![l]);
        } else {
            assert(nonempty_lines(p) == nonempty_lines(p.drop_first()));
            assert(nonempty_lines(p) =~= nonempty_lines(ls));
        }
    } else {
        assert(p[0] == ls[0]);
        assert(p.drop_first() =~= ls.drop_first().push(l));
        lemma_nonempty_lines_push(ls.drop_first(), l);
        let part = if l.len() > 0 {
            seq![l]
        } else {
            Seq::<Seq<u8>>::empty()
        };
        assert(nonempty_lines(p.drop_first()) =~= nonempty_lines(ls.drop_first()) + part);
        if ls[0].len() > 0 {
            assert(nonempty_lines(p) == seq![p[0]] + nonempty_lines(p.drop_first()));
            assert(nonempty_lines(ls) == seq![ls[0]] + nonempty_lines(ls.drop_first()));
            assert(nonempty_lines(p) =~= nonempty_lines(ls) + part);
        } else {
            assert(nonempty_lines(p) == nonempty_lines(p.drop_first()));
            assert(nonempty_lines(ls) == nonempty_lines(ls.drop_first()));
            assert(nonempty_lines(p) =~= nonempty_lines(ls) + part);
        }
    }
}

/// Every band line of the text parses; the whole parse fails on the first
/// line that does not.
pub open spec fn all_band_lines_ok(ls: Seq<Seq<u8>>) -> bool {
    forall|i: int| 0 <= i < ls.len() && (#[trigger] ls[i]).len() > 0 ==> band_line_ok(ls[i])
}

/// Parses every nonempty band line of `lines` (the lines after the
/// header, in file order) and appends the bands, in order, to the
/// correction set.  Fails on the first out-of-grammar line, reporting its
/// 1-based line number in the resource (the header is line 1).
pub fn parse_filters(lines: &[Vec<u8>], filterset: &mut CorrectionFilterSet) -> (r: Result<
    (),
    ParseError,
>)
    requires
        lines@.len() + 2 <= usize::MAX,
    ensures
        r is Ok <==> all_band_lines_ok(views_of(lines@)),
        final(filterset).gain == old(filterset).gain,
        r is Ok ==> {
            let bl = nonempty_lines(views_of(lines@));
            &&& final(filterset).eq_bands@.len() == old(filterset).eq_bands@.len() + bl.len()
            &&& forall|k: int|
                0 <= k < old(filterset).eq_bands@.len() ==> final(filterset).eq_bands@[k] == old(
                    filterset,
                ).eq_bands@[k]
            &&& forall|k: int|
                0 <= k < bl.len() ==> band_parse_post(
                    bl[k],
                    #[trigger] final(filterset).eq_bands@[old(filterset).eq_bands@.len() + k],
                )
        },
        r matches Err(e) ==> match e {
            ParseError::MalformedBandLine { line } => {
                &&& 2 <= line <= lines@.len() + 1
                &&& views_of(lines@)[line - 2].len() > 0
                &&& !band_line_ok(views_of(lines@)[line - 2])
                &&& forall|i: int|
                    0 <= i < line - 2 && (#[trigger] views_of(lines@)[i]).len() > 0
                        ==> band_line_ok(views_of(lines@)[i])
            },
            _ => false,
        },
{
    let n: usize = lines.len();
    let mut i: usize = 0;
    let ghost ls = views_of(lines@);
    proof {
        assert(ls.subrange(0, 0) =~= Seq::<Seq<u8>>::empty());
    }
    while i < n
        invariant
            0 <= i <= n,
            n == lines@.len(),
            n + 2 <= usize::MAX,
            ls == views_of(lines@),
            filterset.gain == old(filterset).gain,
            filterset.eq_bands@.len() == old(filterset).eq_bands@.len() + nonempty_lines(
                ls.subrange(0, i as int),
            ).len(),
            forall|k: int|
                0 <= k < old(filterset).eq_bands@.len() ==> filterset.eq_bands@[k] == old(
                    filterset,
                ).eq_bands@[k],
            forall|k: int|
                0 <= k < nonempty_lines(ls.subrange(0, i as int)).len() ==> band_parse_post(
                    nonempty_lines(ls.subrange(0, i as int))[k],
                    #[trigger] filterset.eq_bands@[old(filterset).eq_bands@.len() + k],
                ),
            forall|j: int| 0 <= j < i && (#[trigger] ls[j]).len() > 0 ==> band_line_ok(ls[j]),
        decreases n - i,
    {
        let line = &lines[i];
        proof {
            assert(ls[i as int] == line@);
            assert(ls.subrange(0, i + 1) =~= ls.subrange(0, i as int).push(ls[i as int]));
            lemma_nonempty_lines_push(ls.subrange(0, i as int), ls[i as int]);
        }
        if line.len() > 0 {
            match parse_filter_line(line.as_slice()) {
                Some(band) => {
                    filterset.eq_bands.push(band);
                    proof {
                        let prev = nonempty_lines(ls.subrange(0, i as int));
                        let now = nonempty_lines(ls.subrange(0, i + 1));
                        assert(now =~= prev.push(ls[i as int]));
                        assert forall|k: int| 0 <= k < now.len() implies band_parse_post(
                            now[k],
                            #[trigger] filterset.eq_bands@[old(filterset).eq_bands@.len() + k],
                        ) by {
                            if k < prev.len() {
                                assert(now[k] == prev[k]);
                            } else {
                                assert(now[k] == ls[i as int]);
                            }
                        }
                    }
                },
                None => {
                    return Err(ParseError::MalformedBandLine { line: i + 2 });
                },
            }
        } else {
            proof {
                assert(nonempty_lines(ls.subrange(0, i + 1)) =~= nonempty_lines(
                    ls.subrange(0, i as int),
                ));
            }
        }
        i += 1;
    }
    proof {
        assert(ls.subrange(0, n as int) =~= ls);
    }
    Ok(())
}

/// Parses a whole correction resource: the header line, then one band
/// per nonempty line.  Succeeds exactly when the header is well formed
/// and every nonempty band line is in grammar; the result then carries
/// the header's gain and the bands in file order.
pub fn parse_correction_data(text: &[u8]) -> (r: Result<CorrectionFilterSet, ParseError>)
    requires
        text@.len() + 2 <= usize::MAX,
    ensures
        r is Ok <==> (text_lines(text@).len() > 0 && header_ok(text_lines(text@)[0])
            && all_band_lines_ok(text_lines(text@).skip(1))),
        r matches Ok(cs) ==> {
            let ls = text_lines(text@);
            let bl = nonempty_lines(ls.skip(1));
            &&& cs.wf()
            &&& cs.gain.to_bytes() == header_gain(ls[0])
            &&& cs.eq_bands@.len() == bl.len()
            &&& forall|k: int|
                0 <= k < bl.len() ==> band_parse_post(bl[k], #[trigger] cs.eq_bands@[k])
        },
        r matches Err(e) ==> match e {
            ParseError::MalformedHeader => text_lines(text@).len() == 0 || !header_ok(
                text_lines(text@)[0],
            ),
            ParseError::MalformedBandLine { line } => {
                let ls = text_lines(text@);
                &&& ls.len() > 0
                &&& header_ok(ls[0])
                &&& 2 <= line <= ls.len()
                &&& ls[line - 1].len() > 0
                &&& !band_line_ok(ls[line - 1])
                &&& forall|i: int|
                    1 <= i < line - 1 && (#[trigger] ls[i]).len() > 0 ==> band_line_ok(ls[i])
            },
        },
{
    let lines = lines_of(text);
    proof {
        crate::text::lemma_split_seq_len(text@, 10);
        assert(views_of(lines@).len() == lines@.len());
    }
    if lines.len() == 0 {
        return Err(ParseError::MalformedHeader);
    }
    proof {
        assert(views_of(lines@)[0] == lines@[0]@);
    }
    let gain = match parse_preamp_gain(lines[0].as_slice()) {
        Ok(d) => d,
        Err(e) => {
            return Err(e);
        },
    };
    let mut filterset = CorrectionFilterSet::new(gain);
    let rest = vstd::slice::slice_subrange(lines.as_slice(), 1, lines.len());
    proof {
        assert(views_of(rest@) =~= text_lines(text@).skip(1));
        assert forall|i: int| 0 <= i < rest@.len() implies views_of(rest@)[i]
            == #[trigger] rest@[i]@ by {}
    }
    match parse_filters(rest, &mut filterset) {
        Ok(()) => {
            proof {
                let bl = nonempty_lines(views_of(rest@));
                assert forall|k: int| 0 <= k < bl.len() implies band_parse_post(
                    bl[k],
                    #[trigger] filterset.eq_bands@[k],
                ) by {
                    assert(filterset.eq_bands@[0 + k] == filterset.eq_bands@[k]);
                }
                assert forall|k: int|
                    0 <= k < filterset.eq_bands@.len() implies crate::configcreation::biquad_wf(
                    #[trigger] filterset.eq_bands@[k],
                ) by {
                    assert(band_parse_post(bl[k], filterset.eq_bands@[k]));
                }
            }
            Ok(filterset)
        },
        Err(e) => {
            proof {
                match e {
                    ParseError::MalformedBandLine { line } => {
                        let ls = text_lines(text@);
                        assert(views_of(rest@)[line - 2] == ls[line - 1]);
                        assert forall|i: int|
                            1 <= i < line - 1 && (#[trigger] ls[i]).len() > 0 implies band_line_ok(
                            ls[i],
                        ) by {
                            assert(views_of(rest@)[i - 1] == ls[i]);
                        }
                    },
                    _ => {},
                }
            }
            Err(e)
        },
    }
}


/// Header parsing is a round trip and a function of the line alone: any
/// value satisfying the parse contract prints back as the header's own
/// gain token, so two such values have the same sign and digits.
pub proof fn lemma_header_gain_deterministic(line: Seq<u8>, d1: Decimal, d2: Decimal)
    requires
        header_ok(line),
        d1.wf(),
        d2.wf(),
        d1.to_bytes() == header_gain(line),
        d2.to_bytes() == header_gain(line),
    ensures
        crate::decimal::dec_equiv(d1, d2),
{
    crate::decimal::lemma_decimal_render_parse(d1.negative, d1.int_digits@, d1.frac_digits@);
    crate::decimal::lemma_decimal_render_parse(d2.negative, d2.int_digits@, d2.frac_digits@);
}

} // verus!
