//! Byte-level text utilities shared by the parser, the resolver and the
//! emitter.  All text handled by this crate is ASCII by construction, so
//! every operation is defined directly on byte sequences.
use vstd::prelude::*;

verus! {

/// An ASCII decimal digit.
pub open spec fn is_digit(b: u8) -> bool {
    48 <= b <= 57
}

/// ASCII whitespace: space, tab, line feed, carriage return.
pub open spec fn is_ws(b: u8) -> bool {
    b == 32 || b == 9 || b == 10 || b == 13
}

/// Lower-cases one ASCII byte; other bytes are unchanged.
pub open spec fn lower_byte(b: u8) -> u8 {
    if 65 <= b <= 90 {
        (b + 32) as u8
    } else {
        b
    }
}

/// Lower-cases a byte sequence (ASCII case folding).
pub open spec fn lower_seq(s: Seq<u8>) -> Seq<u8> {
    s.map_values(|b: u8| lower_byte(b))
}

/// Every byte of `s` is an ASCII digit.
pub open spec fn all_digits(s: Seq<u8>) -> bool {
    forall|i: int| 0 <= i < s.len() ==> is_digit(#[trigger] s[i])
}

/// Length of the longest digit-only prefix of `s`.
pub open spec fn digit_prefix_len(s: Seq<u8>) -> int
    decreases s.len(),
{
    if s.len() == 0 || !is_digit(s[0]) {
        0
    } else {
        1 + digit_prefix_len(s.drop_first())
    }
}

pub proof fn lemma_digit_prefix_len(s: Seq<u8>)
    ensures
        0 <= digit_prefix_len(s) <= s.len(),
        all_digits(s.take(digit_prefix_len(s))),
        digit_prefix_len(s) < s.len() ==> !is_digit(s[digit_prefix_len(s)]),
        forall|i: int| 0 <= i < digit_prefix_len(s) ==> is_digit(#[trigger] s[i]),
    decreases s.len(),
{
    if s.len() == 0 || !is_digit(s[0]) {
    } else {
        lemma_digit_prefix_len(s.drop_first());
        let k = digit_prefix_len(s);
        assert forall|i: int| 0 <= i < k implies is_digit(#[trigger] s[i]) by {
            if i > 0 {
                assert(is_digit(s.drop_first()[i - 1]));
            }
        }
        if k < s.len() {
            assert(s[k] == s.drop_first()[k - 1]);
        }
        assert(all_digits(s.take(k)));
    }
}

/// A digit-only prefix that ends at a non-digit (or at the end) is exactly
/// the longest digit-only prefix.
pub proof fn lemma_digit_prefix_unique(s: Seq<u8>, k: int)
    requires
        0 <= k <= s.len(),
        all_digits(s.take(k)),
        k < s.len() ==> !is_digit(s[k]),
    ensures
        k == digit_prefix_len(s),
{
    lemma_digit_prefix_len(s);
    let d = digit_prefix_len(s);
    if k < d {
        assert(is_digit(s[k]));
    } else if d < k {
        assert(is_digit(s.take(k)[d]));
    }
}

/// Strict lexicographic order on byte sequences.
pub open spec fn lex_lt(a: Seq<u8>, b: Seq<u8>) -> bool
    decreases a.len(),
{
    if b.len() == 0 {
        false
    } else if a.len() == 0 {
        true
    } else if a[0] < b[0] {
        true
    } else if a[0] > b[0] {
        false
    } else {
        lex_lt(a.drop_first(), b.drop_first())
    }
}

/// `lex_lt` is irreflexive and total: of two distinct sequences one is
/// strictly below the other, and never both.
pub proof fn lemma_lex_lt_total(a: Seq<u8>, b: Seq<u8>)
    ensures
        a == b <==> !lex_lt(a, b) && !lex_lt(b, a),
        !(lex_lt(a, b) && lex_lt(b, a)),
    decreases a.len() + b.len(),
{
    if a.len() == 0 && b.len() == 0 {
        assert(a =~= b);
    } else if a.len() == 0 || b.len() == 0 {
    } else if a[0] != b[0] {
    } else {
        lemma_lex_lt_total(a.drop_first(), b.drop_first());
        if a.drop_first() == b.drop_first() {
            assert(a =~= b) by {
                assert forall|i: int| 0 <= i < a.len() implies a[i] == b[i] by {
                    if i > 0 {
                        assert(a[i] == a.drop_first()[i - 1]);
                        assert(b[i] == b.drop_first()[i - 1]);
                    }
                }
            }
        }
        if a == b {
            assert(a.drop_first() =~= b.drop_first());
        }
    }
}

/// `lex_lt` is transitive.
pub proof fn lemma_lex_lt_trans(a: Seq<u8>, b: Seq<u8>, c: Seq<u8>)
    requires
        lex_lt(a, b),
        lex_lt(b, c),
    ensures
        lex_lt(a, c),
    decreases a.len() + b.len() + c.len(),
{
    if b.len() == 0 || c.len() == 0 {
    } else if a.len() == 0 {
    } else {
        if a[0] == b[0] && b[0] == c[0] {
            lemma_lex_lt_trans(a.drop_first(), b.drop_first(), c.drop_first());
        }
    }
}

/// `t` occurs in `s` starting at position `i`.
pub open spec fn occurs_at(s: Seq<u8>, t: Seq<u8>, i: int) -> bool {
    0 <= i && i + t.len() <= s.len() && s.subrange(i, i + t.len() as int) == t
}

/// `t` occurs somewhere in `s` as a contiguous subsequence.
pub open spec fn contains_seq(s: Seq<u8>, t: Seq<u8>) -> bool {
    exists|i: int| occurs_at(s, t, i)
}

/// Executable equality of two byte slices.
pub fn bytes_eq(a: &[u8], b: &[u8]) -> (r: bool)
    ensures
        r == (a@ == b@),
{
    if a.len() != b.len() {
        proof {
            assert(a@.len() != b@.len());
        }
        return false;
    }
    let n: usize = a.len();
    let mut i: usize = 0;
    while i < n
        invariant
            0 <= i <= n,
            n == a@.len() && n == b@.len(),
            forall|j: int| 0 <= j < i ==> a@[j] == b@[j],
        decreases n - i,
    {
        if a[i] != b[i] {
            return false;
        }
        i += 1;
    }
    proof {
        assert(a@ =~= b@);
    }
    true
}

/// Executable strict lexicographic comparison.
pub fn lex_lt_exec(a: &[u8], b: &[u8]) -> (r: bool)
    ensures
        r == lex_lt(a@, b@),
{
    let an: usize = a.len();
    let bn: usize = b.len();
    let mut i: usize = 0;
    proof {
        assert(a@.skip(0) =~= a@);
        assert(b@.skip(0) =~= b@);
    }
    loop
        invariant
            0 <= i <= an && i <= bn,
            an == a@.len() && bn == b@.len(),
            lex_lt(a@, b@) == lex_lt(a@.skip(i as int), b@.skip(i as int)),
            forall|j: int| 0 <= j < i ==> a@[j] == b@[j],
        decreases an - i,
    {
        if i == bn {
            proof {
                assert(b@.skip(i as int).len() == 0);
            }
            return false;
        }
        if i == an {
            proof {
                assert(a@.skip(i as int).len() == 0);
                assert(b@.skip(i as int).len() > 0);
            }
            return true;
        }
        let x = a[i];
        let y = b[i];
        proof {
            assert(a@.skip(i as int)[0] == a@[i as int]);
            assert(b@.skip(i as int)[0] == b@[i as int]);
        }
        if x < y {
            return true;
        }
        if x > y {
            return false;
        }
        proof {
            assert(a@.skip(i as int).drop_first() =~= a@.skip(i + 1));
            assert(b@.skip(i as int).drop_first() =~= b@.skip(i + 1));
        }
        i += 1;
    }
}

/// Executable ASCII lower-casing of a byte slice.
pub fn lower_bytes(s: &[u8]) -> (r: Vec<u8>)
    ensures
        r@ == lower_seq(s@),
{
    let n: usize = s.len();
    let mut out: Vec<u8> = Vec::new();
    let mut i: usize = 0;
    while i < n
        invariant
            0 <= i <= n,
            n == s@.len(),
            out@.len() == i,
            forall|j: int| 0 <= j < i ==> out@[j] == lower_byte(s@[j]),
        decreases n - i,
    {
        let b = s[i];
        if 65 <= b && b <= 90 {
            out.push(b + 32);
        } else {
            out.push(b);
        }
        i += 1;
    }
    proof {
        assert(out@ =~= lower_seq(s@));
    }
    out
}

/// Index of the first non-whitespace byte of `s` (or `s.len()`).
pub open spec fn ws_prefix_len(s: Seq<u8>) -> int
    decreases s.len(),
{
    if s.len() == 0 || !is_ws(s[0]) {
        0
    } else {
        1 + ws_prefix_len(s.drop_first())
    }
}

pub proof fn lemma_ws_prefix_len(s: Seq<u8>)
    ensures
        0 <= ws_prefix_len(s) <= s.len(),
        forall|i: int| 0 <= i < ws_prefix_len(s) ==> is_ws(#[trigger] s[i]),
        ws_prefix_len(s) < s.len() ==> !is_ws(s[ws_prefix_len(s)]),
    decreases s.len(),
{
    if s.len() == 0 || !is_ws(s[0]) {
    } else {
        lemma_ws_prefix_len(s.drop_first());
        let k = ws_prefix_len(s);
        assert forall|i: int| 0 <= i < k implies is_ws(#[trigger] s[i]) by {
            if i > 0 {
                assert(is_ws(s.drop_first()[i - 1]));
            }
        }
        if k < s.len() {
            assert(s[k] == s.drop_first()[k - 1]);
        }
    }
}

/// The trimmed form of `s`: both whitespace ends removed.
pub open spec fn trim_seq(s: Seq<u8>) -> Seq<u8> {
    let a = ws_prefix_len(s);
    let b = ws_suffix_start(s);
    if a <= b {
        s.subrange(a, b)
    } else {
        Seq::empty()
    }
}

/// Index just past the last non-whitespace byte of `s` (or 0).
pub open spec fn ws_suffix_start(s: Seq<u8>) -> int
    decreases s.len(),
{
    if s.len() == 0 {
        0
    } else if !is_ws(s[s.len() - 1]) {
        s.len() as int
    } else {
        ws_suffix_start(s.drop_last())
    }
}

pub proof fn lemma_ws_suffix_start(s: Seq<u8>)
    ensures
        0 <= ws_suffix_start(s) <= s.len(),
        forall|i: int| ws_suffix_start(s) <= i < s.len() ==> is_ws(#[trigger] s[i]),
        ws_suffix_start(s) > 0 ==> !is_ws(s[ws_suffix_start(s) - 1]),
    decreases s.len(),
{
    if s.len() == 0 || !is_ws(s[s.len() - 1]) {
    } else {
        lemma_ws_suffix_start(s.drop_last());
        let k = ws_suffix_start(s);
        assert forall|i: int| k <= i < s.len() implies is_ws(#[trigger] s[i]) by {
            if i < s.len() - 1 {
                assert(is_ws(s.drop_last()[i]));
            }
        }
    }
}

/// Executable trim of leading and trailing ASCII whitespace.
pub fn trim_bytes(s: &[u8]) -> (r: Vec<u8>)
    ensures
        r@ == trim_seq(s@),
{
    let n: usize = s.len();
    let mut a: usize = 0;
    while a < n && byte_is_ws(s[a])
        invariant
            0 <= a <= n,
            n == s@.len(),
            forall|i: int| 0 <= i < a ==> is_ws(#[trigger] s@[i]),
        decreases n - a,
    {
        a += 1;
    }
    proof {
        lemma_ws_prefix_len(s@);
        assert(a as int == ws_prefix_len(s@)) by {
            let p = ws_prefix_len(s@);
            if (a as int) < p {
                assert(is_ws(s@[a as int]));
            }
            if p < a as int {
                assert(is_ws(s@[p]));
            }
        }
    }
    let mut b: usize = n;
    while b > a && byte_is_ws(s[b - 1])
        invariant
            a <= b <= n,
            n == s@.len(),
            a as int == ws_prefix_len(s@),
            forall|i: int| b <= i < n ==> is_ws(#[trigger] s@[i]),
        decreases b,
    {
        b -= 1;
    }
    proof {
        lemma_ws_suffix_start(s@);
        lemma_ws_prefix_len(s@);
        let q = ws_suffix_start(s@);
        if a < b {
            assert(b as int == q) by {
                if (b as int) < q {
                    assert(is_ws(s@[q - 1]));
                }
                if q < b as int {
                    assert(is_ws(s@[b - 1]));
                }
            }
        } else {
            // every byte is whitespace: the trimmed form is empty
            assert forall|i: int| 0 <= i < s@.len() implies is_ws(#[trigger] s@[i]) by {}
            assert(q <= a as int) by {
                if q > a as int {
                    assert(is_ws(s@[q - 1]));
                }
            }
        }
    }
    let mut out: Vec<u8> = Vec::new();
    let mut i: usize = a;
    while i < b
        invariant
            a <= i <= b <= n,
            n == s@.len(),
            out@.len() == i - a,
            forall|j: int| 0 <= j < out@.len() ==> out@[j] == s@[a + j],
        decreases b - i,
    {
        out.push(s[i]);
        i += 1;
    }
    proof {
        if a < b {
            assert(out@ =~= s@.subrange(a as int, b as int));
        } else {
            assert(out@ =~= Seq::<u8>::empty());
        }
    }
    out
}

/// Executable check for ASCII whitespace.
pub fn byte_is_ws(b: u8) -> (r: bool)
    ensures
        r == is_ws(b),
{
    b == 32 || b == 9 || b == 10 || b == 13
}

/// Executable check for an ASCII digit.
pub fn byte_is_digit(b: u8) -> (r: bool)
    ensures
        r == is_digit(b),
{
    48 <= b && b <= 57
}

/// Executable substring search: does `t` occur contiguously in `s`?
pub fn contains_bytes(s: &[u8], t: &[u8]) -> (r: bool)
    ensures
        r == contains_seq(s@, t@),
{
    let sn: usize = s.len();
    let tn: usize = t.len();
    if tn > sn {
        proof {
            assert forall|i: int| !occurs_at(s@, t@, i) by {}
        }
        return false;
    }
    if tn == 0 {
        proof {
            assert(s@.subrange(0, 0) =~= t@);
            assert(occurs_at(s@, t@, 0));
        }
        return true;
    }
    let mut i: usize = 0;
    while i <= sn - tn
        invariant
            0 <= i,
            1 <= tn <= sn,
            i <= sn - tn + 1,
            sn == s@.len() && tn == t@.len(),
            forall|j: int| 0 <= j < i ==> !occurs_at(s@, t@, j),
        decreases sn - i,
    {
        let sub = vstd::slice::slice_subrange(s, i, i + tn);
        if bytes_eq(sub, t) {
            proof {
                assert(occurs_at(s@, t@, i as int));
            }
            return true;
        }
        proof {
            assert(!occurs_at(s@, t@, i as int));
        }
        i += 1;
    }
    proof {
        assert forall|j: int| !occurs_at(s@, t@, j) by {
            if 0 <= j && j + t@.len() <= s@.len() {
                assert(j < i);
            }
        }
    }
    false
}


/// The decimal digits of `n`, most significant first, no leading zeros
/// (except for `n == 0`, which is the single digit `0`).
pub open spec fn dec_digits_of(n: nat) -> Seq<u8>
    decreases n,
{
    if n < 10 {
        seq![(48 + n) as u8]
    } else {
        dec_digits_of(n / 10).push((48 + n % 10) as u8)
    }
}

pub proof fn lemma_dec_digits_wf(n: nat)
    ensures
        dec_digits_of(n).len() >= 1,
        all_digits(dec_digits_of(n)),
        n >= 10 ==> dec_digits_of(n).len() >= 2,
    decreases n,
{
    if n < 10 {
    } else {
        lemma_dec_digits_wf(n / 10);
        let s = dec_digits_of(n);
        assert forall|i: int| 0 <= i < s.len() implies is_digit(#[trigger] s[i]) by {
            if i < s.len() - 1 {
                assert(s[i] == dec_digits_of(n / 10)[i]);
            }
        }
    }
}

/// Distinct numbers render as distinct digit strings.
pub proof fn lemma_dec_digits_injective(m: nat, n: nat)
    requires
        dec_digits_of(m) == dec_digits_of(n),
    ensures
        m == n,
    decreases m,
{
    lemma_dec_digits_wf(m);
    lemma_dec_digits_wf(n);
    if m < 10 && n < 10 {
        assert(dec_digits_of(m) == seq![(48 + m) as u8]);
        assert(dec_digits_of(n) == seq![(48 + n) as u8]);
        assert(seq![(48 + m) as u8][0] == (48 + m) as u8);
        assert(seq![(48 + n) as u8][0] == (48 + n) as u8);
        assert((48 + m) as u8 == (48 + n) as u8);
    } else if m < 10 || n < 10 {
        assert(dec_digits_of(m).len() == dec_digits_of(n).len());
    } else {
        let dm = dec_digits_of(m / 10);
        let dn = dec_digits_of(n / 10);
        assert(dec_digits_of(m).last() == (48 + m % 10) as u8);
        assert(dec_digits_of(n).last() == (48 + n % 10) as u8);
        assert(m % 10 < 10 && n % 10 < 10);
        assert(m % 10 == n % 10);
        assert(dm =~= dec_digits_of(m).drop_last());
        assert(dn =~= dec_digits_of(n).drop_last());
        lemma_dec_digits_injective(m / 10, n / 10);
        assert(m == 10 * (m / 10) + m % 10);
        assert(n == 10 * (n / 10) + n % 10);
    }
}

/// Executable decimal rendering of a `u64`.
pub fn u64_digits(n: u64) -> (r: Vec<u8>)
    ensures
        r@ == dec_digits_of(n as nat),
    decreases n,
{
    if n < 10 {
        let mut v: Vec<u8> = Vec::new();
        v.push(48 + n as u8);
        proof {
            assert(v@ =~= dec_digits_of(n as nat));
        }
        v
    } else {
        let mut v = u64_digits(n / 10);
        v.push(48 + (n % 10) as u8);
        proof {
            assert(v@ =~= dec_digits_of(n as nat));
        }
        v
    }
}

/// Copy of the byte range `[a, b)` of `s`.
pub fn sub_vec(s: &[u8], a: usize, b: usize) -> (r: Vec<u8>)
    requires
        a <= b <= s@.len(),
    ensures
        r@ == s@.subrange(a as int, b as int),
{
    let sl = vstd::slice::slice_subrange(s, a, b);
    vstd::slice::slice_to_vec(sl)
}

/// The views of a sequence of byte vectors.
pub open spec fn views_of(vs: Seq<Vec<u8>>) -> Seq<Seq<u8>> {
    vs.map_values(|v: Vec<u8>| v@)
}

pub proof fn lemma_views_of_push(vs: Seq<Vec<u8>>, v: Vec<u8>)
    ensures
        views_of(vs.push(v)) =~= views_of(vs).push(v@),
{
}

/// Exact split of `s` at every occurrence of `sep`: always at least one
/// piece, pieces contain no `sep`, empty pieces kept.
pub open spec fn split_seq(s: Seq<u8>, sep: u8) -> Seq<Seq<u8>>
    decreases s.len(),
{
    if s.len() == 0 {
        seq![Seq::empty()]
    } else if s[0] == sep {
        seq![Seq::empty()] + split_seq(s.drop_first(), sep)
    } else {
        let r = split_seq(s.drop_first(), sep);
        seq![seq![s[0]] + r[0]] + r.drop_first()
    }
}

pub proof fn lemma_split_seq_wf(s: Seq<u8>, sep: u8)
    ensures
        split_seq(s, sep).len() >= 1,
        forall|i: int, j: int|
            0 <= i < split_seq(s, sep).len() && 0 <= j < split_seq(s, sep)[i].len()
                ==> #[trigger] split_seq(s, sep)[i][j] != sep,
    decreases s.len(),
{
    if s.len() == 0 {
    } else if s[0] == sep {
        lemma_split_seq_wf(s.drop_first(), sep);
        let r = split_seq(s, sep);
        assert forall|i: int, j: int|
            0 <= i < r.len() && 0 <= j < r[i].len() implies #[trigger] r[i][j] != sep by {
            if i > 0 {
                assert(r[i] == split_seq(s.drop_first(), sep)[i - 1]);
            }
        }
    } else {
        lemma_split_seq_wf(s.drop_first(), sep);
        let t = split_seq(s.drop_first(), sep);
        let r = split_seq(s, sep);
        assert forall|i: int, j: int|
            0 <= i < r.len() && 0 <= j < r[i].len() implies #[trigger] r[i][j] != sep by {
            if i == 0 {
                if j > 0 {
                    assert(r[0][j] == t[0][j - 1]);
                }
            } else {
                assert(r[i] == t[i]);
            }
        }
    }
}

/// Unfolds `split_seq` one piece at a time: `k` is the index of the first
/// separator of `s` (or `s.len()` if none occurs).
pub proof fn lemma_split_seq_step(s: Seq<u8>, sep: u8, k: int)
    requires
        0 <= k <= s.len(),
        forall|i: int| 0 <= i < k ==> s[i] != sep,
        k < s.len() ==> s[k] == sep,
    ensures
        k == s.len() ==> split_seq(s, sep) =~= seq![s],
        k < s.len() ==> split_seq(s, sep) =~= seq![s.take(k)] + split_seq(
            s.skip(k + 1),
            sep,
        ),
    decreases k,
{
    lemma_split_seq_wf(s, sep);
    if k == 0 {
        if s.len() == 0 {
            assert(s =~= Seq::<u8>::empty());
            assert(split_seq(s, sep) =~= seq![s]);
        } else {
            assert(s[0] == sep);
            assert(s.drop_first() =~= s.skip(1));
            assert(s.take(0) =~= Seq::<u8>::empty());
        }
    } else {
        let t = s.drop_first();
        lemma_split_seq_step(t, sep, k - 1);
        lemma_split_seq_wf(t, sep);
        let r = split_seq(t, sep);
        assert(s.len() > 0);
        assert(s[0] != sep);
        assert(split_seq(s, sep) == seq![seq![s[0]] + r[0]] + r.drop_first());
        if k == s.len() {
            assert(forall|i: int| 0 <= i < t.len() ==> t[i] != sep);
            assert(r =~= seq![t]);
            assert(r[0] == t);
            assert(r.drop_first() =~= Seq::<Seq<u8>>::empty());
            assert(seq![s[0]] + r[0] =~= s);
            assert(split_seq(s, sep).len() == 1);
            assert(split_seq(s, sep)[0] == seq![s[0]] + r[0]);
            assert(seq![s][0] == s);
            assert(seq![s].len() == 1);
            assert forall|i: int| 0 <= i < 1 implies split_seq(s, sep)[i] == seq![s][i] by {
                assert(split_seq(s, sep)[0] == seq![s[0]] + r[0]);
            }
            assert(split_seq(s, sep) =~= seq![s]);
        } else {
            assert(t.skip(k) =~= s.skip(k + 1));
            assert(r =~= seq![t.take(k - 1)] + split_seq(s.skip(k + 1), sep));
            assert(seq![s[0]] + r[0] =~= s.take(k));
            assert(split_seq(s, sep) =~= seq![s.take(k)] + split_seq(s.skip(k + 1), sep));
        }
    }
}

/// Executable exact split of a byte slice at every `sep`.
pub fn split_on(s: &[u8], sep: u8) -> (r: Vec<Vec<u8>>)
    ensures
        views_of(r@) == split_seq(s@, sep),
{
    let n: usize = s.len();
    let mut tokens: Vec<Vec<u8>> = Vec::new();
    let mut start: usize = 0;
    let mut i: usize = 0;
    proof {
        assert(s@.skip(0) =~= s@);
        assert(views_of(tokens@) =~= Seq::<Seq<u8>>::empty());
    }
    while i < n
        invariant
            0 <= start <= i <= n,
            n == s@.len(),
            split_seq(s@, sep) == views_of(tokens@) + split_seq(s@.skip(start as int), sep),
            forall|j: int| start <= j < i ==> s@[j] != sep,
        decreases n - i,
    {
        if s[i] == sep {
            let tok = sub_vec(s, start, i);
            proof {
                let rest = s@.skip(start as int);
                assert forall|j: int| 0 <= j < i - start implies rest[j] != sep by {
                    assert(rest[j] == s@[start + j]);
                }
                assert(rest[i - start] == s@[i as int]);
                lemma_split_seq_step(rest, sep, i - start);
                assert(rest.take(i - start) =~= s@.subrange(start as int, i as int));
                assert(rest.skip(i - start + 1) =~= s@.skip(i + 1));
                lemma_views_of_push(tokens@, tok);
                assert(views_of(tokens@.push(tok)) + split_seq(s@.skip(i + 1), sep)
                    =~= views_of(tokens@) + split_seq(s@.skip(start as int), sep));
            }
            tokens.push(tok);
            start = i + 1;
        }
        i += 1;
    }
    let tok = sub_vec(s, start, n);
    proof {
        let rest = s@.skip(start as int);
        assert forall|j: int| 0 <= j < rest.len() implies rest[j] != sep by {
            assert(rest[j] == s@[start + j]);
        }
        lemma_split_seq_step(rest, sep, rest.len() as int);
        assert(rest =~= s@.subrange(start as int, n as int));
        lemma_views_of_push(tokens@, tok);
        assert(views_of(tokens@.push(tok)) =~= views_of(tokens@) + split_seq(
            s@.skip(start as int),
            sep,
        ));
    }
    tokens.push(tok);
    tokens
}


/// The whitespace-separated tokens of `s`, in order: maximal runs of
/// non-whitespace bytes; separators are dropped, tokens are never empty.
pub open spec fn ws_tokens(s: Seq<u8>) -> Seq<Seq<u8>>
    decreases s.len(),
{
    if s.len() == 0 {
        Seq::empty()
    } else if is_ws(s[0]) {
        ws_tokens(s.drop_first())
    } else if s.len() == 1 || is_ws(s[1]) {
        seq![seq![s[0]]] + ws_tokens(s.drop_first())
    } else {
        let r = ws_tokens(s.drop_first());
        seq![seq![s[0]] + r[0]] + r.drop_first()
    }
}

pub proof fn lemma_ws_tokens_wf(s: Seq<u8>)
    ensures
        forall|i: int|
            0 <= i < ws_tokens(s).len() ==> (#[trigger] ws_tokens(s)[i]).len() > 0,
        forall|i: int, j: int|
            0 <= i < ws_tokens(s).len() && 0 <= j < ws_tokens(s)[i].len()
                ==> !is_ws(#[trigger] ws_tokens(s)[i][j]),
    decreases s.len(),
{
    if s.len() == 0 {
    } else if is_ws(s[0]) {
        lemma_ws_tokens_wf(s.drop_first());
    } else if s.len() == 1 || is_ws(s[1]) {
        lemma_ws_tokens_wf(s.drop_first());
        let w = ws_tokens(s);
        let t = ws_tokens(s.drop_first());
        assert(w[0] == seq![s[0]]);
        assert(seq![s[0]][0] == s[0]);
        assert forall|i: int| 0 <= i < w.len() implies (#[trigger] w[i]).len() > 0 by {
            if i > 0 {
                assert(w[i] == t[i - 1]);
            }
        }
        assert forall|i: int, j: int|
            0 <= i < w.len() && 0 <= j < w[i].len() implies !is_ws(#[trigger] w[i][j]) by {
            if i > 0 {
                assert(w[i] == t[i - 1]);
            }
        }
    } else {
        lemma_ws_tokens_wf(s.drop_first());
        let w = ws_tokens(s);
        let t = ws_tokens(s.drop_first());
        // the tail starts with a non-whitespace byte, so it has a first token
        assert(t.len() > 0) by {
            lemma_ws_tokens_nonempty(s.drop_first());
        }
        assert(w[0] == seq![s[0]] + t[0]);
        assert forall|i: int| 0 <= i < w.len() implies (#[trigger] w[i]).len() > 0 by {
            if i > 0 {
                assert(w[i] == t[i]);
            }
        }
        assert forall|i: int, j: int|
            0 <= i < w.len() && 0 <= j < w[i].len() implies !is_ws(#[trigger] w[i][j]) by {
            if i > 0 {
                assert(w[i] == t[i]);
            } else {
                if j > 0 {
                    assert(w[0][j] == t[0][j - 1]);
                } else {
                    assert(w[0][0] == s[0]);
                }
            }
        }
    }
}

/// A sequence that starts with a non-whitespace byte has at least one token.
pub proof fn lemma_ws_tokens_nonempty(s: Seq<u8>)
    requires
        s.len() > 0,
        !is_ws(s[0]),
    ensures
        ws_tokens(s).len() > 0,
    decreases s.len(),
{
}

/// Unfolds `ws_tokens` one token at a time: `s` starts with a token of
/// length `k` (ended by whitespace or the end of `s`).
pub proof fn lemma_ws_tokens_step(s: Seq<u8>, k: int)
    requires
        0 < k <= s.len(),
        forall|i: int| 0 <= i < k ==> !is_ws(#[trigger] s[i]),
        k < s.len() ==> is_ws(s[k]),
    ensures
        ws_tokens(s) =~= seq![s.take(k)] + ws_tokens(s.skip(k)),
    decreases k,
{
    if k == 1 {
        if s.len() == 1 || is_ws(s[1]) {
            assert(s.drop_first() =~= s.skip(1));
            assert(seq![s[0]] =~= s.take(1));
            assert(ws_tokens(s) == seq![seq![s[0]]] + ws_tokens(s.drop_first()));
            assert(ws_tokens(s) =~= seq![s.take(1)] + ws_tokens(s.skip(1)));
        } else {
            // k == 1 forces s[1] to be whitespace or the end
            assert(is_ws(s[1]));
        }
    } else {
        assert(!is_ws(s[1]));
        let t = s.drop_first();
        lemma_ws_tokens_step(t, k - 1);
        let r = ws_tokens(t);
        assert(r.len() > 0) by {
            lemma_ws_tokens_nonempty(t);
        }
        assert(ws_tokens(s) == seq![seq![s[0]] + r[0]] + r.drop_first());
        assert(r[0] == (seq![t.take(k - 1)] + ws_tokens(t.skip(k - 1)))[0]);
        assert(seq![t.take(k - 1)][0] == t.take(k - 1));
        assert(r[0] == t.take(k - 1));
        assert(seq![s[0]] + t.take(k - 1) =~= s.take(k));
        assert(t.skip(k - 1) =~= s.skip(k));
        assert(r.drop_first() =~= ws_tokens(s.skip(k))) by {
            assert(r =~= seq![t.take(k - 1)] + ws_tokens(t.skip(k - 1)));
            assert forall|i: int| 0 <= i < r.len() - 1 implies r.drop_first()[i] == ws_tokens(
                s.skip(k),
            )[i] by {
                assert(r[i + 1] == (seq![t.take(k - 1)] + ws_tokens(t.skip(k - 1)))[i + 1]);
            }
        }
        assert(ws_tokens(s) =~= seq![s.take(k)] + ws_tokens(s.skip(k)));
    }
}

/// Executable whitespace tokenizer.
pub fn split_ws(s: &[u8]) -> (r: Vec<Vec<u8>>)
    ensures
        views_of(r@) == ws_tokens(s@),
{
    let n: usize = s.len();
    let mut tokens: Vec<Vec<u8>> = Vec::new();
    let mut i: usize = 0;
    proof {
        assert(s@.skip(0) =~= s@);
        assert(views_of(tokens@) =~= Seq::<Seq<u8>>::empty());
    }
    while i < n
        invariant
            0 <= i <= n,
            n == s@.len(),
            ws_tokens(s@) == views_of(tokens@) + ws_tokens(s@.skip(i as int)),
        decreases n - i,
    {
        if byte_is_ws(s[i]) {
            proof {
                let rest = s@.skip(i as int);
                assert(rest[0] == s@[i as int]);
                assert(rest.drop_first() =~= s@.skip(i + 1));
            }
            i += 1;
        } else {
            let start = i;
            let mut j: usize = i;
            while j < n && !byte_is_ws(s[j])
                invariant
                    start <= j <= n,
                    n == s@.len(),
                    forall|q: int| start <= q < j ==> !is_ws(#[trigger] s@[q]),
                decreases n - j,
            {
                j += 1;
            }
            let tok = sub_vec(s, start, j);
            proof {
                let rest = s@.skip(start as int);
                assert forall|q: int| 0 <= q < j - start implies !is_ws(#[trigger] rest[q]) by {
                    assert(rest[q] == s@[start + q]);
                }
                if (j as int) < n as int {
                    assert(rest[j - start] == s@[j as int]);
                }
                lemma_ws_tokens_step(rest, j - start);
                assert(rest.take(j - start) =~= s@.subrange(start as int, j as int));
                assert(rest.skip(j - start) =~= s@.skip(j as int));
                lemma_views_of_push(tokens@, tok);
                assert(views_of(tokens@.push(tok)) + ws_tokens(s@.skip(j as int))
                    =~= views_of(tokens@) + ws_tokens(s@.skip(start as int)));
            }
            tokens.push(tok);
            i = j;
        }
    }
    proof {
        assert(s@.skip(n as int) =~= Seq::<u8>::empty());
        assert(views_of(tokens@) + ws_tokens(Seq::<u8>::empty()) =~= views_of(tokens@));
    }
    tokens
}

/// A line with a trailing carriage return has it removed.
pub open spec fn drop_cr(l: Seq<u8>) -> Seq<u8> {
    if l.len() > 0 && l[l.len() - 1] == 13 {
        l.drop_last()
    } else {
        l
    }
}

/// The lines of a text: split at every line feed, a final empty piece
/// (from a trailing newline) dropped, and a trailing carriage return
/// removed from each line.
pub open spec fn text_lines(s: Seq<u8>) -> Seq<Seq<u8>> {
    let raw = split_seq(s, 10);
    let kept = if raw.last().len() == 0 {
        raw.drop_last()
    } else {
        raw
    };
    kept.map_values(|l: Seq<u8>| drop_cr(l))
}

/// Executable line splitting.
pub fn lines_of(s: &[u8]) -> (r: Vec<Vec<u8>>)
    ensures
        views_of(r@) == text_lines(s@),
{
    let mut raw = split_on(s, 10);
    proof {
        lemma_split_seq_wf(s@, 10);
        assert(views_of(raw@).len() == raw@.len());
    }
    let last_empty = raw[raw.len() - 1].len() == 0;
    let ghost raw0 = views_of(raw@);
    if last_empty {
        raw.pop();
        proof {
            assert(views_of(raw@) =~= raw0.drop_last());
        }
    }
    let ghost kept = views_of(raw@);
    let mut out: Vec<Vec<u8>> = Vec::new();
    let m: usize = raw.len();
    let mut i: usize = 0;
    while i < m
        invariant
            0 <= i <= m,
            m == raw@.len(),
            kept == views_of(raw@),
            out@.len() == i,
            forall|q: int| 0 <= q < i ==> #[trigger] out@[q]@ == drop_cr(kept[q]),
        decreases m - i,
    {
        let line = &raw[i];
        let ln: usize = line.len();
        if ln > 0 && line[ln - 1] == 13 {
            let v = sub_vec(line.as_slice(), 0, ln - 1);
            proof {
                assert(v@ =~= drop_cr(kept[i as int]));
            }
            out.push(v);
        } else {
            let v = sub_vec(line.as_slice(), 0, ln);
            proof {
                assert(v@ =~= kept[i as int]);
                assert(v@ =~= drop_cr(kept[i as int]));
            }
            out.push(v);
        }
        i += 1;
    }
    proof {
        assert(views_of(out@) =~= kept.map_values(|l: Seq<u8>| drop_cr(l)));
        if raw0.last().len() == 0 {
            assert(views_of(out@) =~= text_lines(s@));
        } else {
            assert(views_of(out@) =~= text_lines(s@));
        }
    }
    out
}


/// A byte allowed in a mixer or filter name: ASCII letters, digits and
/// underscore.  Keeps names safe to print unquoted as document keys.
pub open spec fn is_name_byte(b: u8) -> bool {
    (48 <= b <= 57) || (65 <= b <= 90) || (97 <= b <= 122) || b == 95
}

/// A printable name: nonempty, name bytes only.
pub open spec fn plain_name(s: Seq<u8>) -> bool {
    s.len() > 0 && forall|i: int| 0 <= i < s.len() ==> is_name_byte(#[trigger] s[i])
}


/// Length of the longest prefix of `s` free of the byte `b`.
pub open spec fn until_byte_len(s: Seq<u8>, b: u8) -> int
    decreases s.len(),
{
    if s.len() == 0 || s[0] == b {
        0
    } else {
        1 + until_byte_len(s.drop_first(), b)
    }
}

pub proof fn lemma_until_byte_len(s: Seq<u8>, b: u8)
    ensures
        0 <= until_byte_len(s, b) <= s.len(),
        forall|i: int| 0 <= i < until_byte_len(s, b) ==> s[i] != b,
        until_byte_len(s, b) < s.len() ==> s[until_byte_len(s, b)] == b,
    decreases s.len(),
{
    if s.len() == 0 || s[0] == b {
    } else {
        lemma_until_byte_len(s.drop_first(), b);
        let k = until_byte_len(s, b);
        assert forall|i: int| 0 <= i < k implies s[i] != b by {
            if i > 0 {
                assert(s.drop_first()[i - 1] != b);
            }
        }
        if k < s.len() {
            assert(s[k] == s.drop_first()[k - 1]);
        }
    }
}

/// A prefix free of `b` that ends at `b` (or at the end) is exactly the
/// longest such prefix.
pub proof fn lemma_until_byte_unique(s: Seq<u8>, b: u8, k: int)
    requires
        0 <= k <= s.len(),
        forall|i: int| 0 <= i < k ==> s[i] != b,
        k < s.len() ==> s[k] == b,
    ensures
        k == until_byte_len(s, b),
{
    lemma_until_byte_len(s, b);
    let d = until_byte_len(s, b);
    if k < d {
        assert(s[k] != b);
    } else if d < k {
        assert(s[d] != b);
    }
}


/// A split has at most one piece per byte plus one.
pub proof fn lemma_split_seq_len(s: Seq<u8>, sep: u8)
    ensures
        split_seq(s, sep).len() <= s.len() + 1,
    decreases s.len(),
{
    if s.len() == 0 {
    } else if s[0] == sep {
        lemma_split_seq_len(s.drop_first(), sep);
    } else {
        lemma_split_seq_len(s.drop_first(), sep);
        lemma_split_seq_wf(s.drop_first(), sep);
    }
}


/// `s` with every occurrence of `pat` replaced by `rep`, scanning left
/// to right without re-examining replaced text.
pub open spec fn replace_seq(s: Seq<u8>, pat: Seq<u8>, rep: Seq<u8>) -> Seq<u8>
    decreases s.len(),
{
    if pat.len() == 0 || s.len() < pat.len() {
        s
    } else if s.take(pat.len() as int) == pat {
        rep + replace_seq(s.skip(pat.len() as int), pat, rep)
    } else {
        seq![s[0]] + replace_seq(s.drop_first(), pat, rep)
    }
}

/// Executable replacement.
pub fn replace_bytes(s: &[u8], pat: &[u8], rep: &[u8]) -> (r: Vec<u8>)
    ensures
        r@ == replace_seq(s@, pat@, rep@),
{
    let n: usize = s.len();
    let m: usize = pat.len();
    if m == 0 {
        return sub_vec(s, 0, n);
    }
    let mut out: Vec<u8> = Vec::new();
    let mut i: usize = 0;
    proof {
        assert(s@.skip(0) =~= s@);
        assert(out@ + replace_seq(s@.skip(0), pat@, rep@) =~= replace_seq(s@, pat@, rep@));
    }
    #[verifier::loop_isolation(false)]
    while i < n
        invariant
            0 <= i <= n,
            replace_seq(s@, pat@, rep@) == out@ + replace_seq(s@.skip(i as int), pat@, rep@),
        decreases n - i,
    {
        let rest_len: usize = n - i;
        if rest_len >= m && bytes_eq(vstd::slice::slice_subrange(s, i, i + m), pat) {
            let ghost o = out@;
            out.extend_from_slice(rep);
            proof {
                assert(out@ =~= o + rep@);
                assert(s@.skip(i as int).take(m as int) =~= s@.subrange(i as int, i + m));
                assert(s@.skip(i as int).skip(m as int) =~= s@.skip(i + m));
                assert(replace_seq(s@.skip(i as int), pat@, rep@) == rep@ + replace_seq(
                    s@.skip(i + m),
                    pat@,
                    rep@,
                ));
                assert(out@ + replace_seq(s@.skip(i + m), pat@, rep@) =~= o + replace_seq(
                    s@.skip(i as int),
                    pat@,
                    rep@,
                ));
            }
            i += m;
        } else {
            let ghost o = out@;
            out.push(s[i]);
            proof {
                assert(out@ =~= o + seq![s@[i as int]]);
                let rest = s@.skip(i as int);
                if rest.len() >= m {
                    assert(rest.take(m as int) =~= s@.subrange(i as int, i + m));
                    assert(rest.take(m as int) != pat@);
                }
                assert(rest[0] == s@[i as int]);
                assert(rest.drop_first() =~= s@.skip(i + 1));
                assert(replace_seq(rest, pat@, rep@) == seq![s@[i as int]] + replace_seq(
                    s@.skip(i + 1),
                    pat@,
                    rep@,
                ));
                assert(out@ + replace_seq(s@.skip(i + 1), pat@, rep@) =~= o + replace_seq(
                    rest,
                    pat@,
                    rep@,
                ));
            }
            i += 1;
        }
    }
    proof {
        assert(s@.skip(n as int) =~= Seq::<u8>::empty());
        assert(replace_seq(Seq::<u8>::empty(), pat@, rep@) == Seq::<u8>::empty());
        assert(out@ =~= out@ + Seq::<u8>::empty());
    }
    out
}

/// Index where the final path segment of `s` starts: just after the
/// last slash, or 0 if there is none.
pub open spec fn seg_start(s: Seq<u8>) -> int
    decreases s.len(),
{
    if s.len() == 0 {
        0
    } else if s[s.len() - 1] == 47 {
        s.len() as int
    } else {
        seg_start(s.drop_last())
    }
}

pub proof fn lemma_seg_start(s: Seq<u8>)
    ensures
        0 <= seg_start(s) <= s.len(),
        forall|i: int| seg_start(s) <= i < s.len() ==> s[i] != 47,
        seg_start(s) > 0 ==> s[seg_start(s) - 1] == 47,
    decreases s.len(),
{
    if s.len() == 0 || s[s.len() - 1] == 47 {
    } else {
        lemma_seg_start(s.drop_last());
        let k = seg_start(s);
        assert forall|i: int| k <= i < s.len() implies s[i] != 47 by {
            if i < s.len() - 1 {
                assert(s.drop_last()[i] != 47);
            }
        }
        if k > 0 {
            assert(s[k - 1] == s.drop_last()[k - 1]);
        }
    }
}

/// The final path segment of `s` (everything after the last slash).
pub fn last_segment(s: &[u8]) -> (r: Vec<u8>)
    ensures
        r@ == s@.skip(seg_start(s@)),
{
    let n: usize = s.len();
    let mut k: usize = n;
    while k > 0 && s[k - 1] != 47
        invariant
            0 <= k <= n,
            n == s@.len(),
            forall|i: int| k <= i < n ==> s@[i] != 47,
        decreases k,
    {
        k -= 1;
    }
    proof {
        lemma_seg_start(s@);
        assert(k as int == seg_start(s@)) by {
            let g = seg_start(s@);
            if (k as int) < g {
                assert(s@[g - 1] != 47);
            }
            if g < k as int {
                assert(s@[k - 1] == 47);
                assert(s@[k - 1] != 47);
            }
        }
    }
    sub_vec(s, k, n)
}


/// Splitting distributes over concatenation when the left part ends
/// with the separator: the left part's final empty piece disappears
/// into the right part's first piece.
pub proof fn lemma_split_concat(a: Seq<u8>, b: Seq<u8>, sep: u8)
    requires
        a.len() > 0,
        a.last() == sep,
    ensures
        split_seq(a + b, sep) =~= split_seq(a, sep).drop_last() + split_seq(b, sep),
    decreases a.len(),
{
    lemma_split_seq_wf(a, sep);
    lemma_split_seq_wf(b, sep);
    let w = a + b;
    if a.len() == 1 {
        assert(w[0] == sep);
        assert(w.drop_first() =~= b);
        assert(split_seq(w, sep) == seq![Seq::<u8>::empty()] + split_seq(w.drop_first(), sep));
        assert(a.drop_first() =~= Seq::<u8>::empty());
        assert(split_seq(a, sep) == seq![Seq::<u8>::empty()] + split_seq(a.drop_first(), sep));
        assert(split_seq(a, sep).drop_last() =~= seq![Seq::<u8>::empty()]);
        assert(split_seq(w, sep) =~= split_seq(a, sep).drop_last() + split_seq(b, sep));
    } else {
        let t = a.drop_first();
        assert(t.len() > 0 && t.last() == sep);
        lemma_split_concat(t, b, sep);
        lemma_split_seq_wf(t, sep);
        assert(w.drop_first() =~= t + b);
        if a[0] == sep {
            assert(w[0] == sep);
            assert(split_seq(w, sep) == seq![Seq::<u8>::empty()] + split_seq(t + b, sep));
            assert(split_seq(a, sep) == seq![Seq::<u8>::empty()] + split_seq(t, sep));
            assert(split_seq(a, sep).drop_last() =~= seq![Seq::<u8>::empty()] + split_seq(
                t,
                sep,
            ).drop_last());
            assert(split_seq(w, sep) =~= split_seq(a, sep).drop_last() + split_seq(b, sep));
        } else {
            assert(w[0] == a[0]);
            let rw = split_seq(t + b, sep);
            let ra = split_seq(t, sep);
            assert(split_seq(w, sep) == seq![seq![a[0]] + rw[0]] + rw.drop_first());
            assert(split_seq(a, sep) == seq![seq![a[0]] + ra[0]] + ra.drop_first());
            assert(rw =~= ra.drop_last() + split_seq(b, sep));
            assert(ra.len() >= 2) by {
                // a tail ending with the separator splits into at least
                // two pieces
                assert(t.last() == sep);
                lemma_split_last_empty(t, sep);
            }
            assert(rw[0] == ra[0]);
            assert(split_seq(a, sep).drop_last() =~= seq![seq![a[0]] + ra[0]]
                + ra.drop_first().drop_last());
            assert forall|i: int|
                0 <= i < split_seq(w, sep).len() implies split_seq(w, sep)[i] == (split_seq(
                a,
                sep,
            ).drop_last() + split_seq(b, sep))[i] by {
                if i > 0 {
                    assert(split_seq(w, sep)[i] == rw[i]);
                    if i < ra.len() - 1 {
                        assert(rw[i] == ra.drop_last()[i]);
                    } else {
                        assert(rw[i] == split_seq(b, sep)[i - (ra.len() - 1)]);
                    }
                }
            }
            assert(split_seq(w, sep) =~= split_seq(a, sep).drop_last() + split_seq(b, sep));
        }
    }
}

/// A sequence ending with the separator splits into at least two
/// pieces, the last of which is empty.
pub proof fn lemma_split_last_empty(s: Seq<u8>, sep: u8)
    requires
        s.len() > 0,
        s.last() == sep,
    ensures
        split_seq(s, sep).len() >= 2,
        split_seq(s, sep).last().len() == 0,
    decreases s.len(),
{
    lemma_split_seq_wf(s, sep);
    if s.len() == 1 {
        assert(s[0] == sep);
        assert(s.drop_first() =~= Seq::<u8>::empty());
        assert(split_seq(s, sep) == seq![Seq::<u8>::empty()] + split_seq(s.drop_first(), sep));
    } else {
        let t = s.drop_first();
        assert(t.last() == sep);
        lemma_split_last_empty(t, sep);
        if s[0] == sep {
            assert(split_seq(s, sep) == seq![Seq::<u8>::empty()] + split_seq(t, sep));
            assert(split_seq(s, sep).last() == split_seq(t, sep).last());
        } else {
            let r = split_seq(t, sep);
            assert(split_seq(s, sep) == seq![seq![s[0]] + r[0]] + r.drop_first());
            assert(split_seq(s, sep).last() == r.last());
        }
    }
}

/// When no byte of `s` is `b`, no split piece holds `b` either.
pub proof fn lemma_split_free_of(s: Seq<u8>, sep: u8, b: u8)
    requires
        forall|i: int| 0 <= i < s.len() ==> s[i] != b,
    ensures
        forall|i: int, j: int|
            0 <= i < split_seq(s, sep).len() && 0 <= j < split_seq(s, sep)[i].len()
                ==> #[trigger] split_seq(s, sep)[i][j] != b,
    decreases s.len(),
{
    if s.len() == 0 {
    } else {
        let t = s.drop_first();
        assert forall|i: int| 0 <= i < t.len() implies t[i] != b by {
            assert(t[i] == s[i + 1]);
        }
        lemma_split_free_of(t, sep, b);
        let r = split_seq(s, sep);
        if s[0] == sep {
            assert forall|i: int, j: int|
                0 <= i < r.len() && 0 <= j < r[i].len() implies #[trigger] r[i][j] != b by {
                if i > 0 {
                    assert(r[i] == split_seq(t, sep)[i - 1]);
                }
            }
        } else {
            let rt = split_seq(t, sep);
            assert forall|i: int, j: int|
                0 <= i < r.len() && 0 <= j < r[i].len() implies #[trigger] r[i][j] != b by {
                if i == 0 {
                    if j > 0 {
                        assert(r[0][j] == rt[0][j - 1]);
                    } else {
                        assert(r[0][0] == s[0]);
                    }
                } else {
                    assert(r[i] == rt[i]);
                }
            }
        }
    }
}

/// The lines of a concatenation whose left part ends with a line feed
/// are the two parts' lines in order.
pub proof fn lemma_text_lines_concat(a: Seq<u8>, b: Seq<u8>)
    requires
        a.len() > 0,
        a.last() == 10,
    ensures
        text_lines(a + b) =~= text_lines(a) + text_lines(b),
{
    lemma_split_concat(a, b, 10);
    lemma_split_last_empty(a, 10);
    lemma_split_seq_wf(b, 10);
    let ra = split_seq(a, 10);
    let rb = split_seq(b, 10);
    let rw = split_seq(a + b, 10);
    assert(rw =~= ra.drop_last() + rb);
    assert(rw.last() == rb.last());
    let kept_a = ra.drop_last();
    let kept_b = if rb.last().len() == 0 {
        rb.drop_last()
    } else {
        rb
    };
    let kept_w = if rw.last().len() == 0 {
        rw.drop_last()
    } else {
        rw
    };
    assert(kept_w =~= kept_a + kept_b);
    assert(text_lines(a) =~= kept_a.map_values(|l: Seq<u8>| drop_cr(l)));
    assert(text_lines(a + b) =~= kept_w.map_values(|l: Seq<u8>| drop_cr(l)));
    assert(text_lines(b) =~= kept_b.map_values(|l: Seq<u8>| drop_cr(l)));
    assert forall|i: int| 0 <= i < kept_w.len() implies text_lines(a + b)[i] == (text_lines(a)
        + text_lines(b))[i] by {
        if i < kept_a.len() {
            assert(kept_w[i] == kept_a[i]);
        } else {
            assert(kept_w[i] == kept_b[i - kept_a.len()]);
        }
    }
    assert(text_lines(a + b) =~= text_lines(a) + text_lines(b));
}

} // verus!
