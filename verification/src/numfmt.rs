//! Verified decimal formatting and parsing for the integer widths the
//! codec carries, and a transcription of the exact grammar std's float
//! parser accepts, which the codec's string-disambiguation rule depends on.

use vstd::prelude::*;

verus! {

use vstd::string::StringSliceAdditionalSpecFns;

pub open spec fn is_digit(c: u8) -> bool {
    48 <= c && c <= 57
}

pub open spec fn all_digits(s: Seq<u8>) -> bool {
    forall|i: int| 0 <= i < s.len() ==> is_digit(#[trigger] s[i])
}

/// The decimal digits of a non-negative integer.
pub open spec fn dec_nat(n: nat) -> Seq<u8>
    decreases n,
{
    if n < 10 {
        seq![(48 + n) as u8]
    } else {
        dec_nat(n / 10) + seq![(48 + n % 10) as u8]
    }
}

/// The decimal form of an integer, with a leading minus sign if negative.
pub open spec fn dec_int(v: int) -> Seq<u8> {
    if v < 0 {
        seq![45u8] + dec_nat((-v) as nat)
    } else {
        dec_nat(v as nat)
    }
}

/// The value of a digit string.
pub open spec fn digits_val(s: Seq<u8>) -> int
    decreases s.len(),
{
    if s.len() == 0 {
        0
    } else {
        digits_val(s.drop_last()) * 10 + (s.last() - 48)
    }
}

/// The shape std's integer parsers accept: an optional sign, then digits.
pub open spec fn int_syntax(s: Seq<u8>) -> bool {
    if s.len() == 0 {
        false
    } else {
        let t = if s[0] == 43 || s[0] == 45 {
            s.drop_first()
        } else {
            s
        };
        t.len() >= 1 && all_digits(t)
    }
}

/// The signed value of an integer lexeme.
pub open spec fn int_val(s: Seq<u8>) -> int {
    if s.len() >= 1 && s[0] == 45 {
        -digits_val(s.drop_first())
    } else if s.len() >= 1 && s[0] == 43 {
        digits_val(s.drop_first())
    } else {
        digits_val(s)
    }
}

// ---------------------------------------------------------------- floats

pub open spec fn to_lower(c: u8) -> u8 {
    if 65 <= c && c <= 90 {
        (c + 32) as u8
    } else {
        c
    }
}

/// Case-insensitive match of `s` against a lower-case literal.
pub open spec fn ci_match(s: Seq<u8>, lit: Seq<u8>) -> bool {
    s.len() == lit.len() && forall|i: int| 0 <= i < s.len() ==> to_lower(#[trigger] s[i]) == lit[i]
}

pub open spec fn inf_lit() -> Seq<u8> {
    seq![105u8, 110u8, 102u8]
}

pub open spec fn infinity_lit() -> Seq<u8> {
    seq![105u8, 110u8, 102u8, 105u8, 110u8, 105u8, 116u8, 121u8]
}

pub open spec fn nan_lit() -> Seq<u8> {
    seq![110u8, 97u8, 110u8]
}

pub open spec fn strip_sign(s: Seq<u8>) -> Seq<u8> {
    if s.len() >= 1 && (s[0] == 43 || s[0] == 45) {
        s.drop_first()
    } else {
        s
    }
}

/// Index of the first `e` or `E`, or the length if there is none.
pub open spec fn first_e(s: Seq<u8>) -> int
    decreases s.len(),
{
    if s.len() == 0 {
        0
    } else if s[0] == 101 || s[0] == 69 {
        0
    } else {
        1 + first_e(s.drop_first())
    }
}

/// Index of the first `.`, or the length if there is none.
pub open spec fn first_dot(s: Seq<u8>) -> int
    decreases s.len(),
{
    if s.len() == 0 {
        0
    } else if s[0] == 46 {
        0
    } else {
        1 + first_dot(s.drop_first())
    }
}

/// Digits, or digits around a single decimal point with at least one digit.
pub open spec fn mantissa_syntax(m: Seq<u8>) -> bool {
    let d = first_dot(m);
    if d == m.len() {
        m.len() >= 1 && all_digits(m)
    } else {
        m.len() >= 2 && all_digits(m.take(d)) && all_digits(m.skip(d + 1))
    }
}

/// An optional sign, then at least one digit.
pub open spec fn exp_syntax(x: Seq<u8>) -> bool {
    strip_sign(x).len() >= 1 && all_digits(strip_sign(x))
}

/// A mantissa, optionally followed by `e`/`E` and a signed exponent.
pub open spec fn number_syntax(t: Seq<u8>) -> bool {
    let e = first_e(t);
    if e == t.len() {
        mantissa_syntax(t)
    } else {
        mantissa_syntax(t.take(e)) && exp_syntax(t.skip(e + 1))
    }
}

/// The grammar std documents for its float parsers: an optional sign, then
/// `inf`, `infinity` or `nan` in any case, or a decimal number with an
/// optional fraction and exponent.
pub open spec fn float_syntax(s: Seq<u8>) -> bool {
    let t = strip_sign(s);
    ci_match(t, inf_lit()) || ci_match(t, infinity_lit()) || ci_match(t, nan_lit())
        || number_syntax(t)
}

// ------------------------------------------------------------- exec, int

/// Writes the decimal digits of `m`.
pub fn render_u64(m: u64) -> (r: Vec<u8>)
    ensures
        r@ == dec_nat(m as nat),
    decreases m,
{
    if m < 10 {
        let mut v: Vec<u8> = Vec::new();
        v.push(48 + m as u8);
        proof {
            assert(v@ =~= dec_nat(m as nat));
        }
        v
    } else {
        let mut r = render_u64(m / 10);
        r.push(48 + (m % 10) as u8);
        proof {
            assert((m as nat) / 10 == (m / 10) as nat);
            assert(r@ =~= dec_nat((m / 10) as nat) + seq![(48 + (m as nat) % 10) as u8]);
        }
        r
    }
}

/// Writes the decimal form of `v`, sign included.
pub fn render_i64(v: i64) -> (r: Vec<u8>)
    ensures
        r@ == dec_int(v as int),
{
    if v >= 0 {
        render_u64(v as u64)
    } else {
        let w: i128 = -(v as i128);
        let m: u64 = w as u64;
        let mut out: Vec<u8> = Vec::new();
        out.push(45);
        let digits = render_u64(m);
        crate::util::extend_bytes(&mut out, digits.as_slice());
        proof {
            assert(m as nat == (-(v as int)) as nat);
            assert(out@ =~= dec_int(v as int));
        }
        out
    }
}

/// Parses an optionally signed decimal integer exactly as std does:
/// the result exists if and only if the lexeme is well formed and the
/// value fits.
#[verifier::loop_isolation(false)]
pub fn parse_i64(s: &[u8]) -> (r: Option<i64>)
    ensures
        (r is Some) == (int_syntax(s@) && i64::MIN <= int_val(s@) <= i64::MAX),
        r matches Some(v) ==> v as int == int_val(s@),
{
    let n = s.len();
    let signed = n >= 1 && (s[0] == 43 || s[0] == 45);
    let neg = n >= 1 && s[0] == 45;
    let start: usize = if signed {
        1
    } else {
        0
    };
    if n == start {
        return None;
    }
    let ghost t = if signed {
        s@.drop_first()
    } else {
        s@
    };
    proof {
        assert(t =~= s@.subrange(start as int, n as int));
    }
    let mut i: usize = start;
    let mut mag: u64 = 0;
    let mut over = false;
    while i < n
        invariant
            start <= i <= n,
            n == s@.len(),
            t == s@.subrange(start as int, n as int),
            all_digits(s@.subrange(start as int, i as int)),
            !over ==> mag as int == digits_val(s@.subrange(start as int, i as int)),
            over ==> digits_val(s@.subrange(start as int, i as int)) > u64::MAX as int,
        decreases n - i,
    {
        let c = s[i];
        if c < 48 || c > 57 {
            proof {
                assert(0 <= i - start < t.len());
                assert(t[i - start] == s@[i as int]);
                assert(!is_digit(t[i - start]));
                assert(!all_digits(t));
                if s@[0] == 43 || s@[0] == 45 {
                    assert(t == s@.drop_first());
                    assert(!int_syntax(s@));
                } else {
                    assert(t == s@);
                    assert(!int_syntax(s@));
                }
            }
            return None;
        }
        let d = (c - 48) as u64;
        let ghost pre = s@.subrange(start as int, i as int);
        let ghost cur = s@.subrange(start as int, i as int + 1);
        proof {
            assert(cur.drop_last() =~= pre);
            assert(cur.last() == c);
            assert(digits_val(cur) == digits_val(pre) * 10 + (c - 48));
            lemma_digits_val_nonneg(pre);
        }
        if over {
        } else {
            match mag.checked_mul(10) {
                Some(x) => {
                    match x.checked_add(d) {
                        Some(nm) => {
                            mag = nm;
                        },
                        None => {
                            over = true;
                        },
                    }
                },
                None => {
                    over = true;
                },
            }
        }
        i = i + 1;
    }
    proof {
        assert(s@.subrange(start as int, n as int) =~= t);
    }
    if over {
        proof {
            lemma_digits_val_nonneg(t);
            assert(digits_val(t) > u64::MAX as int);
            if s@[0] == 45 {
                assert(int_val(s@) == -digits_val(t));
            } else if s@[0] == 43 {
                assert(int_val(s@) == digits_val(t));
            } else {
                assert(int_val(s@) == digits_val(t));
            }
        }
        return None;
    }
    if neg {
        if mag > 9223372036854775808u64 {
            return None;
        }
        if mag == 9223372036854775808u64 {
            return Some(i64::MIN);
        }
        Some(-(mag as i64))
    } else {
        if mag > 9223372036854775807u64 {
            return None;
        }
        Some(mag as i64)
    }
}

/// Parses a signed 8-bit integer exactly as std does.
pub fn parse_i8(s: &[u8]) -> (r: Option<i8>)
    ensures
        (r is Some) == (int_syntax(s@) && i8::MIN <= int_val(s@) <= i8::MAX),
        r matches Some(v) ==> v as int == int_val(s@),
{
    match parse_i64(s) {
        Some(v) => {
            if -128 <= v && v <= 127 {
                Some(v as i8)
            } else {
                None
            }
        },
        None => None,
    }
}

/// Parses a signed 16-bit integer exactly as std does.
pub fn parse_i16(s: &[u8]) -> (r: Option<i16>)
    ensures
        (r is Some) == (int_syntax(s@) && i16::MIN <= int_val(s@) <= i16::MAX),
        r matches Some(v) ==> v as int == int_val(s@),
{
    match parse_i64(s) {
        Some(v) => {
            if -32768 <= v && v <= 32767 {
                Some(v as i16)
            } else {
                None
            }
        },
        None => None,
    }
}


// ---------------------------------------------------------- exec, floats

pub fn lower_byte(c: u8) -> (r: u8)
    ensures
        r == to_lower(c),
{
    if 65 <= c && c <= 90 {
        c + 32
    } else {
        c
    }
}

/// Case-insensitive comparison against a lower-case literal.
pub fn ci_match_exec(s: &[u8], lit: &[u8]) -> (r: bool)
    ensures
        r == ci_match(s@, lit@),
{
    if s.len() != lit.len() {
        return false;
    }
    let mut i: usize = 0;
    while i < s.len()
        invariant
            0 <= i <= s@.len(),
            s@.len() == lit@.len(),
            forall|j: int| 0 <= j < i ==> to_lower(#[trigger] s@[j]) == lit@[j],
        decreases s@.len() - i,
    {
        if lower_byte(s[i]) != lit[i] {
            return false;
        }
        i = i + 1;
    }
    true
}

proof fn lemma_first_e_char(s: Seq<u8>)
    ensures
        0 <= first_e(s) <= s.len(),
        first_e(s) < s.len() ==> (s[first_e(s)] == 101 || s[first_e(s)] == 69),
        forall|j: int| 0 <= j < first_e(s) ==> !(s[j] == 101 || s[j] == 69),
    decreases s.len(),
{
    if s.len() > 0 && !(s[0] == 101 || s[0] == 69) {
        lemma_first_e_char(s.drop_first());
        assert forall|j: int| 0 <= j < first_e(s) implies !(s[j] == 101 || s[j] == 69) by {
            if j > 0 {
                assert(s.drop_first()[j - 1] == s[j]);
            }
        }
    }
}

proof fn lemma_first_dot_char(s: Seq<u8>)
    ensures
        0 <= first_dot(s) <= s.len(),
        first_dot(s) < s.len() ==> s[first_dot(s)] == 46,
        forall|j: int| 0 <= j < first_dot(s) ==> s[j] != 46,
    decreases s.len(),
{
    if s.len() > 0 && s[0] != 46 {
        lemma_first_dot_char(s.drop_first());
        assert forall|j: int| 0 <= j < first_dot(s) implies s[j] != 46 by {
            if j > 0 {
                assert(s.drop_first()[j - 1] == s[j]);
            }
        }
    }
}

#[verifier::loop_isolation(false)]
fn find_e(s: &[u8]) -> (r: usize)
    ensures
        r as int == first_e(s@),
        r <= s@.len(),
{
    proof {
        lemma_first_e_char(s@);
    }
    let mut i: usize = 0;
    while i < s.len()
        invariant
            0 <= i <= s@.len(),
            forall|j: int| 0 <= j < i ==> !(s@[j] == 101 || s@[j] == 69),
        decreases s@.len() - i,
    {
        if s[i] == 101 || s[i] == 69 {
            proof {
                assert(first_e(s@) <= i);
                assert(first_e(s@) >= i);
            }
            return i;
        }
        i = i + 1;
    }
    proof {
        assert(first_e(s@) == s@.len());
    }
    i
}

#[verifier::loop_isolation(false)]
pub fn find_dot(s: &[u8]) -> (r: usize)
    ensures
        r as int == first_dot(s@),
        r <= s@.len(),
{
    proof {
        lemma_first_dot_char(s@);
    }
    let mut i: usize = 0;
    while i < s.len()
        invariant
            0 <= i <= s@.len(),
            forall|j: int| 0 <= j < i ==> s@[j] != 46,
        decreases s@.len() - i,
    {
        if s[i] == 46 {
            proof {
                assert(first_dot(s@) <= i);
                assert(first_dot(s@) >= i);
            }
            return i;
        }
        i = i + 1;
    }
    i
}

#[verifier::loop_isolation(false)]
pub fn all_digits_exec(s: &[u8]) -> (r: bool)
    ensures
        r == all_digits(s@),
{
    let mut i: usize = 0;
    while i < s.len()
        invariant
            0 <= i <= s@.len(),
            forall|j: int| 0 <= j < i ==> is_digit(#[trigger] s@[j]),
        decreases s@.len() - i,
    {
        if s[i] < 48 || s[i] > 57 {
            return false;
        }
        i = i + 1;
    }
    true
}

fn mantissa_exec(m: &[u8]) -> (r: bool)
    ensures
        r == mantissa_syntax(m@),
{
    let d = find_dot(m);
    if d == m.len() {
        m.len() >= 1 && all_digits_exec(m)
    } else {
        if m.len() < 2 {
            return false;
        }
        let before = &m[0..d];
        let after = &m[d + 1..m.len()];
        proof {
            assert(before@ =~= m@.take(d as int));
            assert(after@ =~= m@.skip(d as int + 1));
        }
        let b1 = all_digits_exec(before);
        let b2 = all_digits_exec(after);
        b1 && b2
    }
}

fn exp_exec(x: &[u8]) -> (r: bool)
    ensures
        r == exp_syntax(x@),
{
    let t: &[u8] = if x.len() >= 1 && (x[0] == 43 || x[0] == 45) {
        &x[1..x.len()]
    } else {
        x
    };
    proof {
        assert(t@ =~= strip_sign(x@));
    }
    t.len() >= 1 && all_digits_exec(t)
}

/// Decides the float grammar above.
pub fn float_syntax_exec(s: &[u8]) -> (r: bool)
    ensures
        r == float_syntax(s@),
{
    broadcast use vstd::string::is_ascii_spec_bytes;

    let t: &[u8] = if s.len() >= 1 && (s[0] == 43 || s[0] == 45) {
        &s[1..s.len()]
    } else {
        s
    };
    proof {
        assert(t@ =~= strip_sign(s@));
    }
    let lit_inf = "inf";
    let lit_infinity = "infinity";
    let lit_nan = "nan";
    proof {
        reveal_strlit("inf");
        reveal_strlit("infinity");
        reveal_strlit("nan");
        assert(vstd::string::is_ascii(lit_inf));
        assert(vstd::string::is_ascii(lit_infinity));
        assert(vstd::string::is_ascii(lit_nan));
        assert(lit_inf.spec_bytes() =~= inf_lit());
        assert(lit_infinity.spec_bytes() =~= infinity_lit());
        assert(lit_nan.spec_bytes() =~= nan_lit());
    }
    if ci_match_exec(t, lit_inf.as_bytes()) {
        return true;
    }
    if ci_match_exec(t, lit_infinity.as_bytes()) {
        return true;
    }
    if ci_match_exec(t, lit_nan.as_bytes()) {
        return true;
    }
    let e = find_e(t);
    if e == t.len() {
        mantissa_exec(t)
    } else {
        let m = &t[0..e];
        let x = &t[e + 1..t.len()];
        proof {
            assert(m@ =~= t@.take(e as int));
            assert(x@ =~= t@.skip(e as int + 1));
        }
        let b1 = mantissa_exec(m);
        let b2 = exp_exec(x);
        b1 && b2
    }
}

// ----------------------------------------------------------------- lemmas

pub proof fn lemma_digits_val_nonneg(s: Seq<u8>)
    requires
        all_digits(s),
    ensures
        digits_val(s) >= 0,
    decreases s.len(),
{
    if s.len() > 0 {
        assert(all_digits(s.drop_last()));
        lemma_digits_val_nonneg(s.drop_last());
    }
}

/// The decimal digits of `n` read back as `n`, and are digits alone.
pub proof fn lemma_dec_nat(n: nat)
    ensures
        dec_nat(n).len() >= 1,
        all_digits(dec_nat(n)),
        digits_val(dec_nat(n)) == n,
    decreases n,
{
    if n < 10 {
        let s = dec_nat(n);
        assert(s.len() == 1);
        assert(s.drop_last() =~= Seq::<u8>::empty());
        assert(digits_val(s.drop_last()) == 0);
        assert(s.last() == (48 + n) as u8);
        assert(s.last() - 48 == n);
        assert(digits_val(s) == digits_val(s.drop_last()) * 10 + (s.last() - 48));
    } else {
        lemma_dec_nat(n / 10);
        let s = dec_nat(n);
        assert(s.drop_last() =~= dec_nat(n / 10));
        assert(s.last() == (48 + n % 10) as u8);
        assert(digits_val(s) == digits_val(dec_nat(n / 10)) * 10 + n % 10);
        assert((n / 10) * 10 + n % 10 == n);
        assert(all_digits(s));
    }
}

/// The decimal form of `v` parses back to `v`.
pub proof fn lemma_dec_int(v: int)
    ensures
        dec_int(v).len() >= 1,
        int_syntax(dec_int(v)),
        int_val(dec_int(v)) == v,
        dec_int(v)[0] == 45 || is_digit(dec_int(v)[0]),
        forall|i: int| 1 <= i < dec_int(v).len() ==> is_digit(#[trigger] dec_int(v)[i]),
{
    if v < 0 {
        lemma_dec_nat((-v) as nat);
        let s = dec_int(v);
        assert(s.drop_first() =~= dec_nat((-v) as nat));
        assert(s[0] == 45);
        assert(int_val(s) == -digits_val(dec_nat((-v) as nat)));
    } else {
        lemma_dec_nat(v as nat);
        let s = dec_int(v);
        assert(s == dec_nat(v as nat));
        assert(s[0] != 45 && s[0] != 43);
        assert(int_val(s) == digits_val(s));
    }
}

/// A digit string has no `e` and no dot.
pub proof fn lemma_digits_no_marks(s: Seq<u8>)
    requires
        all_digits(s),
    ensures
        first_e(s) == s.len(),
        first_dot(s) == s.len(),
    decreases s.len(),
{
    if s.len() > 0 {
        assert(is_digit(s[0]));
        assert(all_digits(s.drop_first()));
        lemma_digits_no_marks(s.drop_first());
    }
}

/// Whatever an integer parser accepts, the float grammar accepts too.
pub proof fn lemma_int_syntax_is_float_syntax(s: Seq<u8>)
    requires
        int_syntax(s),
    ensures
        float_syntax(s),
{
    let t = strip_sign(s);
    assert(t.len() >= 1 && all_digits(t));
    lemma_digits_no_marks(t);
    assert(mantissa_syntax(t));
    assert(number_syntax(t));
}

} // verus!
