//! Fixed-point decimals.
//!
//! Exchange feeds deliver prices and quantities as decimal strings. They are
//! parsed into a `u64` scaled by `SCALE` (eight fractional digits), so that
//! equality on parsed values coincides with equality of the decimal numbers
//! and spread arithmetic is exact.

use vstd::prelude::*;

verus! {

/// Parsed decimals carry this many fractional digits.
pub const FRAC_DIGITS: u64 = 8;

/// One whole unit, i.e. ten to the `FRAC_DIGITS`.
pub const SCALE: u64 = 100_000_000;

pub open spec fn is_digit(c: char) -> bool {
    '0' <= c && c <= '9'
}

pub open spec fn digit_val(c: char) -> int {
    c as int - '0' as int
}

pub open spec fn all_digits(s: Seq<char>) -> bool {
    forall|i: int| 0 <= i < s.len() ==> is_digit(s[i])
}

/// Value of a digit string read in base ten.
pub open spec fn digits_val(s: Seq<char>) -> int
    decreases s.len(),
{
    if s.len() == 0 {
        0
    } else {
        10 * digits_val(s.drop_last()) + digit_val(s.last())
    }
}

pub open spec fn pow10(n: nat) -> int
    decreases n,
{
    if n == 0 {
        1
    } else {
        10 * pow10((n - 1) as nat)
    }
}

/// `s` splits at position `p` into a nonempty digit string, a dot, and a
/// nonempty digit string.
pub open spec fn dec_dot_split(s: Seq<char>, p: int) -> bool {
    &&& 1 <= p < s.len() - 1
    &&& s[p] == '.'
    &&& all_digits(s.take(p))
    &&& all_digits(s.skip(p + 1))
}

/// The scaled value of an integer digit string `ip` and fractional digit
/// string `f`: fractional digits beyond `FRAC_DIGITS` are dropped.
pub open spec fn scaled_val(ip: Seq<char>, f: Seq<char>) -> int {
    let f8 = f.take(if f.len() <= FRAC_DIGITS { f.len() as int } else { FRAC_DIGITS as int });
    digits_val(ip) * SCALE + digits_val(f8) * pow10((FRAC_DIGITS - f8.len()) as nat)
}

/// What a decimal string denotes: `digits` or `digits.digits`, scaled by
/// `SCALE`, if that value fits in a `u64`; anything else is `None`.
pub open spec fn dec_spec(s: Seq<char>) -> Option<u64> {
    if s.len() >= 1 && all_digits(s) {
        let v = digits_val(s) * SCALE;
        if v <= u64::MAX {
            Some(v as u64)
        } else {
            None
        }
    } else if exists|p: int| dec_dot_split(s, p) {
        let p = choose|p: int| dec_dot_split(s, p);
        let v = scaled_val(s.take(p), s.skip(p + 1));
        if v <= u64::MAX {
            Some(v as u64)
        } else {
            None
        }
    } else {
        None
    }
}

pub proof fn lemma_digits_val_nonneg(s: Seq<char>)
    requires
        all_digits(s),
    ensures
        digits_val(s) >= 0,
    decreases s.len(),
{
    if s.len() > 0 {
        assert(is_digit(s.last()));
        assert(all_digits(s.drop_last()));
        lemma_digits_val_nonneg(s.drop_last());
    }
}

/// Appending further digits never shrinks the value.
pub proof fn lemma_digits_val_prefix(s: Seq<char>, i: int, j: int)
    requires
        all_digits(s),
        0 <= i <= j <= s.len(),
    ensures
        digits_val(s.take(i)) <= digits_val(s.take(j)),
    decreases j - i,
{
    if i < j {
        lemma_digits_val_prefix(s, i, j - 1);
        let t = s.take(j);
        assert(t.drop_last() =~= s.take(j - 1));
        assert(is_digit(s[j - 1]));
        lemma_digits_val_nonneg(s.take(j - 1));
    }
}

/// A split position is the first dot, hence unique.
proof fn lemma_dot_split_unique(s: Seq<char>, p1: int, p2: int)
    requires
        dec_dot_split(s, p1),
        dec_dot_split(s, p2),
    ensures
        p1 == p2,
{
    if p1 < p2 {
        assert(is_digit(s.take(p2)[p1]));
    } else if p2 < p1 {
        assert(is_digit(s.take(p1)[p2]));
    }
}

/// Ten to the `n` for the fractional scale range.
fn pow10_u64(n: u64) -> (r: u64)
    requires
        n <= FRAC_DIGITS,
    ensures
        r == pow10(n as nat),
{
    let mut r: u64 = 1;
    let mut i: u64 = 0;
    while i < n
        invariant
            0 <= i <= n <= FRAC_DIGITS,
            r == pow10(i as nat),
        decreases n - i,
    {
        assert(pow10((i + 1) as nat) == 10 * pow10(i as nat));
        proof {
            reveal_with_fuel(pow10, 10);
        }
        assert(pow10(n as nat) <= pow10(FRAC_DIGITS as nat)) by {
            lemma_pow10_mono(n as nat, FRAC_DIGITS as nat);
        }
        assert(pow10(i as nat) * 10 <= pow10(n as nat)) by {
            lemma_pow10_mono((i + 1) as nat, n as nat);
        }
        r = r * 10;
        i = i + 1;
    }
    r
}

proof fn lemma_pow10_mono(a: nat, b: nat)
    requires
        a <= b,
    ensures
        pow10(a) <= pow10(b),
        pow10(a) >= 1,
    decreases b - a,
{
    if a == b {
        lemma_pow10_pos(a);
    } else {
        lemma_pow10_mono(a, (b - 1) as nat);
    }
}

proof fn lemma_pow10_pos(n: nat)
    ensures
        pow10(n) >= 1,
    decreases n,
{
    if n > 0 {
        lemma_pow10_pos((n - 1) as nat);
    }
}

/// The character of one digit value.
pub open spec fn digit_char(d: int) -> char {
    if d == 0 {
        '0'
    } else if d == 1 {
        '1'
    } else if d == 2 {
        '2'
    } else if d == 3 {
        '3'
    } else if d == 4 {
        '4'
    } else if d == 5 {
        '5'
    } else if d == 6 {
        '6'
    } else if d == 7 {
        '7'
    } else if d == 8 {
        '8'
    } else {
        '9'
    }
}

/// The base-ten digit string of `x`, most significant first.
pub open spec fn spec_digits(x: int) -> Seq<char>
    decreases x,
{
    if x < 10 {
        seq![digit_char(x)]
    } else {
        spec_digits(x / 10).push(digit_char(x % 10))
    }
}

pub proof fn lemma_spec_digits(x: int)
    requires
        x >= 0,
    ensures
        spec_digits(x).len() >= 1,
        all_digits(spec_digits(x)),
        digits_val(spec_digits(x)) == x,
    decreases x,
{
    if x < 10 {
        assert(seq![digit_char(x)].drop_last() =~= Seq::<char>::empty());
        assert(digits_val(spec_digits(x)) == 10 * digits_val(Seq::<char>::empty()) + digit_val(
            digit_char(x),
        ));
    } else {
        lemma_spec_digits(x / 10);
        let s = spec_digits(x / 10);
        let whole = s.push(digit_char(x % 10));
        assert(whole.drop_last() =~= s);
        assert(all_digits(whole)) by {
            assert(forall|i: int| 0 <= i < s.len() ==> whole[i] == s[i]);
        }
        assert(digits_val(whole) == 10 * (x / 10) + (x % 10));
    }
}

/// A leading zero does not change the value of a digit string.
proof fn lemma_digits_val_lead_zero(s: Seq<char>)
    ensures
        digits_val(seq!['0'] + s) == digits_val(s),
    decreases s.len(),
{
    if s.len() == 0 {
        assert(seq!['0'] + s =~= seq!['0']);
        assert(seq!['0'].drop_last() =~= Seq::<char>::empty());
        assert(digits_val(seq!['0']) == 10 * digits_val(Seq::<char>::empty()) + digit_val('0'));
    } else {
        let t = seq!['0'] + s;
        assert(t.drop_last() =~= seq!['0'] + s.drop_last());
        assert(t.last() == s.last());
        lemma_digits_val_lead_zero(s.drop_last());
    }
}

/// `f` with its trailing decimal zeros removed.
pub open spec fn strip_zeros(f: int) -> int
    decreases f,
{
    if f > 0 && f % 10 == 0 {
        strip_zeros(f / 10)
    } else {
        f
    }
}

/// How many trailing decimal zeros `f` carries.
pub open spec fn strip_count(f: int) -> int
    decreases f,
{
    if f > 0 && f % 10 == 0 {
        strip_count(f / 10) + 1
    } else {
        0
    }
}

/// The canonical decimal rendering of a scaled value: the whole part,
/// then - only when the fraction is non-zero - a dot and the fractional
/// digits with trailing zeros dropped.
pub open spec fn dec_str(v: u64) -> Seq<char> {
    let whole = v as int / SCALE as int;
    let frac = v as int % SCALE as int;
    if frac == 0 {
        spec_digits(whole)
    } else {
        let t = strip_zeros(frac);
        let pad = FRAC_DIGITS - strip_count(frac) - spec_digits(t).len();
        spec_digits(whole) + seq!['.'] + zero_seq(pad as nat) + spec_digits(t)
    }
}

/// One digit as a string slice.
fn digit_str(d: u64) -> (r: &'static str)
    requires
        d < 10,
    ensures
        r@ == seq![digit_char(d as int)],
{
    proof {
        reveal_strlit("0");
        reveal_strlit("1");
        reveal_strlit("2");
        reveal_strlit("3");
        reveal_strlit("4");
        reveal_strlit("5");
        reveal_strlit("6");
        reveal_strlit("7");
        reveal_strlit("8");
        reveal_strlit("9");
    }
    if d == 0 {
        "0"
    } else if d == 1 {
        "1"
    } else if d == 2 {
        "2"
    } else if d == 3 {
        "3"
    } else if d == 4 {
        "4"
    } else if d == 5 {
        "5"
    } else if d == 6 {
        "6"
    } else if d == 7 {
        "7"
    } else if d == 8 {
        "8"
    } else {
        "9"
    }
}

/// Append the digit string of `x`.
fn push_digits(out: &mut String, x: u64)
    ensures
        final (out)@ == old(out)@ + spec_digits(x as int),
    decreases x,
{
    if x < 10 {
        out.append(digit_str(x));
    } else {
        push_digits(out, x / 10);
        out.append(digit_str(x % 10));
        proof {
            assert(out@ =~= old(out)@ + spec_digits(x as int));
        }
    }
}

/// Render a scaled value as a decimal string; the result parses back to
/// exactly `v`. The fractional part appears only when it is non-zero,
/// with trailing zeros dropped.
pub fn format_decimal(v: u64) -> (r: String)
    ensures
        r@ == dec_str(v),
        dec_spec(r@) == Some(v),
{
    proof {
        vstd::arithmetic::div_mod::lemma_fundamental_div_mod(v as int, SCALE as int);
    }
    let whole = v / SCALE;
    let frac = v % SCALE;
    let mut out = String::new();
    push_digits(&mut out, whole);
    let ghost ip: Seq<char> = spec_digits(whole as int);
    proof {
        lemma_spec_digits(whole as int);
    }
    if frac == 0 {
        proof {
            assert(out@ == ip);
            lemma_digits_val_nonneg(ip);
            assert(digits_val(out@) * SCALE == v);
            assert(out@ == dec_str(v));
        }
        return out;
    }
    out.append(".");

    // Strip factors of ten off the fraction; `frac == t * 10^z`.
    let mut t = frac;
    let mut z: u64 = 0;
    while t % 10 == 0
        invariant
            1 <= t <= frac < SCALE,
            z <= FRAC_DIGITS,
            frac == t * pow10(z as nat),
            strip_zeros(frac as int) == strip_zeros(t as int),
            strip_count(frac as int) == z + strip_count(t as int),
        decreases t,
    {
        let t2 = t / 10;
        proof {
            vstd::arithmetic::div_mod::lemma_fundamental_div_mod(t as int, 10);
            assert(t == t2 * 10);
            assert(t2 * 10 * pow10(z as nat) == t2 * pow10((z + 1) as nat)) by (nonlinear_arith)
                requires
                    pow10((z + 1) as nat) == 10 * pow10(z as nat),
            ;
            assert(pow10((z + 1) as nat) == 10 * pow10(z as nat));
            lemma_pow10_pos((z + 1) as nat);
            assert(t2 * pow10((z + 1) as nat) >= pow10((z + 1) as nat)) by (nonlinear_arith)
                requires
                    t2 >= 1,
                    pow10((z + 1) as nat) >= 0,
            ;
            assert(pow10((z + 2) as nat) == 10 * pow10((z + 1) as nat));
            if z + 1 > FRAC_DIGITS {
                lemma_pow10_mono(9, (z + 1) as nat);
                reveal_with_fuel(pow10, 10);
            }
        }
        t = t2;
        z = z + 1;
    }
    proof {
        assert(z < FRAC_DIGITS) by {
            if z == FRAC_DIGITS {
                reveal_with_fuel(pow10, 10);
                assert(frac >= pow10(z as nat)) by (nonlinear_arith)
                    requires
                        t >= 1,
                        frac == t * pow10(z as nat),
                        pow10(z as nat) >= 0,
                ;
            }
        }
    }

    // Digit count of `t`, to pad the fraction with leading zeros up to
    // FRAC_DIGITS - z places.
    let ghost td: Seq<char> = spec_digits(t as int);
    proof {
        lemma_spec_digits(t as int);
        assert(t < pow10((FRAC_DIGITS - z) as nat)) by {
            assert(frac == t * pow10(z as nat));
            lemma_pow10_mono(z as nat, FRAC_DIGITS as nat);
            reveal_with_fuel(pow10, 10);
            assert(pow10(FRAC_DIGITS as nat) == pow10((FRAC_DIGITS - z) as nat) * pow10(z as nat))
                by {
                lemma_pow10_add((FRAC_DIGITS - z) as nat, z as nat);
            }
            if t >= pow10((FRAC_DIGITS - z) as nat) {
                assert(t * pow10(z as nat) >= pow10((FRAC_DIGITS - z) as nat) * pow10(z as nat))
                    by (nonlinear_arith)
                    requires
                        t >= pow10((FRAC_DIGITS - z) as nat),
                        pow10(z as nat) >= 1,
                ;
            }
        }
        lemma_digits_len_bound(t as int, (FRAC_DIGITS - z) as nat);
    }
    let dlen = count_digits(t);
    let pad = FRAC_DIGITS - z - dlen;
    let ghost before_pad: Seq<char> = out@;
    let mut p: u64 = 0;
    while p < pad
        invariant
            p <= pad,
            out@ =~= before_pad + zero_seq(p as nat),
        decreases pad - p,
    {
        proof {
            reveal_strlit("0");
            assert(before_pad + zero_seq((p + 1) as nat) =~= (before_pad + zero_seq(p as nat))
                + "0"@) by {
                assert("0"@.len() == 1 && "0"@[0] == '0');
            }
        }
        out.append("0");
        p = p + 1;
    }
    push_digits(&mut out, t);

    // The result splits at the dot into the whole and fractional digits.
    proof {
        reveal_strlit(".");
        let s = out@;
        let f: Seq<char> = zero_seq(pad as nat) + td;
        let dp: int = ip.len() as int;
        assert(s =~= ip + seq!['.'] + f);
        lemma_all_digits_zero_pad(td, pad as nat);
        lemma_digits_val_zero_pad(td, pad as nat);
        assert(s.take(dp) =~= ip);
        assert(s.skip(dp + 1) =~= f);
        assert(f.len() == FRAC_DIGITS - z);
        assert(dec_dot_split(s, dp));
        lemma_dot_split_unique(s, dp, choose|q: int| dec_dot_split(s, q));
        assert(!all_digits(s)) by {
            assert(!is_digit(s[dp]));
        }
        // value: whole * SCALE + t * 10^z == v
        assert(digits_val(f) == t);
        assert(scaled_val(ip, f) == whole * SCALE + t * pow10(z as nat)) by {
            assert(f.take(f.len() as int) =~= f);
        }
        assert(scaled_val(s.take(dp), s.skip(dp + 1)) == v);
        assert(strip_zeros(frac as int) == t);
        assert(strip_count(frac as int) == z);
        assert(s =~= dec_str(v));
    }
    out
}

/// `n` zeros.
pub open spec fn zero_seq(n: nat) -> Seq<char> {
    Seq::new(n, |i: int| '0')
}

/// Leading zeros keep a digit string's digits and value.
proof fn lemma_all_digits_zero_pad(s: Seq<char>, n: nat)
    requires
        all_digits(s),
    ensures
        all_digits(zero_seq(n) + s),
    decreases n,
{
    if n > 0 {
        lemma_all_digits_zero_pad(s, (n - 1) as nat);
        assert(forall|i: int|
            0 <= i < (zero_seq(n) + s).len() ==> (zero_seq(n) + s)[i] == (seq!['0'] + (zero_seq(
                (n - 1) as nat,
            ) + s))[i]);
        assert(all_digits(seq!['0'] + (zero_seq((n - 1) as nat) + s)));
    }
}

proof fn lemma_digits_val_zero_pad(s: Seq<char>, n: nat)
    ensures
        digits_val(zero_seq(n) + s) == digits_val(s),
    decreases n,
{
    if n == 0 {
        assert(zero_seq(0) + s =~= s);
    } else {
        lemma_digits_val_zero_pad(s, (n - 1) as nat);
        assert(zero_seq(n) + s =~= seq!['0'] + (zero_seq((n - 1) as nat) + s));
        lemma_digits_val_lead_zero(zero_seq((n - 1) as nat) + s);
    }
}

proof fn lemma_pow10_add(a: nat, b: nat)
    ensures
        pow10(a + b) == pow10(a) * pow10(b),
    decreases b,
{
    if b == 0 {
        assert(pow10(a) * 1 == pow10(a)) by (nonlinear_arith);
    } else {
        lemma_pow10_add(a, (b - 1) as nat);
        assert(pow10(a + b) == 10 * pow10((a + b - 1) as nat));
        assert(10 * (pow10(a) * pow10((b - 1) as nat)) == pow10(a) * (10 * pow10(
            (b - 1) as nat,
        ))) by (nonlinear_arith);
    }
}

/// The digit string of `x < 10^k` has at most `k` places.
proof fn lemma_digits_len_bound(x: int, k: nat)
    requires
        0 <= x < pow10(k),
        k >= 1,
    ensures
        spec_digits(x).len() <= k,
    decreases k,
{
    if x >= 10 {
        assert(pow10(k) == 10 * pow10((k - 1) as nat));
        vstd::arithmetic::div_mod::lemma_fundamental_div_mod(x, 10);
        assert(x / 10 < pow10((k - 1) as nat)) by {
            if x / 10 >= pow10((k - 1) as nat) {
                assert(x >= 10 * pow10((k - 1) as nat)) by (nonlinear_arith)
                    requires
                        x / 10 >= pow10((k - 1) as nat),
                        x == 10 * (x / 10) + x % 10,
                        x % 10 >= 0,
                ;
            }
        }
        lemma_pow10_pos((k - 1) as nat);
        lemma_digits_len_bound(x / 10, (k - 1) as nat);
    }
}

/// How many digits `x` prints with (for fraction-sized values).
fn count_digits(x: u64) -> (r: u64)
    requires
        x < SCALE,
    ensures
        r == spec_digits(x as int).len(),
        r <= FRAC_DIGITS,
    decreases x,
{
    proof {
        reveal_with_fuel(pow10, 10);
        lemma_digits_len_bound(x as int, FRAC_DIGITS as nat);
    }
    if x < 10 {
        1
    } else {
        let rest = count_digits(x / 10);
        proof {
            assert(spec_digits(x as int) == spec_digits(x as int / 10).push(
                digit_char(x as int % 10),
            ));
        }
        rest + 1
    }
}

/// Parse a decimal string into its scaled fixed-point value.
///
/// Accepts `digits` or `digits.digits`; fractional digits beyond
/// `FRAC_DIGITS` are dropped; values beyond `u64::MAX` and anything
/// malformed give `None`.
pub fn parse_decimal(s: &str) -> (r: Option<u64>)
    ensures
        r == dec_spec(s@),
{
    let n = s.unicode_len();

    // Locate the first dot and check that everything else is a digit.
    let mut dot: Option<usize> = None;
    let mut i: usize = 0;
    while i < n
        invariant
            0 <= i <= n == s@.len(),
            match dot {
                Some(d) => {
                    &&& d < i
                    &&& s@[d as int] == '.'
                    &&& all_digits(s@.take(d as int))
                    &&& forall|k: int| d < k < i ==> is_digit(s@[k])
                },
                None => all_digits(s@.take(i as int)),
            },
        decreases n - i,
    {
        let c = s.get_char(i);
        if c == '.' {
            match dot {
                None => {
                    dot = Some(i);
                },
                Some(_) => {
                    // A second dot: no well-formed reading exists.
                    proof {
                        let d = dot->Some_0 as int;
                        assert forall|p: int| !dec_dot_split(s@, p) by {
                            if dec_dot_split(s@, p) {
                                if p < d {
                                    assert(is_digit(s@.skip(p + 1)[d - p - 1]));
                                } else if p == d {
                                    assert(is_digit(s@.skip(p + 1)[i - p - 1]));
                                } else {
                                    assert(is_digit(s@.take(p)[d]));
                                }
                            }
                        }
                        assert(!all_digits(s@)) by {
                            assert(!is_digit(s@[d]));
                        }
                    }
                    return None;
                },
            }
        } else if c < '0' || c > '9' {
            // A character that is neither digit nor dot.
            proof {
                let bad = i as int;
                assert(!is_digit(s@[bad]));
                assert(!all_digits(s@));
                assert forall|p: int| !dec_dot_split(s@, p) by {
                    if dec_dot_split(s@, p) {
                        if bad < p {
                            assert(is_digit(s@.take(p)[bad]));
                        } else if bad > p {
                            assert(is_digit(s@.skip(p + 1)[bad - p - 1]));
                        }
                    }
                }
            }
            return None;
        }
        i = i + 1;
    }

    // Split into integer and fractional digit runs.
    let (ip_len, has_dot): (usize, bool) = match dot {
        Some(d) => (d, true),
        None => (n, false),
    };
    let ghost ip_seq: Seq<char> = s@.take(ip_len as int);
    let ghost f_seq: Seq<char> = if has_dot {
        s@.skip(ip_len as int + 1)
    } else {
        Seq::<char>::empty()
    };

    if ip_len == 0 || (has_dot && ip_len + 1 == n) {
        // Empty integer or fractional part: reject.
        proof {
            if s@.len() >= 1 && all_digits(s@) {
                assert(has_dot);
                let d = ip_len as int;
                assert(!is_digit(s@[d]));
            }
            assert forall|p: int| !dec_dot_split(s@, p) by {
                if dec_dot_split(s@, p) {
                    assert(has_dot);
                    let d = ip_len as int;
                    if p < d {
                        assert(is_digit(s@.take(d)[p]));
                    } else if p > d {
                        assert(is_digit(s@.skip(p + 1)[d - p - 1]));
                    }
                }
            }
        }
        return None;
    }

    // The mathematical value of the string, and what dec_spec makes of it.
    let ghost gval: int = if has_dot {
        scaled_val(ip_seq, f_seq)
    } else {
        digits_val(s@) * SCALE
    };
    proof {
        if has_dot {
            assert(forall|k: int| ip_len < k < n ==> is_digit(s@[k]));
            assert(all_digits(f_seq)) by {
                assert(forall|k: int| 0 <= k < f_seq.len() ==> f_seq[k] == s@[ip_len + 1 + k]);
            }
            assert(dec_dot_split(s@, ip_len as int));
            lemma_dot_split_unique(s@, ip_len as int, choose|p: int| dec_dot_split(s@, p));
            assert(!all_digits(s@)) by {
                assert(!is_digit(s@[ip_len as int]));
            }
        } else {
            assert(s@.take(n as int) =~= s@);
            assert(all_digits(s@));
            assert(ip_seq =~= s@);
        }
        assert(dec_spec(s@) == if gval <= u64::MAX {
            Some(gval as u64)
        } else {
            None::<u64>
        });
    }

    // Accumulate the integer part; once past u64::MAX the value cannot fit.
    let mut ip_val: u128 = 0;
    let mut i: usize = 0;
    while i < ip_len
        invariant
            0 <= i <= ip_len <= n == s@.len(),
            ip_seq == s@.take(ip_len as int),
            all_digits(ip_seq),
            has_dot ==> all_digits(f_seq) && gval == scaled_val(ip_seq, f_seq),
            !has_dot ==> ip_seq == s@ && gval == digits_val(s@) * SCALE,
            dec_spec(s@) == if gval <= u64::MAX {
                Some(gval as u64)
            } else {
                None::<u64>
            },
            ip_val == digits_val(ip_seq.take(i as int)),
            ip_val <= u64::MAX,
        decreases ip_len - i,
    {
        let c = s.get_char(i);
        proof {
            assert(ip_seq[i as int] == s@[i as int]);
            assert(is_digit(ip_seq[i as int]));
            assert(ip_seq.take(i + 1).drop_last() =~= ip_seq.take(i as int));
            lemma_digits_val_nonneg(ip_seq.take(i as int));
        }
        let d = (c as u32 - '0' as u32) as u128;
        let next = ip_val * 10 + d;
        assert(next == digits_val(ip_seq.take(i + 1)));
        if next > u64::MAX as u128 {
            // The integer part alone exceeds the representable range.
            proof {
                lemma_digits_val_prefix(ip_seq, i + 1, ip_seq.len() as int);
                assert(ip_seq.take(ip_seq.len() as int) =~= ip_seq);
                let ipv = digits_val(ip_seq);
                lemma_digits_val_nonneg(ip_seq);
                assert(ipv * SCALE >= ipv) by (nonlinear_arith)
                    requires
                        ipv >= 0,
                        SCALE >= 1,
                ;
                if has_dot {
                    let f8_len: int = if f_seq.len() <= FRAC_DIGITS {
                        f_seq.len() as int
                    } else {
                        FRAC_DIGITS as int
                    };
                    assert(all_digits(f_seq.take(f8_len)));
                    lemma_digits_val_nonneg(f_seq.take(f8_len));
                    lemma_pow10_pos((FRAC_DIGITS - f8_len) as nat);
                    let fv = digits_val(f_seq.take(f8_len));
                    let pw = pow10((FRAC_DIGITS - f8_len) as nat);
                    assert(fv * pw >= 0) by (nonlinear_arith)
                        requires
                            fv >= 0,
                            pw >= 0,
                    ;
                }
                assert(gval > u64::MAX);
            }
            return None;
        }
        ip_val = next;
        i = i + 1;
    }
    proof {
        assert(ip_seq.take(ip_len as int) =~= ip_seq);
    }

    // Accumulate at most FRAC_DIGITS fractional digits.
    let mut f8_val: u64 = 0;
    let mut used: u64 = 0;
    if has_dot {
        let f_start = ip_len + 1;
        let mut j: usize = f_start;
        let ghost f8_len: int = if f_seq.len() <= FRAC_DIGITS {
            f_seq.len() as int
        } else {
            FRAC_DIGITS as int
        };
        while j < n && used < FRAC_DIGITS
            invariant
                f_start == ip_len + 1 <= n == s@.len(),
                f_seq == s@.skip(f_start as int),
                all_digits(f_seq),
                f8_len == if f_seq.len() <= FRAC_DIGITS {
                    f_seq.len() as int
                } else {
                    FRAC_DIGITS as int
                },
                f_start <= j <= n,
                used == j - f_start,
                used <= FRAC_DIGITS,
                used <= f8_len,
                used < f8_len ==> j < n,
                f8_val == digits_val(f_seq.take(used as int)),
                f8_val < pow10(used as nat),
            decreases n - j,
        {
            let c = s.get_char(j);
            proof {
                assert(f_seq[used as int] == s@[j as int]);
                assert(is_digit(f_seq[used as int]));
                assert(f_seq.take(used + 1).drop_last() =~= f_seq.take(used as int));
                lemma_digits_val_nonneg(f_seq.take(used as int));
                lemma_pow10_mono((used + 1) as nat, FRAC_DIGITS as nat);
                reveal_with_fuel(pow10, 10);
            }
            let d = (c as u32 - '0' as u32) as u64;
            f8_val = f8_val * 10 + d;
            used = used + 1;
            j = j + 1;
        }
        proof {
            assert(used == f8_len);
            assert(f_seq.take(f8_len) == f_seq.take(used as int));
        }
    }

    // Combine: value = ip * SCALE + frac * 10^(FRAC_DIGITS - used).
    let mult = pow10_u64(FRAC_DIGITS - used);
    proof {
        lemma_pow10_mono((FRAC_DIGITS - used) as nat, FRAC_DIGITS as nat);
        lemma_pow10_mono(used as nat, FRAC_DIGITS as nat);
        reveal_with_fuel(pow10, 10);
        lemma_digits_val_nonneg(ip_seq);
        assert(mult <= 100_000_000);
        assert(f8_val < 100_000_000);
        assert(ip_val * 100_000_000 <= 0xffff_ffff_ffff_ffff_u128 * 100_000_000)
            by (nonlinear_arith)
            requires
                ip_val <= 0xffff_ffff_ffff_ffff_u128,
        ;
        let fv = f8_val as int;
        let mv = mult as int;
        assert(0 <= fv * mv <= 100_000_000 * 100_000_000) by (nonlinear_arith)
            requires
                0 <= fv < 100_000_000,
                0 <= mv <= 100_000_000,
        ;
    }
    let v: u128 = ip_val * (SCALE as u128) + (f8_val as u128) * (mult as u128);
    proof {
        if has_dot {
            assert(v == scaled_val(ip_seq, f_seq));
        } else {
            assert(v == digits_val(s@) * SCALE + 0 * (mult as int));
            assert(0 * (mult as int) == 0);
        }
        assert(v == gval);
    }
    if v > u64::MAX as u128 {
        return None;
    }
    Some(v as u64)
}

} // verus!
