//! Fixed-point decimal coordinates. A coordinate is held in units of one
//! ten-thousandth, so a value carries four decimal digits exactly; text is
//! read and written with ordinary decimal notation and rounding half away
//! from zero. This makes reading back a written coordinate an exact
//! operation, which the round-trip laws of this library state and prove.

use vstd::prelude::*;
use vstd::string::StrSliceExecFns;
use vstd::string::StringExecFns;

use crate::num::all_digits;
use crate::num::dec_digits;
use crate::num::digit_of;
use crate::num::digit_val;
use crate::num::digits_value;
use crate::num::is_digit;
use crate::num::is_digit_c;
use crate::num::lemma_dec_digits_len;
use crate::num::lemma_dec_digits_value;
use crate::num::lemma_digits_value_append;
use crate::num::lemma_digits_value_nonneg;
use crate::num::lemma_digits_value_prefix;
use crate::num::lemma_pow10_pos;
use crate::num::pow10;
use crate::num::push_dec_digits;
use crate::num::strip_sign;
use crate::text::is_space;

verus! {

/// A sequence of `k` zero digits.
pub open spec fn zeros(k: int) -> Seq<char> {
    Seq::new(k as nat, |i: int| '0')
}

/// Leading zero digits add nothing to a digit string's value.
pub proof fn lemma_digits_value_zeros(k: int, t: Seq<char>)
    requires
        k >= 0,
    ensures
        digits_value(zeros(k) + t) == digits_value(t),
        all_digits(t) ==> all_digits(zeros(k) + t),
    decreases k,
{
    if k == 0 {
        assert(zeros(0) + t =~= t);
    } else {
        lemma_digits_value_zeros(k - 1, t);
        let a = zeros(k) + t;
        let b = zeros(k - 1) + t;
        assert(a =~= seq!['0'] + b);
        lemma_digits_value_append(seq!['0'], b);
        assert(digits_value(seq!['0']) == 0) by {
            let z = seq!['0'];
            assert(z.len() == 1);
            assert(z.last() == '0');
            assert(z.drop_last() =~= Seq::<char>::empty());
            assert(digits_value(z.drop_last()) == 0);
            assert(digit_val('0') == 0);
        }
        lemma_pow10_pos(b.len() as int);
        assert(digits_value(a) == 0 * pow10(b.len() as int) + digits_value(b));
    }
}

/// The index of the first decimal point in `b`, or its length.
pub open spec fn dot_pos(b: Seq<char>) -> int
    decreases b.len(),
{
    if b.len() == 0 {
        0
    } else if b[0] == '.' {
        0
    } else {
        1 + dot_pos(b.drop_first())
    }
}

/// `dot_pos` is the least index holding a decimal point.
pub proof fn lemma_dot_pos_is(b: Seq<char>, e: int)
    requires
        0 <= e <= b.len(),
        forall|j: int| 0 <= j < e ==> b[j] != '.',
        e < b.len() ==> b[e] == '.',
    ensures
        dot_pos(b) == e,
    decreases e,
{
    if e == 0 {
    } else {
        let u = b.drop_first();
        assert(forall|j: int| 0 <= j < e - 1 ==> u[j] != '.');
        lemma_dot_pos_is(u, e - 1);
    }
}

/// With no decimal point before `e`, `dot_pos` is at least `e`.
pub proof fn lemma_dot_pos_lower(b: Seq<char>, e: int)
    requires
        0 <= e <= b.len(),
        forall|j: int| 0 <= j < e ==> b[j] != '.',
    ensures
        dot_pos(b) >= e,
    decreases e,
{
    if e > 0 {
        let u = b.drop_first();
        assert(forall|j: int| 0 <= j < e - 1 ==> u[j] != '.');
        lemma_dot_pos_lower(u, e - 1);
    } else {
        lemma_dot_pos_bounds(b);
    }
}

/// `dot_pos` lies between zero and the length.
pub proof fn lemma_dot_pos_bounds(b: Seq<char>)
    ensures
        0 <= dot_pos(b) <= b.len(),
    decreases b.len(),
{
    if b.len() > 0 && b[0] != '.' {
        lemma_dot_pos_bounds(b.drop_first());
    }
}

/// The digits before the decimal point of an unsigned decimal body.
pub open spec fn int_part(b: Seq<char>) -> Seq<char> {
    b.take(dot_pos(b))
}

/// The digits after the decimal point of an unsigned decimal body.
pub open spec fn frac_part(b: Seq<char>) -> Seq<char> {
    if dot_pos(b) < b.len() {
        b.skip(dot_pos(b) + 1)
    } else {
        Seq::empty()
    }
}

/// The fraction digits cut or zero-padded to exactly four places.
pub open spec fn frac4(fp: Seq<char>) -> Seq<char> {
    if fp.len() >= 4 {
        fp.take(4)
    } else {
        fp + zeros(4 - fp.len())
    }
}

/// The value of a fraction in ten-thousandths, rounded half away from
/// zero on the fifth digit.
pub open spec fn frac_units(fp: Seq<char>) -> int {
    digits_value(frac4(fp)) + if fp.len() > 4 && digit_val(fp[4]) >= 5 {
        1int
    } else {
        0int
    }
}

/// Whether `s` is a decimal coordinate this library accepts: an optional
/// sign, digits with at most one decimal point among them, at least one
/// digit, and an integer part below ten to the eleventh.
pub open spec fn valid_decimal(s: Seq<char>) -> bool {
    let (neg, b) = strip_sign(s);
    all_digits(int_part(b)) && all_digits(frac_part(b)) && int_part(b).len() + frac_part(
        b,
    ).len() >= 1 && digits_value(int_part(b)) < 100000000000
}

/// The value of a decimal coordinate in ten-thousandth units.
pub open spec fn decimal_units(s: Seq<char>) -> int {
    let (neg, b) = strip_sign(s);
    let mag = digits_value(int_part(b)) * 10000 + frac_units(frac_part(b));
    if neg {
        -mag
    } else {
        mag
    }
}

/// What parsing a coordinate field yields: its value in ten-thousandth
/// units when the text is a decimal this library accepts, else nothing.
pub open spec fn parse_fixed_spec(s: Seq<char>) -> Option<int> {
    if valid_decimal(s) {
        Some(decimal_units(s))
    } else {
        None
    }
}

/// Division by a power of ten rounding half away from zero; `m` is the
/// power of ten and only its halves are added before dividing.
pub open spec fn half_away(u: int, m: int) -> int
    recommends
        m >= 1,
{
    if u >= 0 {
        (u + m / 2) / m
    } else {
        -((-u + m / 2) / m)
    }
}

/// The value, in ten-thousandth units, that a coordinate shows when it is
/// written with `d` decimals: the nearest multiple of the dropped scale.
pub open spec fn shown_units(u: int, d: int) -> int {
    half_away(u, pow10(4 - d)) * pow10(4 - d)
}

/// The fraction digits of value `fp`, zero-padded on the left to `d`.
pub open spec fn frac_digits(fp: int, d: int) -> Seq<char>
    recommends
        0 <= fp < pow10(d),
{
    zeros(d - dec_digits(fp).len()) + dec_digits(fp)
}

/// The decimal text of a coordinate written with `d` decimals: an
/// optional minus sign, the integer digits, the point, `d` fraction
/// digits.
pub open spec fn fmt_fixed(u: int, d: int) -> Seq<char>
    recommends
        d == 3 || d == 4,
{
    let m = half_away(u, pow10(4 - d));
    let mag = if m < 0 {
        -m
    } else {
        m
    };
    let sign: Seq<char> = if m < 0 {
        seq!['-']
    } else {
        Seq::empty()
    };
    sign + dec_digits(mag / pow10(d)) + seq!['.'] + frac_digits(mag % pow10(d), d)
}

/// Small powers of ten, spelled out.
pub proof fn lemma_pow10_small()
    ensures
        pow10(0) == 1,
        pow10(1) == 10,
        pow10(2) == 100,
        pow10(3) == 1000,
        pow10(4) == 10000,
{
    assert(pow10(0) == 1);
    assert(pow10(1) == 10);
    assert(pow10(2) == 100);
    assert(pow10(3) == 1000);
    assert(pow10(4) == 10000);
}

/// Parses a coordinate field, exactly as [`parse_fixed_spec`] says.
#[verifier::rlimit(100)]
#[verifier::loop_isolation(false)]
pub fn parse_fixed(s: &str) -> (r: Option<i64>)
    ensures
        r is Some <==> parse_fixed_spec(s@) is Some,
        r matches Some(v) ==> parse_fixed_spec(s@) == Some(v as int),
{
    let n = s.unicode_len();
    if n == 0 {
        return None;
    }
    let c0 = s.get_char(0);
    let neg = c0 == '-';
    let start: usize = if c0 == '-' || c0 == '+' {
        1
    } else {
        0
    };
    let ghost b = strip_sign(s@).1;
    proof {
        assert(b =~= s@.skip(start as int));
        assert(strip_sign(s@).0 == neg);
    }
    // Integer part: digits until a point or the end.
    let mut i: usize = start;
    let mut acc: u64 = 0;
    let mut over = false;
    while i < n && s.get_char(i) != '.'
        invariant
            start <= i <= n,
            forall|j: int| start <= j < i ==> s@[j] != '.',
            forall|j: int| start <= j < i ==> is_digit(#[trigger] s@[j]),
            !over ==> acc == digits_value(s@.subrange(start as int, i as int)) && acc
                < 100000000000,
            over ==> digits_value(s@.subrange(start as int, i as int)) >= 100000000000,
        decreases n - i,
    {
        let c = s.get_char(i);
        if !is_digit_c(c) {
            proof {
                assert(!is_digit(b[i - start]));
                lemma_dot_pos_bounds(b);
                assert(forall|j: int| 0 <= j < i + 1 - start ==> b[j] != '.') by {
                    assert(forall|j: int| 0 <= j < i - start ==> b[j] == s@[start + j]);
                }
                lemma_dot_pos_lower(b, i + 1 - start);
                assert(int_part(b)[i - start] == b[i - start]);
                assert(!all_digits(int_part(b)));
                assert(parse_fixed_spec(s@) is None);
            }
            return None;
        }
        let dv = digit_of(c);
        proof {
            let p = s@.subrange(start as int, i as int);
            let q = s@.subrange(start as int, i + 1);
            assert(q =~= p.push(s@[i as int]));
            assert(q.drop_last() =~= p);
            assert(q.last() == s@[i as int]);
            assert(digits_value(q) == digits_value(p) * 10 + digit_val(s@[i as int]));
            lemma_digits_value_nonneg(p);
            if over {
                lemma_digits_value_prefix(q, i - start);
                assert(q.take(i - start) =~= p);
            }
        }
        if !over {
            let next = acc * 10 + (dv as u64);
            if next >= 100000000000 {
                over = true;
            } else {
                acc = next;
            }
        }
        i = i + 1;
    }
    let int_len = i - start;
    let ghost ip = int_part(b);
    proof {
        assert(forall|j: int| 0 <= j < i - start ==> b[j] != '.' && is_digit(#[trigger] b[j]))
            by {
            assert(forall|j: int| 0 <= j < i - start ==> b[j] == s@[start + j]);
        }
        lemma_dot_pos_is(b, i - start);
        assert(ip =~= s@.subrange(start as int, i as int));
        assert(all_digits(ip));
    }
    // Fraction part: digits after the point, when there is one.
    let mut f: u64 = 0;
    let mut fcount: usize = 0;
    let mut round_up = false;
    let ghost fp = frac_part(b);
    if i < n {
        // s[i] is the point.
        proof {
            assert(fp =~= s@.skip(i + 1));
        }
        let mut k: usize = i + 1;
        while k < n
            invariant
                i + 1 <= k <= n,
                fcount == if k - i - 1 <= 4 {
                    k - i - 1
                } else {
                    4
                },
                forall|j: int| 0 <= j < k - i - 1 ==> is_digit(#[trigger] fp[j]),
                f == digits_value(fp.take(fcount as int)),
                f < 10000,
                round_up == (k - i - 1 > 4 && digit_val(fp[4]) >= 5),
            decreases n - k,
        {
            let c = s.get_char(k);
            proof {
                assert(fp[k - i - 1] == s@[k as int]);
            }
            if !is_digit_c(c) {
                proof {
                    assert(!is_digit(fp[k - i - 1]));
                    assert(!all_digits(frac_part(b)));
                    assert(parse_fixed_spec(s@) is None);
                }
                return None;
            }
            let dv = digit_of(c);
            if fcount < 4 {
                proof {
                    let p = fp.take(fcount as int);
                    let q = fp.take(fcount as int + 1);
                    assert(q =~= p.push(fp[fcount as int]));
                    assert(q.drop_last() =~= p);
                    assert(q.last() == fp[fcount as int]);
                    assert(digits_value(q) == digits_value(p) * 10 + digit_val(
                        fp[fcount as int],
                    ));
                    lemma_digits_value_nonneg(p);
                    crate::num::lemma_digits_value_len_bound(q, 4);
                    lemma_pow10_small();
                }
                f = f * 10 + (dv as u64);
                fcount = fcount + 1;
            } else if k == i + 5 {
                round_up = dv >= 5;
            }
            k = k + 1;
        }
        proof {
            assert(fp.len() == n - i - 1);
            assert(all_digits(fp));
            assert(fcount == if fp.len() <= 4 {
                fp.len() as int
            } else {
                4int
            });
            assert(round_up == (fp.len() > 4 && digit_val(fp[4]) >= 5));
        }
    } else {
        proof {
            assert(dot_pos(b) == b.len());
            assert(fp =~= Seq::<char>::empty());
            assert(all_digits(fp));
        }
    }
    if int_len == 0 && fcount == 0 {
        proof {
            assert(ip.len() == 0);
            assert(fp.len() == 0);
            assert(!(int_part(b).len() + frac_part(b).len() >= 1));
            assert(parse_fixed_spec(s@) is None);
        }
        return None;
    }
    if over {
        proof {
            lemma_digits_value_prefix(ip, ip.len() as int);
            assert(digits_value(ip) >= 100000000000);
            assert(parse_fixed_spec(s@) is None);
        }
        return None;
    }
    // The shown fraction value, padded to four places.
    let f4 = if fcount == 4 {
        f
    } else if fcount == 3 {
        f * 10
    } else if fcount == 2 {
        f * 100
    } else if fcount == 1 {
        f * 1000
    } else {
        0
    };
    proof {
        lemma_pow10_small();
        if fcount == 4 {
            assert(fp.len() >= 4);
            assert(frac4(fp) == fp.take(4));
            assert(f4 == digits_value(frac4(fp)));
        } else {
            assert(fp.len() == fcount);
            assert(fp.take(fcount as int) =~= fp);
            lemma_digits_value_append(fp, zeros(4 - fp.len()));
            lemma_digits_value_zeros(4 - fp.len(), Seq::empty());
            assert(zeros(4 - fp.len()) + Seq::<char>::empty() =~= zeros(4 - fp.len()));
            assert(pow10(zeros(4 - fp.len()).len() as int) == pow10(4 - fp.len()));
            assert(digits_value(frac4(fp)) == digits_value(fp) * pow10(4 - fp.len()));
            assert(f4 == digits_value(frac4(fp)));
        }
        lemma_digits_value_nonneg(frac4(fp));
        assert(digits_value(frac4(fp)) < 10000) by {
            assert(frac4(fp).len() == 4);
            crate::num::lemma_digits_value_len_bound(frac4(fp), 4);
        }
        assert(frac_units(fp) == f4 + if round_up {
            1int
        } else {
            0int
        });
        assert(valid_decimal(s@));
    }
    let mag: u64 = acc * 10000 + f4 + if round_up {
        1
    } else {
        0
    };
    proof {
        assert(mag == digits_value(ip) * 10000 + frac_units(fp));
        assert(decimal_units(s@) == if neg {
            -(mag as int)
        } else {
            mag as int
        });
    }
    if neg {
        Some(-(mag as i64))
    } else {
        Some(mag as i64)
    }
}

} // verus!

verus! {

/// Appends `k` zero digits to `out`.
#[verifier::loop_isolation(false)]
pub fn push_zero_digits(out: &mut String, k: usize)
    ensures
        final(out)@ == old(out)@ + zeros(k as int),
{
    proof {
        reveal_strlit("0");
    }
    let mut j: usize = 0;
    while j < k
        invariant
            j <= k,
            out@ == old(out)@ + zeros(j as int),
        decreases k - j,
    {
        out.append("0");
        proof {
            assert(out@ =~= old(out)@ + zeros(j + 1));
        }
        j = j + 1;
    }
}

/// The decimal text of a coordinate written with `d` decimals, exactly as
/// [`fmt_fixed`] says.
pub fn fixed_string(units: i64, d: usize) -> (r: String)
    requires
        d == 3 || d == 4,
    ensures
        r@ == fmt_fixed(units as int, d as int),
{
    proof {
        reveal_strlit("-");
        reveal_strlit(".");
        lemma_pow10_small();
    }
    let neg = units < 0;
    let mag0 = crate::num::abs_u64(units);
    let m_mag: u64 = if d == 3 {
        (mag0 + 5) / 10
    } else {
        mag0
    };
    let ghost m = half_away(units as int, pow10(4 - d as int));
    proof {
        if d == 3 {
            if units >= 0 {
                assert(m == ((units as int) + 5) / 10);
                assert(m_mag == m);
            } else {
                assert(m == -((-(units as int) + 5) / 10));
                assert(m_mag == -m);
            }
        } else {
            assert(pow10(0) == 1);
            if units >= 0 {
                vstd::arithmetic::div_mod::lemma_div_basics(units as int);
                assert(m == (units as int) / 1);
                assert(m == units as int);
            } else {
                vstd::arithmetic::div_mod::lemma_div_basics(-(units as int));
                assert(m == -((-(units as int)) / 1));
                assert(m == units as int);
            }
        }
        assert(m_mag == if m < 0 {
            -m
        } else {
            m
        });
    }
    let p: u64 = if d == 3 {
        1000
    } else {
        10000
    };
    proof {
        assert(p == pow10(d as int));
    }
    let ip = m_mag / p;
    let fpv = m_mag % p;
    let mut out = String::new();
    if neg && m_mag > 0 {
        out.append("-");
    }
    push_dec_digits(&mut out, ip);
    out.append(".");
    let dl = crate::num::dec_len(fpv);
    proof {
        lemma_dec_digits_len(fpv as int, d as int);
    }
    if dl < d {
        push_zero_digits(&mut out, d - dl);
    }
    push_dec_digits(&mut out, fpv);
    proof {
        assert(m < 0 <==> (neg && m_mag > 0));
        if dl < d {
            assert(out@ =~= fmt_fixed(units as int, d as int));
        } else {
            assert(zeros(0) =~= Seq::<char>::empty());
            assert(frac_digits(fpv as int, d as int) =~= dec_digits(fpv as int));
            assert(out@ =~= fmt_fixed(units as int, d as int));
        }
    }
    out
}

} // verus!

verus! {

/// Whether `s` holds only minus signs, points and digits.
pub open spec fn decimal_chars(s: Seq<char>) -> bool {
    forall|j: int|
        0 <= j < s.len() ==> (#[trigger] s[j] == '-' || s[j] == '.' || is_digit(s[j]))
}

/// Minus signs, points and digits are neither whitespace nor newlines.
pub proof fn lemma_decimal_chars_plain(s: Seq<char>)
    requires
        decimal_chars(s),
    ensures
        forall|j: int| 0 <= j < s.len() ==> !crate::text::is_space(#[trigger] s[j]),
        forall|j: int| 0 <= j < s.len() ==> (#[trigger] s[j]) != '\n',
{
}

/// The shape of a written coordinate: sign, point and digits only, a
/// digit at either end but for the sign, and at least `d` plus two
/// characters.
pub proof fn lemma_fmt_fixed_parts(u: int, d: int)
    requires
        d == 3 || d == 4,
    ensures
        decimal_chars(fmt_fixed(u, d)),
        fmt_fixed(u, d).len() >= d + 2,
        !is_space(fmt_fixed(u, d)[0]),
        fmt_fixed(u, d)[0] != '+',
        is_digit(fmt_fixed(u, d).last()),
{
    lemma_pow10_small();
    let m = half_away(u, pow10(4 - d));
    let mag = if m < 0 {
        -m
    } else {
        m
    };
    let ip = mag / pow10(d);
    let fp = mag % pow10(d);
    vstd::arithmetic::div_mod::lemma_mod_bound(mag, pow10(d));
    vstd::arithmetic::div_mod::lemma_div_pos_is_pos(mag, pow10(d));
    lemma_dec_digits_value(ip);
    lemma_dec_digits_value(fp);
    lemma_dec_digits_len(fp, d);
    let t = fmt_fixed(u, d);
    let fd = frac_digits(fp, d);
    assert(fd.len() == d);
    assert(forall|j: int| 0 <= j < fd.len() ==> is_digit(#[trigger] fd[j])) by {
        assert(forall|j: int|
            0 <= j < d - dec_digits(fp).len() ==> fd[j] == '0');
        assert(forall|j: int|
            d - dec_digits(fp).len() <= j < d ==> fd[j] == dec_digits(fp)[j - (d - dec_digits(
                fp,
            ).len())]);
    }
    assert(t.last() == fd.last());
    assert(forall|j: int|
        0 <= j < t.len() ==> (#[trigger] t[j] == '-' || t[j] == '.' || is_digit(t[j])));
    assert(t[0] == '-' || is_digit(t[0]));
}

/// Reading back a written coordinate yields exactly the value it shows.
#[verifier::rlimit(100)]
pub proof fn lemma_parse_fmt_fixed(u: int, d: int)
    requires
        d == 3 || d == 4,
        -100000000000000 <= u <= 100000000000000,
    ensures
        parse_fixed_spec(fmt_fixed(u, d)) == Some(shown_units(u, d)),
{
    lemma_pow10_small();
    let m = half_away(u, pow10(4 - d));
    let mag = if m < 0 {
        -m
    } else {
        m
    };
    let ip = mag / pow10(d);
    let fp = mag % pow10(d);
    vstd::arithmetic::div_mod::lemma_mod_bound(mag, pow10(d));
    vstd::arithmetic::div_mod::lemma_div_pos_is_pos(mag, pow10(d));
    vstd::arithmetic::div_mod::lemma_fundamental_div_mod(mag, pow10(d));
    lemma_dec_digits_value(ip);
    lemma_dec_digits_value(fp);
    lemma_dec_digits_len(fp, d);
    let t = fmt_fixed(u, d);
    let digs = dec_digits(ip);
    let fd = frac_digits(fp, d);
    let body = digs + seq!['.'] + fd;
    // The sign strips off exactly when the shown value is negative.
    let sb = strip_sign(t);
    if m < 0 {
        assert(t[0] == '-');
        assert(sb.0 == true);
        assert(sb.1 =~= body);
    } else {
        assert(t =~= body);
        assert(t[0] == digs[0]);
        assert(is_digit(t[0]));
        assert(sb.0 == false);
        assert(sb.1 =~= body);
    }
    let b = sb.1;
    // The point sits right after the integer digits.
    assert(forall|j: int| 0 <= j < digs.len() ==> b[j] == digs[j]);
    assert(forall|j: int| 0 <= j < digs.len() ==> b[j] != '.') by {
        assert(forall|j: int| 0 <= j < digs.len() ==> is_digit(#[trigger] digs[j]));
    }
    assert(b[digs.len() as int] == '.');
    lemma_dot_pos_is(b, digs.len() as int);
    assert(int_part(b) =~= digs);
    assert(frac_part(b) =~= fd);
    assert(all_digits(fd)) by {
        assert(forall|j: int|
            0 <= j < d - dec_digits(fp).len() ==> fd[j] == '0');
        assert(forall|j: int|
            d - dec_digits(fp).len() <= j < d ==> fd[j] == dec_digits(fp)[j - (d - dec_digits(
                fp,
            ).len())]);
    }
    // The integer part stays below the accepted bound.
    assert(ip <= mag);
    assert(digits_value(int_part(b)) < 100000000000);
    assert(valid_decimal(t));
    // The value read back.
    assert(digits_value(fd) == fp) by {
        lemma_digits_value_zeros(d - dec_digits(fp).len(), dec_digits(fp));
    }
    if d == 4 {
        assert(frac4(fd) =~= fd);
        assert(frac_units(fd) == fp);
    } else {
        assert(frac4(fd) =~= fd + zeros(1));
        lemma_digits_value_append(fd, zeros(1));
        lemma_digits_value_zeros(1, Seq::empty());
        assert(zeros(1) + Seq::<char>::empty() =~= zeros(1));
        assert(digits_value(zeros(1)) == 0);
        assert(pow10(zeros(1).len() as int) == 10);
        assert(frac_units(fd) == fp * 10);
    }
    let units = decimal_units(t);
    assert(units == if sb.0 {
        -(ip * 10000 + frac_units(fd))
    } else {
        ip * 10000 + frac_units(fd)
    });
    // The shown value equals the digits read back, scaled.
    assert(ip * 10000 + frac_units(fd) == mag * pow10(4 - d)) by {
        if d == 4 {
            assert(mag == ip * 10000 + fp);
            assert(pow10(0) == 1);
        } else {
            assert(mag == ip * 1000 + fp);
            assert(ip * 10000 + fp * 10 == (ip * 1000 + fp) * 10) by (nonlinear_arith);
        }
    }
    assert(shown_units(u, d) == m * pow10(4 - d));
    if m < 0 {
        assert(units == -(mag * pow10(4 - d)));
        assert(-(mag * pow10(4 - d)) == m * pow10(4 - d)) by (nonlinear_arith)
            requires
                mag == -m,
        ;
    } else {
        assert(units == mag * pow10(4 - d));
    }
    assert(parse_fixed_spec(t) == Some(shown_units(u, d)));
}

/// A coordinate written with all four decimals shows exactly itself.
pub proof fn lemma_shown4(u: int)
    ensures
        shown_units(u, 4) == u,
{
    lemma_pow10_small();
    vstd::arithmetic::div_mod::lemma_div_basics(u);
    if u < 0 {
        vstd::arithmetic::div_mod::lemma_div_basics(-u);
    }
}

/// Rounding to the shown value is idempotent, and writing the shown value
/// gives the same text again.
pub proof fn lemma_fmt_of_shown(u: int, d: int)
    requires
        d == 3 || d == 4,
    ensures
        shown_units(shown_units(u, d), d) == shown_units(u, d),
        fmt_fixed(shown_units(u, d), d) == fmt_fixed(u, d),
{
    lemma_pow10_small();
    if d == 4 {
        lemma_shown4(u);
        lemma_shown4(shown_units(u, 4));
    } else {
        let m = half_away(u, 10);
        let s = shown_units(u, 3);
        assert(s == m * 10);
        if m >= 0 {
            assert(s >= 0) by (nonlinear_arith)
                requires
                    s == m * 10 && m >= 0,
            ;
            vstd::arithmetic::div_mod::lemma_fundamental_div_mod_converse(m * 10 + 5, 10, m, 5);
            assert(half_away(s, 10) == (s + 5) / 10);
            assert((m * 10 + 5) / 10 == m);
        } else {
            assert(s < 0) by (nonlinear_arith)
                requires
                    s == m * 10 && m < 0,
            ;
            vstd::arithmetic::div_mod::lemma_fundamental_div_mod_converse(
                (-m) * 10 + 5,
                10,
                -m,
                5,
            );
            assert(-s == (-m) * 10) by (nonlinear_arith)
                requires
                    s == m * 10,
            ;
            assert(half_away(s, 10) == -(((-s) + 5) / 10));
            assert(((-m) * 10 + 5) / 10 == -m);
        }
        assert(half_away(s, 10) == m);
    }
}

} // verus!
