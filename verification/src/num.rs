//! Decimal digits and integers: exact specifications for the digit strings
//! this library reads and writes, with verified parsing and rendering.

use vstd::prelude::*;
use vstd::string::StrSliceExecFns;
use vstd::string::StringExecFns;

verus! {

/// Whether `c` is a decimal digit.
pub open spec fn is_digit(c: char) -> bool {
    '0' <= c && c <= '9'
}

/// The value of a digit character; zero on anything else.
pub open spec fn digit_val(c: char) -> int {
    if c == '1' {
        1
    } else if c == '2' {
        2
    } else if c == '3' {
        3
    } else if c == '4' {
        4
    } else if c == '5' {
        5
    } else if c == '6' {
        6
    } else if c == '7' {
        7
    } else if c == '8' {
        8
    } else if c == '9' {
        9
    } else {
        0
    }
}

/// The digit character for a value from zero to nine.
pub open spec fn digit_char(d: int) -> char {
    if d == 1 {
        '1'
    } else if d == 2 {
        '2'
    } else if d == 3 {
        '3'
    } else if d == 4 {
        '4'
    } else if d == 5 {
        '5'
    } else if d == 6 {
        '6'
    } else if d == 7 {
        '7'
    } else if d == 8 {
        '8'
    } else if d == 9 {
        '9'
    } else {
        '0'
    }
}

/// Whether every character of `s` is a decimal digit.
pub open spec fn all_digits(s: Seq<char>) -> bool {
    forall|j: int| 0 <= j < s.len() ==> is_digit(#[trigger] s[j])
}

/// The value of a digit string, most significant digit first.
pub open spec fn digits_value(s: Seq<char>) -> int
    decreases s.len(),
{
    if s.len() == 0 {
        0
    } else {
        digits_value(s.drop_last()) * 10 + digit_val(s.last())
    }
}

/// Ten to the `k`-th power.
pub open spec fn pow10(k: int) -> int
    decreases k,
{
    if k <= 0 {
        1
    } else {
        10 * pow10(k - 1)
    }
}

/// The value of a digit string is never negative.
pub proof fn lemma_digits_value_nonneg(s: Seq<char>)
    ensures
        digits_value(s) >= 0,
    decreases s.len(),
{
    if s.len() > 0 {
        lemma_digits_value_nonneg(s.drop_last());
    }
}

/// The value of two digit strings read as one.
pub proof fn lemma_digits_value_append(a: Seq<char>, b: Seq<char>)
    ensures
        digits_value(a + b) == digits_value(a) * pow10(b.len() as int) + digits_value(b),
    decreases b.len(),
{
    if b.len() == 0 {
        assert(a + b =~= a);
    } else {
        let b0 = b.drop_last();
        lemma_digits_value_append(a, b0);
        assert((a + b).drop_last() =~= a + b0);
        assert((a + b).last() == b.last());
        assert(digits_value(a + b) == (digits_value(a) * pow10(b0.len() as int) + digits_value(
            b0,
        )) * 10 + digit_val(b.last())) by {
            assert(digits_value(a + b) == digits_value((a + b).drop_last()) * 10 + digit_val(
                (a + b).last(),
            ));
        }
        assert(digits_value(a) * pow10(b0.len() as int) * 10 == digits_value(a) * pow10(
            b.len() as int,
        )) by {
            assert(pow10(b.len() as int) == pow10(b0.len() as int) * 10);
            vstd::arithmetic::mul::lemma_mul_is_associative(
                digits_value(a),
                pow10(b0.len() as int),
                10,
            );
        }
        vstd::arithmetic::mul::lemma_mul_is_distributive_add_other_way(
            10,
            digits_value(a) * pow10(b0.len() as int),
            digits_value(b0),
        );
    }
}

/// The digit string of a non-negative integer, no sign, no leading zeros.
pub open spec fn dec_digits(n: int) -> Seq<char>
    recommends
        n >= 0,
    decreases n,
{
    if n < 10 {
        seq![digit_char(n)]
    } else {
        dec_digits(n / 10).push(digit_char(n % 10))
    }
}

/// Rendering a non-negative integer yields digits that read back as it.
pub proof fn lemma_dec_digits_value(n: int)
    requires
        n >= 0,
    ensures
        all_digits(dec_digits(n)),
        digits_value(dec_digits(n)) == n,
        dec_digits(n).len() >= 1,
    decreases n,
{
    if n < 10 {
        let s = dec_digits(n);
        assert(s == seq![digit_char(n)]);
        assert(s.len() == 1);
        assert(s.last() == digit_char(n));
        assert(s.drop_last() =~= Seq::<char>::empty());
        assert(digits_value(s.drop_last()) == 0);
        assert(digits_value(s) == 0 * 10 + digit_val(s.last()));
        assert(digit_val(digit_char(n)) == n);
    } else {
        lemma_dec_digits_value(n / 10);
        let s = dec_digits(n);
        assert(s.drop_last() =~= dec_digits(n / 10));
        assert(digit_val(digit_char(n % 10)) == n % 10);
        assert(digits_value(s) == (n / 10) * 10 + n % 10);
        assert((n / 10) * 10 + n % 10 == n) by {
            vstd::arithmetic::div_mod::lemma_fundamental_div_mod(n, 10);
        }
        assert(forall|j: int|
            0 <= j < s.len() ==> is_digit(#[trigger] s[j])) by {
            assert(forall|j: int|
                0 <= j < s.len() - 1 ==> s[j] == dec_digits(n / 10)[j]);
        }
    }
}

/// An integer below the `k`-th power of ten renders in at most `k` digits.
pub proof fn lemma_dec_digits_len(n: int, k: int)
    requires
        0 <= n,
        1 <= k,
        n < pow10(k),
    ensures
        dec_digits(n).len() <= k,
    decreases n,
{
    if n < 10 {
    } else {
        assert(k >= 2) by {
            if k == 1 {
                assert(pow10(0) == 1);
                assert(pow10(1) == 10);
            }
        }
        assert(n / 10 < pow10(k - 1)) by {
            assert(pow10(k) == 10 * pow10(k - 1));
            vstd::arithmetic::div_mod::lemma_fundamental_div_mod(n, 10);
        }
        lemma_dec_digits_len(n / 10, k - 1);
    }
}

/// A digit string's value is below ten to the power of its length.
pub proof fn lemma_digits_value_len_bound(s: Seq<char>, k: int)
    requires
        s.len() <= k,
    ensures
        digits_value(s) < pow10(k),
    decreases s.len(),
{
    if s.len() == 0 {
        lemma_pow10_pos(k);
    } else {
        lemma_digits_value_len_bound(s.drop_last(), k - 1);
        assert(digit_val(s.last()) <= 9);
        assert(pow10(k) == 10 * pow10(k - 1));
    }
}

/// The signed decimal text of an integer.
pub open spec fn int_text(n: int) -> Seq<char> {
    if n < 0 {
        seq!['-'] + dec_digits(-n)
    } else {
        dec_digits(n)
    }
}

/// Executable test for [`is_digit`].
pub fn is_digit_c(c: char) -> (r: bool)
    ensures
        r == is_digit(c),
{
    let u = c as u32;
    48 <= u && u <= 57
}

/// The value of a digit character.
pub fn digit_of(c: char) -> (d: u8)
    requires
        is_digit(c),
    ensures
        d as int == digit_val(c),
        d < 10,
{
    if c == '1' {
        1
    } else if c == '2' {
        2
    } else if c == '3' {
        3
    } else if c == '4' {
        4
    } else if c == '5' {
        5
    } else if c == '6' {
        6
    } else if c == '7' {
        7
    } else if c == '8' {
        8
    } else if c == '9' {
        9
    } else {
        proof {
            assert(c == '0');
        }
        0
    }
}

/// The one-character text of a digit value.
pub fn digit_str(d: u8) -> (r: &'static str)
    requires
        d < 10,
    ensures
        r@ == seq![digit_char(d as int)],
{
    proof {
        reveal_strlit("0");
        reveal_strlit("1");
        reveal_strlit("2");
        reveal_strlit("3");
        reveal_strlit("4");
        reveal_strlit("5");
        reveal_strlit("6");
        reveal_strlit("7");
        reveal_strlit("8");
        reveal_strlit("9");
    }
    let r = if d == 1 {
        "1"
    } else if d == 2 {
        "2"
    } else if d == 3 {
        "3"
    } else if d == 4 {
        "4"
    } else if d == 5 {
        "5"
    } else if d == 6 {
        "6"
    } else if d == 7 {
        "7"
    } else if d == 8 {
        "8"
    } else if d == 9 {
        "9"
    } else {
        "0"
    };
    proof {
        assert(r@ =~= seq![digit_char(d as int)]);
    }
    r
}

/// Appends the decimal digits of `n` to `out`.
pub fn push_dec_digits(out: &mut String, n: u64)
    ensures
        final(out)@ == old(out)@ + dec_digits(n as int),
    decreases n,
{
    if n < 10 {
        out.append(digit_str(n as u8));
        proof {
            assert(out@ =~= old(out)@ + dec_digits(n as int));
        }
    } else {
        push_dec_digits(out, n / 10);
        out.append(digit_str((n % 10) as u8));
        proof {
            assert(out@ =~= old(out)@ + dec_digits(n as int));
        }
    }
}

} // verus!

verus! {

/// The sign of an integer field and the text after it: a leading `+` or
/// `-` is consumed, anything else leaves the text as it stands.
pub open spec fn strip_sign(s: Seq<char>) -> (bool, Seq<char>) {
    if s.len() > 0 && s[0] == '+' {
        (false, s.drop_first())
    } else if s.len() > 0 && s[0] == '-' {
        (true, s.drop_first())
    } else {
        (false, s)
    }
}

/// Whether `s` is an optional sign followed by at least one digit.
pub open spec fn valid_int_text(s: Seq<char>) -> bool {
    let (neg, d) = strip_sign(s);
    d.len() > 0 && all_digits(d)
}

/// The signed value of an integer field; meaningful when it is valid.
pub open spec fn int_text_value(s: Seq<char>) -> int {
    let (neg, d) = strip_sign(s);
    if neg {
        -digits_value(d)
    } else {
        digits_value(d)
    }
}

/// What parsing a 32-bit integer field yields: its value when the text is
/// an optional sign, digits only, and the value fits; nothing otherwise.
pub open spec fn parse_i32_spec(s: Seq<char>) -> Option<int> {
    if valid_int_text(s) && -2147483648 <= int_text_value(s) <= 2147483647 {
        Some(int_text_value(s))
    } else {
        None
    }
}

/// Whether `s` is an optional `+` followed by at least one digit.
pub open spec fn valid_uint_text(s: Seq<char>) -> bool {
    let d = if s.len() > 0 && s[0] == '+' {
        s.drop_first()
    } else {
        s
    };
    d.len() > 0 && all_digits(d)
}

/// The value of an unsigned integer field; meaningful when it is valid.
pub open spec fn uint_text_value(s: Seq<char>) -> int {
    let d = if s.len() > 0 && s[0] == '+' {
        s.drop_first()
    } else {
        s
    };
    digits_value(d)
}

/// What parsing an unsigned size field yields.
pub open spec fn parse_usize_spec(s: Seq<char>) -> Option<int> {
    if valid_uint_text(s) && uint_text_value(s) <= usize::MAX {
        Some(uint_text_value(s))
    } else {
        None
    }
}

/// The unsigned-field helpers read through an optional leading `+`.
pub proof fn lemma_uint_text_parts(s: Seq<char>, start: int)
    requires
        0 <= start <= s.len(),
        start == 1 <==> (s.len() > 0 && s[0] == '+'),
        start == 0 || start == 1,
    ensures
        uint_text_value(s) == digits_value(s.skip(start)),
        valid_uint_text(s) == (s.len() - start > 0 && all_digits(s.skip(start))),
{
    if start == 1 {
        assert(s.drop_first() =~= s.skip(1));
    } else {
        assert(s.skip(0) =~= s);
    }
}

/// Powers of ten are positive.
pub proof fn lemma_pow10_pos(k: int)
    ensures
        pow10(k) >= 1,
    decreases k,
{
    if k > 0 {
        lemma_pow10_pos(k - 1);
    }
}

/// A digit string is worth at least any of its prefixes.
pub proof fn lemma_digits_value_prefix(d: Seq<char>, k: int)
    requires
        0 <= k <= d.len(),
    ensures
        digits_value(d) >= digits_value(d.take(k)),
{
    let a = d.take(k);
    let b = d.skip(k);
    assert(d =~= a + b);
    lemma_digits_value_append(a, b);
    lemma_digits_value_nonneg(a);
    lemma_digits_value_nonneg(b);
    lemma_pow10_pos(b.len() as int);
    vstd::arithmetic::mul::lemma_mul_inequality(1, pow10(b.len() as int), digits_value(a));
}

/// Reads the digit run of `s` from `from` on. Yields its value, capped at
/// ten billion, or nothing if some character of it is not a digit.
fn digit_run_value(s: &str, from: usize) -> (r: Option<u64>)
    requires
        from <= s@.len(),
    ensures
        r is Some <==> all_digits(s@.skip(from as int)),
        r matches Some(v) ==> v <= 10000000000 && (v < 10000000000 ==> v == digits_value(
            s@.skip(from as int),
        )) && (v == 10000000000 ==> digits_value(s@.skip(from as int)) >= 10000000000),
{
    let ghost d = s@.skip(from as int);
    let n = s.unicode_len();
    let mut acc: u64 = 0;
    let mut i: usize = from;
    while i < n
        invariant
            from <= i <= n,
            n == s@.len(),
            d == s@.skip(from as int),
            forall|j: int| from <= j < i ==> is_digit(#[trigger] s@[j]),
            acc <= 10000000000,
            acc < 10000000000 ==> acc == digits_value(s@.subrange(from as int, i as int)),
            acc == 10000000000 ==> digits_value(s@.subrange(from as int, i as int))
                >= 10000000000,
        decreases n - i,
    {
        let c = s.get_char(i);
        if !is_digit_c(c) {
            proof {
                assert(!is_digit(d[i - from]));
            }
            return None;
        }
        let dv = digit_of(c);
        proof {
            let p = s@.subrange(from as int, i as int);
            let q = s@.subrange(from as int, i + 1);
            assert(q =~= p.push(s@[i as int]));
            assert(q.drop_last() =~= p);
            assert(digits_value(q) == digits_value(p) * 10 + digit_val(s@[i as int]));
            lemma_digits_value_nonneg(p);
        }
        let next = acc * 10 + (dv as u64);
        if next >= 10000000000 {
            acc = 10000000000;
        } else {
            acc = next;
        }
        i = i + 1;
    }
    proof {
        assert(s@.subrange(from as int, n as int) =~= d);
        assert(forall|j: int| 0 <= j < d.len() ==> is_digit(#[trigger] d[j]));
    }
    Some(acc)
}

/// Parses a 32-bit integer field, exactly as [`parse_i32_spec`] says.
pub fn parse_i32_field(s: &str) -> (r: Option<i32>)
    ensures
        r is Some <==> parse_i32_spec(s@) is Some,
        r matches Some(v) ==> parse_i32_spec(s@) == Some(v as int),
{
    let n = s.unicode_len();
    if n == 0 {
        return None;
    }
    let c0 = s.get_char(0);
    let neg = c0 == '-';
    let start: usize = if c0 == '-' || c0 == '+' {
        1
    } else {
        0
    };
    if start == n {
        return None;
    }
    proof {
        let (sn, sd) = strip_sign(s@);
        assert(sd =~= s@.skip(start as int));
        assert(sn == neg);
    }
    let v = match digit_run_value(s, start) {
        Some(v) => v,
        None => {
            return None;
        },
    };
    let limit: u64 = if neg {
        2147483648
    } else {
        2147483647
    };
    if v > limit {
        proof {
            if v == 10000000000 {
                assert(digits_value(s@.skip(start as int)) >= 10000000000);
            }
        }
        None
    } else {
        if neg {
            Some((-(v as i64)) as i32)
        } else {
            Some(v as i32)
        }
    }
}

/// Parses an unsigned size field, exactly as [`parse_usize_spec`] says.
pub fn parse_usize_field(s: &str) -> (r: Option<usize>)
    ensures
        r is Some <==> parse_usize_spec(s@) is Some,
        r matches Some(v) ==> parse_usize_spec(s@) == Some(v as int),
{
    let n = s.unicode_len();
    if n == 0 {
        return None;
    }
    let start: usize = if s.get_char(0) == '+' {
        1
    } else {
        0
    };
    if start == n {
        return None;
    }
    let ghost d = if s@.len() > 0 && s@[0] == '+' {
        s@.drop_first()
    } else {
        s@
    };
    proof {
        assert(d =~= s@.skip(start as int));
    }
    let mut acc: usize = 0;
    let mut i: usize = start;
    while i < n
        invariant
            start <= i <= n,
            start <= 1,
            n == s@.len(),
            start == 1 <==> (s@.len() > 0 && s@[0] == '+'),
            d == s@.skip(start as int),
            forall|j: int| start <= j < i ==> is_digit(#[trigger] s@[j]),
            acc == digits_value(s@.subrange(start as int, i as int)),
        decreases n - i,
    {
        let c = s.get_char(i);
        if !is_digit_c(c) {
            proof {
                lemma_uint_text_parts(s@, start as int);
                assert(!is_digit(d[i - start]));
            }
            return None;
        }
        let dv = digit_of(c);
        proof {
            let p = s@.subrange(start as int, i as int);
            let q = s@.subrange(start as int, i + 1);
            assert(q =~= p.push(s@[i as int]));
            assert(q.drop_last() =~= p);
            assert(q.last() == s@[i as int]);
            assert(digits_value(q) == digits_value(p) * 10 + digit_val(s@[i as int]));
            lemma_digits_value_nonneg(p);
        }
        let m = match acc.checked_mul(10) {
            Some(m) => m,
            None => {
                proof {
                    let p = s@.subrange(start as int, i as int);
                    let q = s@.subrange(start as int, i + 1);
                    assert(q.drop_last() =~= p);
                    assert(q.last() == s@[i as int]);
                    assert(digits_value(q) == digits_value(p) * 10 + digit_val(s@[i as int]));
                    lemma_digits_value_prefix(d, i + 1 - start);
                    assert(d.take(i + 1 - start) =~= q);
                    lemma_uint_text_parts(s@, start as int);
                    assert(digits_value(d) > usize::MAX);
                }
                return None;
            },
        };
        acc = match m.checked_add(dv as usize) {
            Some(a) => a,
            None => {
                proof {
                    let p = s@.subrange(start as int, i as int);
                    let q = s@.subrange(start as int, i + 1);
                    assert(q.drop_last() =~= p);
                    assert(q.last() == s@[i as int]);
                    assert(digits_value(q) == digits_value(p) * 10 + digit_val(s@[i as int]));
                    lemma_digits_value_prefix(d, i + 1 - start);
                    assert(d.take(i + 1 - start) =~= q);
                    lemma_uint_text_parts(s@, start as int);
                    assert(digits_value(d) > usize::MAX);
                }
                return None;
            },
        };
        i = i + 1;
    }
    proof {
        assert(s@.subrange(start as int, n as int) =~= d);
        assert(forall|j: int| 0 <= j < d.len() ==> is_digit(#[trigger] d[j]));
        lemma_uint_text_parts(s@, start as int);
    }
    Some(acc)
}

} // verus!

verus! {

/// Any 64-bit value renders in at most twenty digits.
pub proof fn lemma_dec_digits_len_u64(n: int)
    requires
        0 <= n <= u64::MAX,
    ensures
        dec_digits(n).len() <= 20,
{
    reveal_with_fuel(pow10, 21);
    assert(pow10(20) == 100000000000000000000int);
    lemma_dec_digits_len(n, 20);
}

/// The count of decimal digits of a non-negative integer.
pub fn dec_len(n: u64) -> (r: usize)
    ensures
        r == dec_digits(n as int).len(),
        1 <= r <= 20,
    decreases n,
{
    if n < 10 {
        1
    } else {
        proof {
            lemma_dec_digits_len_u64(n as int);
        }
        1 + dec_len(n / 10)
    }
}

/// The magnitude of a signed 64-bit integer, as an unsigned value.
pub fn abs_u64(n: i64) -> (r: u64)
    ensures
        r == if n >= 0 {
            n as int
        } else {
            -(n as int)
        },
{
    if n >= 0 {
        n as u64
    } else {
        ((-1 - n) as u64) + 1
    }
}

/// The signed decimal text of a 32-bit integer.
pub fn int_string(n: i32) -> (r: String)
    ensures
        r@ == int_text(n as int),
{
    proof {
        reveal_strlit("-");
    }
    let mut out = String::new();
    if n < 0 {
        out.append("-");
        let mag = ((-1 - (n as i64)) as u64) + 1;
        push_dec_digits(&mut out, mag);
        proof {
            assert(out@ =~= int_text(n as int));
        }
    } else {
        push_dec_digits(&mut out, n as u64);
        proof {
            assert(out@ =~= int_text(n as int));
        }
    }
    out
}

/// The decimal text of an atom count.
pub fn count_string(n: usize) -> (r: String)
    ensures
        r@ == dec_digits(n as int),
{
    let mut out = String::new();
    push_dec_digits(&mut out, n as u64);
    proof {
        assert(out@ =~= dec_digits(n as int));
    }
    out
}

} // verus!

verus! {

/// The text of an integer holds a possible minus sign and then digits:
/// nothing in it is whitespace, a newline, or a plus sign, and reading it
/// back as a 32-bit field yields the integer itself.
pub proof fn lemma_parse_int_text(k: int)
    requires
        -2147483648 <= k <= 2147483647,
    ensures
        parse_i32_spec(int_text(k)) == Some(k),
        int_text(k).len() >= 1,
        forall|j: int|
            0 <= j < int_text(k).len() ==> (#[trigger] int_text(k)[j] == '-' || is_digit(
                int_text(k)[j],
            )),
{
    let t = int_text(k);
    if k < 0 {
        lemma_dec_digits_value(-k);
        let d = dec_digits(-k);
        assert(t[0] == '-');
        let sb = strip_sign(t);
        assert(sb.0 == true);
        assert(sb.1 =~= d);
        assert(valid_int_text(t));
        assert(int_text_value(t) == -digits_value(d));
        assert(forall|j: int|
            0 <= j < t.len() ==> (#[trigger] t[j] == '-' || is_digit(t[j]))) by {
            assert(forall|j: int| 1 <= j < t.len() ==> t[j] == d[j - 1]);
        }
    } else {
        lemma_dec_digits_value(k);
        let d = dec_digits(k);
        assert(t == d);
        assert(is_digit(t[0]));
        assert(t[0] != '+' && t[0] != '-');
        let sb = strip_sign(t);
        assert(sb.0 == false);
        assert(sb.1 == t);
        assert(valid_int_text(t));
        assert(int_text_value(t) == digits_value(d));
    }
}

/// The digit text of a count reads back as an unsigned size.
pub proof fn lemma_parse_count(n: int)
    requires
        0 <= n <= usize::MAX,
    ensures
        parse_usize_spec(dec_digits(n)) == Some(n),
        dec_digits(n).len() >= 1,
{
    lemma_dec_digits_value(n);
    let d = dec_digits(n);
    assert(is_digit(d[0]));
    assert(d[0] != '+');
    assert(valid_uint_text(d));
    assert(uint_text_value(d) == digits_value(d));
}

/// Digits and the minus sign are neither whitespace nor newlines.
pub proof fn lemma_int_chars_plain(k: int)
    requires
        -2147483648 <= k <= 2147483647,
    ensures
        forall|j: int|
            0 <= j < int_text(k).len() ==> !crate::text::is_space(#[trigger] int_text(k)[j])
                && int_text(k)[j] != '\n',
{
    lemma_parse_int_text(k);
}

} // verus!
