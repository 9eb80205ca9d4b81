//! Character-level helpers: the whitespace set, trimming, line splitting
//! and whitespace-separated tokens, each with an exact specification.

use vstd::prelude::*;
use vstd::string::StrSliceExecFns;

verus! {

/// The whitespace characters this library recognises: the ASCII subset of
/// the Unicode white-space set.
pub open spec fn is_space(c: char) -> bool {
    c == ' ' || c == '\t' || c == '\n' || c == '\r' || c == '\u{b}' || c == '\u{c}'
}

/// Executable test for [`is_space`].
pub fn is_space_c(c: char) -> (r: bool)
    ensures
        r == is_space(c),
{
    c == ' ' || c == '\t' || c == '\n' || c == '\r' || c == '\u{b}' || c == '\u{c}'
}

/// `s` without its leading whitespace.
pub open spec fn trim_front(s: Seq<char>) -> Seq<char>
    decreases s.len(),
{
    if s.len() > 0 && is_space(s[0]) {
        trim_front(s.drop_first())
    } else {
        s
    }
}

/// `s` without its trailing whitespace.
pub open spec fn trim_back(s: Seq<char>) -> Seq<char>
    decreases s.len(),
{
    if s.len() > 0 && is_space(s.last()) {
        trim_back(s.drop_last())
    } else {
        s
    }
}

/// `s` without leading and trailing whitespace.
pub open spec fn trim_spec(s: Seq<char>) -> Seq<char> {
    trim_back(trim_front(s))
}

/// If the first `a` characters of `s` are whitespace and the one at `a` is
/// not, trimming the front keeps exactly the part from `a` on.
pub proof fn lemma_trim_front_exact(s: Seq<char>, a: int)
    requires
        0 <= a <= s.len(),
        forall|j: int| 0 <= j < a ==> is_space(s[j]),
        a < s.len() ==> !is_space(s[a]),
    ensures
        trim_front(s) == s.subrange(a, s.len() as int),
    decreases a,
{
    if a == 0 {
        if s.len() == 0 || !is_space(s[0]) {
            assert(trim_front(s) == s);
            assert(s.subrange(0, s.len() as int) =~= s);
        }
    } else {
        let t = s.drop_first();
        assert(forall|j: int| 0 <= j < a - 1 ==> is_space(t[j]));
        lemma_trim_front_exact(t, a - 1);
        assert(t.subrange(a - 1, t.len() as int) =~= s.subrange(a, s.len() as int));
    }
}

/// If the characters from `b` on are whitespace and the one before `b` is
/// not, trimming the back keeps exactly the first `b` characters.
pub proof fn lemma_trim_back_exact(s: Seq<char>, b: int)
    requires
        0 <= b <= s.len(),
        forall|j: int| b <= j < s.len() ==> is_space(s[j]),
        b > 0 ==> !is_space(s[b - 1]),
    ensures
        trim_back(s) == s.subrange(0, b),
    decreases s.len() - b,
{
    if b == s.len() {
        if s.len() == 0 || !is_space(s.last()) {
            assert(trim_back(s) == s);
            assert(s.subrange(0, b) =~= s);
        } else {
            assert(!is_space(s[b - 1]));
            assert(false);
        }
    } else {
        let t = s.drop_last();
        assert(is_space(s.last()));
        lemma_trim_back_exact(t, b);
        assert(t.subrange(0, b) =~= s.subrange(0, b));
    }
}

/// Trimming a sequence that is whitespace before `a`, whitespace from `b`
/// on, and bounded by non-whitespace characters in between keeps exactly
/// the part from `a` to `b`.
pub proof fn lemma_trim_exact(s: Seq<char>, a: int, b: int)
    requires
        0 <= a <= b <= s.len(),
        forall|j: int| 0 <= j < a ==> is_space(s[j]),
        forall|j: int| b <= j < s.len() ==> is_space(s[j]),
        a < b ==> !is_space(s[a]) && !is_space(s[b - 1]),
        a == b ==> a == 0 && b == s.len(),
    ensures
        trim_spec(s) == s.subrange(a, b),
    decreases s.len(),
{
    if a == b {
        assert(s.len() == 0);
        assert(trim_front(s) == s);
        assert(trim_back(s) == s);
        assert(s.subrange(0, 0) =~= s);
    } else {
        lemma_trim_front_exact(s, a);
        let t = s.subrange(a, s.len() as int);
        assert(forall|j: int| b - a <= j < t.len() ==> is_space(t[j]));
        lemma_trim_back_exact(t, b - a);
        assert(t.subrange(0, b - a) =~= s.subrange(a, b));
    }
}

/// Trimming a sequence with no whitespace at either end changes nothing.
pub proof fn lemma_trim_id(s: Seq<char>)
    requires
        s.len() > 0 ==> !is_space(s[0]) && !is_space(s[s.len() - 1]),
    ensures
        trim_spec(s) == s,
{
    lemma_trim_exact(s, 0, s.len() as int);
    assert(s.subrange(0, s.len() as int) =~= s);
}

/// Executable trim with the exact specification [`trim_spec`].
pub fn trim_str(s: &str) -> (r: &str)
    ensures
        r@ == trim_spec(s@),
{
    let n = s.unicode_len();
    let mut a: usize = 0;
    while a < n && is_space_c(s.get_char(a))
        invariant
            n == s@.len(),
            0 <= a <= n,
            forall|j: int| 0 <= j < a ==> is_space(s@[j]),
        decreases n - a,
    {
        a = a + 1;
    }
    if a == n {
        proof {
            lemma_trim_front_exact(s@, a as int);
            assert(trim_front(s@).len() == 0);
            assert(trim_back(trim_front(s@)) == trim_front(s@));
        }
        let r = s.substring_char(n, n);
        proof {
            assert(r@ =~= trim_spec(s@));
        }
        r
    } else {
        let mut b: usize = n;
        while b > a + 1 && is_space_c(s.get_char(b - 1))
            invariant
                n == s@.len(),
                0 <= a < b <= n,
                !is_space(s@[a as int]),
                forall|j: int| b <= j < n ==> is_space(s@[j]),
            decreases b,
        {
            b = b - 1;
        }
        proof {
            assert(!is_space(s@[b - 1]));
            lemma_trim_exact(s@, a as int, b as int);
        }
        s.substring_char(a, b)
    }
}

/// The index of the first newline in `t`, or its length if it has none.
pub open spec fn newline_pos(t: Seq<char>) -> int
    decreases t.len(),
{
    if t.len() == 0 {
        0
    } else if t[0] == '\n' {
        0
    } else {
        1 + newline_pos(t.drop_first())
    }
}

/// `newline_pos` is the least index holding a newline.
pub proof fn lemma_newline_pos_is(t: Seq<char>, e: int)
    requires
        0 <= e <= t.len(),
        forall|j: int| 0 <= j < e ==> t[j] != '\n',
        e < t.len() ==> t[e] == '\n',
    ensures
        newline_pos(t) == e,
    decreases e,
{
    if e == 0 {
    } else {
        let u = t.drop_first();
        assert(forall|j: int| 0 <= j < e - 1 ==> u[j] != '\n');
        lemma_newline_pos_is(u, e - 1);
    }
}

/// The line that starts at position `p` of `s`: the text up to the next
/// newline, with one carriage return before that newline removed.
pub open spec fn spec_line(s: Seq<char>, p: int) -> Seq<char>
    recommends
        0 <= p <= s.len(),
{
    let t = s.skip(p);
    let e = newline_pos(t);
    let raw = t.subrange(0, e);
    if e < t.len() && raw.len() > 0 && raw.last() == '\r' {
        raw.drop_last()
    } else {
        raw
    }
}

/// The position just after the line that starts at `p`: past the newline
/// that ends it, or the end of `s` if it has no newline.
pub open spec fn spec_next(s: Seq<char>, p: int) -> int
    recommends
        0 <= p <= s.len(),
{
    let t = s.skip(p);
    let e = newline_pos(t);
    if e < t.len() {
        p + e + 1
    } else {
        p + e
    }
}

/// Reading a line advances the position and never passes the end.
pub proof fn lemma_spec_next_bounds(s: Seq<char>, p: int)
    requires
        0 <= p < s.len(),
    ensures
        p < spec_next(s, p) <= s.len(),
{
    let t = s.skip(p);
    lemma_newline_pos_bounds(t);
}

/// `newline_pos` lies between zero and the length.
pub proof fn lemma_newline_pos_bounds(t: Seq<char>)
    ensures
        0 <= newline_pos(t) <= t.len(),
    decreases t.len(),
{
    if t.len() > 0 && t[0] != '\n' {
        lemma_newline_pos_bounds(t.drop_first());
    }
}

} // verus!

verus! {

/// A sequence of `k` spaces.
pub open spec fn spaces(k: int) -> Seq<char> {
    Seq::new(k as nat, |i: int| ' ')
}

/// `s` padded with spaces on the left to width `w`; longer text is kept
/// whole.
pub open spec fn rjust(s: Seq<char>, w: int) -> Seq<char> {
    if s.len() >= w {
        s
    } else {
        spaces(w - s.len()) + s
    }
}

/// `s` padded with spaces on the right to width `w`; longer text is kept
/// whole.
pub open spec fn ljust(s: Seq<char>, w: int) -> Seq<char> {
    if s.len() >= w {
        s
    } else {
        s + spaces(w - s.len())
    }
}

/// Appends `k` spaces to `out`.
#[verifier::loop_isolation(false)]
pub fn push_spaces(out: &mut String, k: usize)
    ensures
        final(out)@ == old(out)@ + spaces(k as int),
{
    proof {
        reveal_strlit(" ");
    }
    let mut j: usize = 0;
    while j < k
        invariant
            j <= k,
            out@ == old(out)@ + spaces(j as int),
        decreases k - j,
    {
        out.append(" ");
        proof {
            assert(out@ =~= old(out)@ + spaces(j + 1));
        }
        j = j + 1;
    }
}

/// Appends `piece` right-justified in width `w` to `out`.
pub fn push_rjust(out: &mut String, piece: &str, w: usize)
    ensures
        final(out)@ == old(out)@ + rjust(piece@, w as int),
{
    let l = piece.unicode_len();
    if l < w {
        push_spaces(out, w - l);
    }
    out.append(piece);
    proof {
        assert(out@ =~= old(out)@ + rjust(piece@, w as int));
    }
}

/// Appends `piece` left-justified in width `w` to `out`.
pub fn push_ljust(out: &mut String, piece: &str, w: usize)
    ensures
        final(out)@ == old(out)@ + ljust(piece@, w as int),
{
    let l = piece.unicode_len();
    out.append(piece);
    if l < w {
        push_spaces(out, w - l);
    }
    proof {
        assert(out@ =~= old(out)@ + ljust(piece@, w as int));
    }
}

} // verus!

verus! {

/// The length of the whitespace-free token at the head of `s`.
pub open spec fn token_end(s: Seq<char>) -> nat
    decreases s.len(),
{
    if s.len() == 0 {
        0
    } else if is_space(s[0]) {
        0
    } else {
        1 + token_end(s.drop_first())
    }
}

/// `token_end` is the least index holding whitespace.
pub proof fn lemma_token_end_is(s: Seq<char>, e: int)
    requires
        0 <= e <= s.len(),
        forall|j: int| 0 <= j < e ==> !is_space(s[j]),
        e < s.len() ==> is_space(s[e]),
    ensures
        token_end(s) == e,
    decreases e,
{
    if e > 0 {
        let u = s.drop_first();
        assert(forall|j: int| 0 <= j < e - 1 ==> !is_space(u[j]));
        lemma_token_end_is(u, e - 1);
    }
}

/// `token_end` never passes the end.
pub proof fn lemma_token_end_bounds(s: Seq<char>)
    ensures
        token_end(s) <= s.len(),
    decreases s.len(),
{
    if s.len() > 0 && !is_space(s[0]) {
        lemma_token_end_bounds(s.drop_first());
    }
}

/// The whitespace-separated tokens of `s`, in order.
pub open spec fn split_ws(s: Seq<char>) -> Seq<Seq<char>>
    decreases s.len(),
    via split_ws_decreases
{
    if s.len() == 0 {
        Seq::empty()
    } else if is_space(s[0]) {
        split_ws(s.drop_first())
    } else {
        seq![s.take(token_end(s) as int)] + split_ws(s.skip(token_end(s) as int))
    }
}

#[via_fn]
proof fn split_ws_decreases(s: Seq<char>) {
    if s.len() > 0 && !is_space(s[0]) {
        lemma_token_end_bounds(s);
        assert(token_end(s) == 1 + token_end(s.drop_first()));
    }
}

/// Leading whitespace does not change the tokens.
pub proof fn lemma_split_ws_spaces(p: Seq<char>, rest: Seq<char>)
    requires
        forall|j: int| 0 <= j < p.len() ==> is_space(p[j]),
    ensures
        split_ws(p + rest) == split_ws(rest),
    decreases p.len(),
{
    if p.len() == 0 {
        assert(p + rest =~= rest);
    } else {
        let s = p + rest;
        assert(is_space(s[0]));
        assert(s.drop_first() =~= p.drop_first() + rest);
        assert(forall|j: int| 0 <= j < p.drop_first().len() ==> is_space(p.drop_first()[j]));
        lemma_split_ws_spaces(p.drop_first(), rest);
    }
}

/// A token at the head, ended by whitespace or the end, is the first
/// token, and the rest split on their own.
pub proof fn lemma_split_ws_token(t: Seq<char>, rest: Seq<char>)
    requires
        t.len() > 0,
        forall|j: int| 0 <= j < t.len() ==> !is_space(t[j]),
        rest.len() > 0 ==> is_space(rest[0]),
    ensures
        split_ws(t + rest) == seq![t] + split_ws(rest),
{
    let s = t + rest;
    assert(!is_space(s[0]));
    assert(forall|j: int| 0 <= j < t.len() ==> !is_space(s[j]));
    assert(t.len() < s.len() ==> is_space(s[t.len() as int]));
    lemma_token_end_is(s, t.len() as int);
    assert(s.take(t.len() as int) =~= t);
    assert(s.skip(t.len() as int) =~= rest);
}

/// The views of a vector of text slices.
pub open spec fn token_views(r: Seq<&str>) -> Seq<Seq<char>> {
    r.map_values(|t: &str| t@)
}

/// Splits `s` into its whitespace-separated tokens, exactly as
/// [`split_ws`] says.
#[verifier::loop_isolation(false)]
pub fn split_tokens<'a>(s: &'a str) -> (r: Vec<&'a str>)
    ensures
        token_views(r@) == split_ws(s@),
{
    let n = s.unicode_len();
    let mut toks: Vec<&'a str> = Vec::new();
    let mut pos: usize = 0;
    proof {
        assert(s@.skip(0) =~= s@);
        assert(token_views(toks@) =~= Seq::<Seq<char>>::empty());
    }
    while pos < n
        invariant
            0 <= pos <= n,
            split_ws(s@) == token_views(toks@) + split_ws(s@.skip(pos as int)),
        decreases n - pos,
    {
        let c = s.get_char(pos);
        if is_space_c(c) {
            proof {
                assert(s@.skip(pos as int).drop_first() =~= s@.skip(pos + 1));
                assert(split_ws(s@.skip(pos as int)) == split_ws(s@.skip(pos + 1)));
            }
            pos = pos + 1;
        } else {
            let mut q: usize = pos + 1;
            while q < n && !is_space_c(s.get_char(q))
                invariant
                    pos < q <= n,
                    forall|j: int| pos <= j < q ==> !is_space(s@[j]),
                decreases n - q,
            {
                q = q + 1;
            }
            let tok = s.substring_char(pos, q);
            proof {
                let u = s@.skip(pos as int);
                assert(forall|j: int| 0 <= j < q - pos ==> !is_space(u[j]));
                assert(q < n ==> is_space(u[q - pos]));
                lemma_token_end_is(u, q - pos);
                assert(u.take(q - pos) =~= tok@);
                assert(u.skip(q - pos) =~= s@.skip(q as int));
                assert(split_ws(u) == seq![tok@] + split_ws(s@.skip(q as int)));
                assert(token_views(toks@.push(tok)) =~= token_views(toks@) + seq![tok@]);
                assert(token_views(toks@) + (seq![tok@] + split_ws(s@.skip(q as int)))
                    =~= (token_views(toks@) + seq![tok@]) + split_ws(s@.skip(q as int)));
            }
            toks.push(tok);
            pos = q;
        }
    }
    proof {
        assert(s@.skip(n as int).len() == 0);
        assert(split_ws(s@.skip(n as int)) =~= Seq::<Seq<char>>::empty());
        assert(token_views(toks@) + split_ws(s@.skip(n as int)) =~= token_views(toks@));
    }
    toks
}

} // verus!

verus! {

/// Right-justifying pads with spaces only, so trimming undoes it when
/// the text itself does not end in whitespace.
pub proof fn lemma_trim_rjust(x: Seq<char>, w: int)
    requires
        x.len() > 0 ==> (!is_space(x[0]) && !is_space(x[x.len() - 1])),
    ensures
        trim_spec(rjust(x, w)) == x,
{
    let s = rjust(x, w);
    if x.len() >= w {
        lemma_trim_id(x);
    } else if x.len() == 0 {
        lemma_trim_front_exact(s, s.len() as int);
        assert(trim_front(s).len() == 0);
        assert(trim_back(trim_front(s)) == trim_front(s));
        assert(trim_spec(s) =~= x);
    } else {
        let p = w - x.len();
        assert(forall|j: int| 0 <= j < p ==> is_space(s[j]));
        assert(s[p] == x[0]);
        assert(s[s.len() - 1] == x[x.len() - 1]);
        lemma_trim_exact(s, p, s.len() as int);
        assert(s.subrange(p, s.len() as int) =~= x);
    }
}

/// Left-justifying pads with spaces only, so trimming undoes it when the
/// text itself does not start or end in whitespace.
pub proof fn lemma_trim_ljust(x: Seq<char>, w: int)
    requires
        x.len() > 0 ==> (!is_space(x[0]) && !is_space(x[x.len() - 1])),
    ensures
        trim_spec(ljust(x, w)) == x,
{
    let s = ljust(x, w);
    if x.len() >= w {
        lemma_trim_id(x);
    } else if x.len() == 0 {
        lemma_trim_front_exact(s, s.len() as int);
        assert(trim_front(s).len() == 0);
        assert(trim_back(trim_front(s)) == trim_front(s));
        assert(trim_spec(s) =~= x);
    } else {
        assert(forall|j: int| x.len() <= j < s.len() ==> is_space(s[j]));
        assert(s[0] == x[0]);
        assert(s[x.len() - 1] == x[x.len() - 1]);
        lemma_trim_exact(s, 0, x.len() as int);
        assert(s.subrange(0, x.len() as int) =~= x);
    }
}

/// A newline-free piece followed by a newline reads as one line, and the
/// position moves just past the newline.
pub proof fn lemma_spec_line_concat(s: Seq<char>, p: int, a: Seq<char>)
    requires
        0 <= p,
        p + a.len() < s.len(),
        s.subrange(p, p + a.len()) == a,
        s[p + a.len()] == '\n',
        forall|j: int| 0 <= j < a.len() ==> (#[trigger] a[j]) != '\n',
        a.len() > 0 ==> a[a.len() - 1] != '\r',
    ensures
        spec_line(s, p) == a,
        spec_next(s, p) == p + a.len() + 1,
{
    let t = s.skip(p);
    assert(forall|j: int| 0 <= j < a.len() ==> t[j] == a[j]);
    assert(forall|j: int| 0 <= j < a.len() ==> (#[trigger] t[j]) != '\n');
    assert(t[a.len() as int] == '\n');
    lemma_newline_pos_is(t, a.len() as int);
    assert(t.subrange(0, a.len() as int) =~= a);
}

/// With no newline from `p` on, the rest of the text is the last line.
pub proof fn lemma_spec_line_tail(s: Seq<char>, p: int)
    requires
        0 <= p <= s.len(),
        forall|j: int| p <= j < s.len() ==> (#[trigger] s[j]) != '\n',
    ensures
        spec_line(s, p) == s.skip(p),
        spec_next(s, p) == s.len(),
{
    let t = s.skip(p);
    assert(forall|j: int| 0 <= j < t.len() ==> (#[trigger] t[j]) != '\n') by {
        assert(forall|j: int| 0 <= j < t.len() ==> t[j] == s[p + j]);
    }
    lemma_newline_pos_is(t, t.len() as int);
    assert(t.subrange(0, t.len() as int) =~= t);
}

} // verus!
