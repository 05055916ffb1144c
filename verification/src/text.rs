//! Character and string helpers shared by the tokenizer, the clustering
//! engine and the parameter extractor: whitespace classification, literal
//! substring replacement, whitespace splitting and decimal rendering.

use vstd::prelude::*;
use vstd::string::*;

verus! {

/// Unicode white-space code points, the set used to split log lines into
/// tokens.
pub open spec fn is_space_char(c: char) -> bool {
    ||| (0x09 <= c as u32 && c as u32 <= 0x0D)
    ||| c as u32 == 0x20
    ||| c as u32 == 0x85
    ||| c as u32 == 0xA0
    ||| c as u32 == 0x1680
    ||| (0x2000 <= c as u32 && c as u32 <= 0x200A)
    ||| c as u32 == 0x2028
    ||| c as u32 == 0x2029
    ||| c as u32 == 0x202F
    ||| c as u32 == 0x205F
    ||| c as u32 == 0x3000
}

pub fn is_space(c: char) -> (b: bool)
    ensures
        b == is_space_char(c),
{
    let u = c as u32;
    (0x09 <= u && u <= 0x0D) || u == 0x20 || u == 0x85 || u == 0xA0 || u == 0x1680 || (0x2000 <= u
        && u <= 0x200A) || u == 0x2028 || u == 0x2029 || u == 0x202F || u == 0x205F || u == 0x3000
}

/// Relies on std's `String::push`: appends one character at the end of the
/// string.
#[verifier::external_body]
pub fn push_char(s: &mut String, c: char)
    ensures
        final(s)@ == old(s)@.push(c),
{
    s.push(c)
}

/// The characters of a string slice, in order.
pub fn str_chars(s: &str) -> (r: Vec<char>)
    ensures
        r@ == s@,
{
    let n = s.unicode_len();
    let mut r: Vec<char> = Vec::new();
    let mut i: usize = 0;
    while i < n
        invariant
            i <= n,
            n == s@.len(),
            r@ == s@.subrange(0, i as int),
        decreases n - i,
    {
        r.push(s.get_char(i));
        i = i + 1;
        proof {
            assert(r@ =~= s@.subrange(0, i as int));
        }
    }
    proof {
        assert(s@.subrange(0, n as int) =~= s@);
    }
    r
}

/// A freshly allocated string holding exactly the given characters.
pub fn chars_string(v: &Vec<char>) -> (r: String)
    ensures
        r@ == v@,
{
    let mut r = String::new();
    let mut i: usize = 0;
    while i < v.len()
        invariant
            i <= v.len(),
            r@ == v@.subrange(0, i as int),
        decreases v.len() - i,
    {
        push_char(&mut r, v[i]);
        i = i + 1;
        proof {
            assert(r@ =~= v@.subrange(0, i as int));
        }
    }
    proof {
        assert(v@.subrange(0, v@.len() as int) =~= v@);
    }
    r
}

/// `prefix` is an initial segment of `s`.
pub open spec fn starts_with_spec(s: Seq<char>, prefix: Seq<char>) -> bool {
    prefix.len() <= s.len() && s.subrange(0, prefix.len() as int) == prefix
}

pub fn str_starts_with(s: &str, prefix: &str) -> (b: bool)
    ensures
        b == starts_with_spec(s@, prefix@),
{
    let np = prefix.unicode_len();
    let ns = s.unicode_len();
    if np > ns {
        return false;
    }
    let mut i: usize = 0;
    while i < np
        invariant
            i <= np,
            np <= ns,
            np == prefix@.len(),
            ns == s@.len(),
            forall|j: int| 0 <= j < i ==> s@[j] == prefix@[j],
        decreases np - i,
    {
        if s.get_char(i) != prefix.get_char(i) {
            proof {
                assert(s@.subrange(0, np as int)[i as int] != prefix@[i as int]);
            }
            return false;
        }
        i = i + 1;
    }
    proof {
        assert(s@.subrange(0, np as int) =~= prefix@);
    }
    true
}

pub fn str_equal(a: &str, b: &str) -> (r: bool)
    ensures
        r == (a@ == b@),
{
    let na = a.unicode_len();
    let nb = b.unicode_len();
    if na != nb {
        return false;
    }
    let r = str_starts_with(a, b);
    proof {
        assert(a@.subrange(0, nb as int) =~= a@);
    }
    r
}

/// The token contains at least one ASCII digit.
pub open spec fn has_digit_spec(s: Seq<char>) -> bool {
    exists|i: int| 0 <= i < s.len() && is_ascii_digit_char(#[trigger] s[i])
}

pub open spec fn is_ascii_digit_char(c: char) -> bool {
    0x30 <= c as u32 && c as u32 <= 0x39
}

pub fn str_has_digit(s: &str) -> (b: bool)
    ensures
        b == has_digit_spec(s@),
{
    let n = s.unicode_len();
    let mut i: usize = 0;
    while i < n
        invariant
            i <= n,
            n == s@.len(),
            forall|j: int| 0 <= j < i ==> !is_ascii_digit_char(#[trigger] s@[j]),
        decreases n - i,
    {
        let u = s.get_char(i) as u32;
        if 0x30 <= u && u <= 0x39 {
            return true;
        }
        i = i + 1;
    }
    false
}

/// Decimal digits of `n`, most significant first.
pub open spec fn dec_digits(n: nat) -> Seq<char>
    decreases n,
{
    if n < 10 {
        seq![digit_char(n)]
    } else {
        dec_digits(n / 10).push(digit_char(n % 10))
    }
}

pub open spec fn digit_char(d: nat) -> char {
    if d == 0 {
        '0'
    } else if d == 1 {
        '1'
    } else if d == 2 {
        '2'
    } else if d == 3 {
        '3'
    } else if d == 4 {
        '4'
    } else if d == 5 {
        '5'
    } else if d == 6 {
        '6'
    } else if d == 7 {
        '7'
    } else if d == 8 {
        '8'
    } else {
        '9'
    }
}

fn digit_of(d: usize) -> (c: char)
    requires
        d < 10,
    ensures
        c == digit_char(d as nat),
{
    if d == 0 {
        '0'
    } else if d == 1 {
        '1'
    } else if d == 2 {
        '2'
    } else if d == 3 {
        '3'
    } else if d == 4 {
        '4'
    } else if d == 5 {
        '5'
    } else if d == 6 {
        '6'
    } else if d == 7 {
        '7'
    } else if d == 8 {
        '8'
    } else {
        '9'
    }
}

/// Appends the decimal rendering of `n` to `out`.
pub fn push_decimal(out: &mut Vec<char>, n: usize)
    ensures
        final(out)@ == old(out)@ + dec_digits(n as nat),
    decreases n,
{
    if n < 10 {
        out.push(digit_of(n));
        proof {
            assert(out@ =~= old(out)@ + dec_digits(n as nat));
        }
    } else {
        push_decimal(out, n / 10);
        out.push(digit_of(n % 10));
        proof {
            assert(out@ =~= old(out)@ + dec_digits(n as nat));
        }
    }
}

/// The decimal rendering of `n` as a string.
pub fn decimal_string(n: usize) -> (r: String)
    ensures
        r@ == dec_digits(n as nat),
{
    let mut v: Vec<char> = Vec::new();
    push_decimal(&mut v, n);
    proof {
        assert(v@ =~= dec_digits(n as nat));
    }
    chars_string(&v)
}

/// The characters `s[a..b]`, as a fresh vector.
pub fn subrange_chars(s: &Vec<char>, a: usize, b: usize) -> (r: Vec<char>)
    requires
        a <= b <= s@.len(),
    ensures
        r@ == s@.subrange(a as int, b as int),
{
    let mut r: Vec<char> = Vec::new();
    let mut i: usize = a;
    while i < b
        invariant
            a <= i <= b <= s@.len(),
            r@ == s@.subrange(a as int, i as int),
        decreases b - i,
    {
        r.push(s[i]);
        i = i + 1;
        proof {
            assert(r@ =~= s@.subrange(a as int, i as int));
        }
    }
    r
}

/// Appends all of `src` at the end of `out`.
pub fn push_all(out: &mut Vec<char>, src: &Vec<char>)
    ensures
        final(out)@ == old(out)@ + src@,
{
    let mut i: usize = 0;
    while i < src.len()
        invariant
            i <= src@.len(),
            out@ == old(out)@ + src@.subrange(0, i as int),
        decreases src@.len() - i,
    {
        out.push(src[i]);
        i = i + 1;
        proof {
            assert(out@ =~= old(out)@ + src@.subrange(0, i as int));
        }
    }
    proof {
        assert(old(out)@ + src@.subrange(0, src@.len() as int) =~= old(out)@ + src@);
    }
}

/// The characters of `s` match `pat` starting at offset `i`.
pub fn eq_at(s: &Vec<char>, i: usize, pat: &Vec<char>) -> (b: bool)
    requires
        i + pat@.len() <= s@.len(),
    ensures
        b == (s@.subrange(i as int, i as int + pat@.len() as int) == pat@),
{
    let m = pat.len();
    let n = s.len();
    let mut k: usize = 0;
    while k < m
        invariant
            k <= m,
            m == pat@.len(),
            n == s@.len(),
            i + m <= n,
            forall|j: int| 0 <= j < k ==> s@[i + j] == pat@[j],
        decreases m - k,
    {
        if s[i + k] != pat[k] {
            proof {
                assert(s@.subrange(i as int, i as int + m as int)[k as int] != pat@[k as int]);
            }
            return false;
        }
        k = k + 1;
    }
    proof {
        assert(s@.subrange(i as int, i as int + m as int) =~= pat@);
    }
    true
}

/// The input with surrounding white space removed.
pub open spec fn trim_spec(s: Seq<char>) -> Seq<char>
    decreases s.len(),
{
    if s.len() == 0 {
        s
    } else if is_space_char(s[0]) {
        trim_spec(s.drop_first())
    } else if is_space_char(s.last()) {
        trim_spec(s.drop_last())
    } else {
        s
    }
}

pub fn trim_chars(s: &Vec<char>) -> (r: Vec<char>)
    ensures
        r@ == trim_spec(s@),
{
    let mut a: usize = 0;
    let mut b: usize = s.len();
    proof {
        assert(s@.subrange(0, s@.len() as int) =~= s@);
    }
    while a < b && is_space(s[a])
        invariant
            a <= b <= s@.len(),
            trim_spec(s@) == trim_spec(s@.subrange(a as int, b as int)),
        decreases b - a,
    {
        proof {
            let sub = s@.subrange(a as int, b as int);
            assert(sub[0] == s@[a as int]);
            assert(sub.drop_first() =~= s@.subrange(a as int + 1, b as int));
        }
        a = a + 1;
    }
    while a < b && is_space(s[b - 1])
        invariant
            a <= b <= s@.len(),
            trim_spec(s@) == trim_spec(s@.subrange(a as int, b as int)),
            a < b ==> !is_space_char(s@[a as int]),
        decreases b - a,
    {
        proof {
            let sub = s@.subrange(a as int, b as int);
            assert(sub[0] == s@[a as int]);
            assert(sub.last() == s@[b - 1]);
            assert(sub.drop_last() =~= s@.subrange(a as int, b as int - 1));
        }
        b = b - 1;
    }
    proof {
        let sub = s@.subrange(a as int, b as int);
        if a < b {
            assert(sub[0] == s@[a as int]);
            assert(sub.last() == s@[b - 1]);
        }
    }
    subrange_chars(s, a, b)
}

/// `s` with every non-overlapping occurrence of `from` (scanned left to
/// right) replaced by `to`; an empty `from` matches nothing and leaves the
/// input unchanged.
pub open spec fn replace_lit(s: Seq<char>, from: Seq<char>, to: Seq<char>) -> Seq<char>
    decreases s.len(),
{
    if from.len() == 0 || s.len() < from.len() {
        s
    } else if s.subrange(0, from.len() as int) == from {
        to + replace_lit(s.skip(from.len() as int), from, to)
    } else {
        seq![s[0]] + replace_lit(s.drop_first(), from, to)
    }
}

pub fn replace_literal(s: &Vec<char>, from: &Vec<char>, to: &Vec<char>) -> (r: Vec<char>)
    ensures
        r@ == replace_lit(s@, from@, to@),
{
    let m = from.len();
    if m == 0 {
        return subrange_chars(s, 0, s.len());
    }
    let mut out: Vec<char> = Vec::new();
    let mut i: usize = 0;
    proof {
        assert(s@.skip(0) =~= s@);
    }
    while i < s.len()
        invariant
            i <= s@.len(),
            m == from@.len(),
            m >= 1,
            replace_lit(s@, from@, to@) == out@ + replace_lit(s@.skip(i as int), from@, to@),
        decreases s@.len() - i,
    {
        let ghost tail = s@.skip(i as int);
        if m <= s.len() - i && eq_at(s, i, from) {
            proof {
                assert(tail.subrange(0, m as int) =~= s@.subrange(i as int, i as int + m as int));
                assert(tail.skip(m as int) =~= s@.skip(i as int + m as int));
                assert(out@ + (to@ + replace_lit(s@.skip(i as int + m as int), from@, to@)) =~= (
                out@ + to@) + replace_lit(s@.skip(i as int + m as int), from@, to@));
            }
            push_all(&mut out, to);
            i = i + m;
        } else {
            proof {
                assert(tail[0] == s@[i as int]);
                if tail.len() >= m {
                    assert(tail.subrange(0, m as int) =~= s@.subrange(
                        i as int,
                        i as int + m as int,
                    ));
                    assert(tail.drop_first() =~= s@.skip(i as int + 1));
                    assert(out@ + (seq![s@[i as int]] + replace_lit(
                        s@.skip(i as int + 1),
                        from@,
                        to@,
                    )) =~= out@.push(s@[i as int]) + replace_lit(s@.skip(i as int + 1), from@, to@));
                } else {
                    assert(replace_lit(tail, from@, to@) == tail);
                    assert(s@.skip(i as int + 1) =~= tail.drop_first());
                    assert(replace_lit(tail.drop_first(), from@, to@) == tail.drop_first());
                    assert(out@ + tail =~= out@.push(s@[i as int]) + tail.drop_first());
                }
            }
            out.push(s[i]);
            i = i + 1;
        }
    }
    proof {
        assert(s@.skip(s@.len() as int) =~= Seq::<char>::empty());
        assert(out@ + Seq::<char>::empty() =~= out@);
    }
    out
}

/// `s` after each extra delimiter, in order, is replaced by a single space.
pub open spec fn replace_delims(s: Seq<char>, delims: Seq<Seq<char>>) -> Seq<char>
    decreases delims.len(),
{
    if delims.len() == 0 {
        s
    } else {
        replace_delims(replace_lit(s, delims[0], seq![' ']), delims.drop_first())
    }
}

/// The longest run of non-space characters at the head of `s`.
pub open spec fn take_token(s: Seq<char>) -> Seq<char>
    decreases s.len(),
{
    if s.len() == 0 || is_space_char(s[0]) {
        Seq::empty()
    } else {
        seq![s[0]] + take_token(s.drop_first())
    }
}

pub proof fn lemma_take_token_len(s: Seq<char>)
    ensures
        take_token(s).len() <= s.len(),
        s.len() > 0 && !is_space_char(s[0]) ==> take_token(s).len() >= 1,
    decreases s.len(),
{
    if s.len() > 0 && !is_space_char(s[0]) {
        lemma_take_token_len(s.drop_first());
    }
}

/// The maximal non-space runs of `s`, in order.
pub open spec fn split_ws(s: Seq<char>) -> Seq<Seq<char>>
    decreases s.len(),
    via split_ws_decreases
{
    if s.len() == 0 {
        Seq::empty()
    } else if is_space_char(s[0]) {
        split_ws(s.drop_first())
    } else {
        seq![take_token(s)] + split_ws(s.skip(take_token(s).len() as int))
    }
}

#[via_fn]
proof fn split_ws_decreases(s: Seq<char>) {
    lemma_take_token_len(s);
}

proof fn lemma_take_token_range(s: Seq<char>, i: int, j: int)
    requires
        0 <= i <= j <= s.len(),
        forall|k: int| i <= k < j ==> !is_space_char(#[trigger] s[k]),
        j == s.len() || is_space_char(s[j]),
    ensures
        take_token(s.skip(i)) == s.subrange(i, j),
    decreases j - i,
{
    if i == j {
        if i < s.len() {
            assert(s.skip(i)[0] == s[i]);
        }
        assert(take_token(s.skip(i)) =~= s.subrange(i, j));
    } else {
        lemma_take_token_range(s, i + 1, j);
        assert(s.skip(i)[0] == s[i]);
        assert(s.skip(i).drop_first() =~= s.skip(i + 1));
        assert(take_token(s.skip(i)) =~= s.subrange(i, j));
    }
}

pub fn split_whitespace_chars(s: &Vec<char>) -> (r: Vec<Vec<char>>)
    ensures
        r.deep_view() == split_ws(s@),
{
    let mut r: Vec<Vec<char>> = Vec::new();
    let mut i: usize = 0;
    proof {
        assert(s@.skip(0) =~= s@);
        assert(r.deep_view() + split_ws(s@) =~= split_ws(s@));
    }
    while i < s.len()
        invariant
            i <= s@.len(),
            split_ws(s@) == r.deep_view() + split_ws(s@.skip(i as int)),
        decreases s@.len() - i,
    {
        if is_space(s[i]) {
            proof {
                let tail = s@.skip(i as int);
                assert(tail[0] == s@[i as int]);
                assert(tail.drop_first() =~= s@.skip(i as int + 1));
            }
            i = i + 1;
        } else {
            let mut j: usize = i + 1;
            while j < s.len() && !is_space(s[j])
                invariant
                    i < j <= s@.len(),
                    forall|k: int| i <= k < j ==> !is_space_char(#[trigger] s@[k]),
                decreases s@.len() - j,
            {
                j = j + 1;
            }
            let tok = subrange_chars(s, i, j);
            proof {
                lemma_take_token_range(s@, i as int, j as int);
                let tail = s@.skip(i as int);
                assert(tail[0] == s@[i as int]);
                assert(tail.skip(take_token(tail).len() as int) =~= s@.skip(j as int));
                let ghost old_dv = r.deep_view();
                assert(old_dv + (seq![tok@] + split_ws(s@.skip(j as int))) =~= old_dv.push(tok@)
                    + split_ws(s@.skip(j as int)));
            }
            let ghost old_r = r;
            r.push(tok);
            proof {
                assert(r.deep_view() =~~= old_r.deep_view().push(tok@));
            }
            i = j;
        }
    }
    proof {
        assert(s@.skip(s@.len() as int) =~= Seq::<char>::empty());
        assert(r.deep_view() + split_ws(Seq::<char>::empty()) =~= r.deep_view());
    }
    r
}

/// The tokens of a raw line: surrounding white space is trimmed, each extra
/// delimiter is replaced by a space, and the result is split on runs of
/// white space.
pub open spec fn tokenize_spec(content: Seq<char>, delims: Seq<Seq<char>>) -> Seq<Seq<char>> {
    split_ws(replace_delims(trim_spec(content), delims))
}

pub fn tokenize_content(content: &str, delims: &Vec<String>) -> (r: Vec<String>)
    ensures
        r.deep_view() == tokenize_spec(content@, delims.deep_view()),
{
    let cs = str_chars(content);
    let mut cur = trim_chars(&cs);
    let space: Vec<char> = vec![' '];
    proof {
        assert(space@ =~= seq![' ']);
        assert(delims.deep_view().skip(0) =~= delims.deep_view());
    }
    let mut k: usize = 0;
    while k < delims.len()
        invariant
            k <= delims@.len(),
            space@ == seq![' '],
            delims@.len() == delims.deep_view().len(),
            replace_delims(trim_spec(content@), delims.deep_view()) == replace_delims(
                cur@,
                delims.deep_view().skip(k as int),
            ),
        decreases delims@.len() - k,
    {
        let d = str_chars(delims[k].as_str());
        proof {
            let dv = delims.deep_view();
            assert(dv.skip(k as int)[0] == dv[k as int]);
            assert(dv[k as int] == delims@[k as int]@);
            assert(dv.skip(k as int).drop_first() =~= dv.skip(k as int + 1));
        }
        cur = replace_literal(&cur, &d, &space);
        k = k + 1;
    }
    proof {
        assert(delims.deep_view().skip(delims.deep_view().len() as int) =~= Seq::<
            Seq<char>,
        >::empty());
    }
    let parts = split_whitespace_chars(&cur);
    let mut r: Vec<String> = Vec::new();
    let mut t: usize = 0;
    while t < parts.len()
        invariant
            t <= parts@.len(),
            r.deep_view() == parts.deep_view().subrange(0, t as int),
        decreases parts@.len() - t,
    {
        let ghost old_r = r;
        r.push(chars_string(&parts[t]));
        t = t + 1;
        proof {
            assert(parts@[t as int - 1].deep_view() =~~= parts@[t as int - 1]@);
            assert(r.deep_view() =~~= old_r.deep_view().push(parts@[t as int - 1]@));
            assert(r.deep_view() =~~= parts.deep_view().subrange(0, t as int));
        }
    }
    proof {
        assert(parts.deep_view().subrange(0, parts.deep_view().len() as int) =~= parts.deep_view());
    }
    r
}

/// The tokens joined by single spaces.
pub open spec fn join_spaced(tokens: Seq<Seq<char>>) -> Seq<char>
    decreases tokens.len(),
{
    if tokens.len() == 0 {
        Seq::empty()
    } else if tokens.len() == 1 {
        tokens[0]
    } else {
        join_spaced(tokens.drop_last()) + seq![' '] + tokens.last()
    }
}

pub fn join_tokens(tokens: &Vec<String>) -> (r: String)
    ensures
        r@ == join_spaced(tokens.deep_view()),
{
    if tokens.len() == 0 {
        return String::new();
    }
    let mut r = tokens[0].clone();
    proof {
        reveal_strlit(" ");
        assert(tokens.deep_view().subrange(0, 1)[0] == tokens.deep_view()[0]);
        assert(r@ == join_spaced(tokens.deep_view().subrange(0, 1)));
    }
    let mut k: usize = 1;
    while k < tokens.len()
        invariant
            1 <= k <= tokens@.len(),
            tokens@.len() == tokens.deep_view().len(),
            r@ == join_spaced(tokens.deep_view().subrange(0, k as int)),
        decreases tokens@.len() - k,
    {
        r.append(" ");
        r.append(tokens[k].as_str());
        k = k + 1;
        proof {
            reveal_strlit(" ");
            let dv = tokens.deep_view();
            let pre = dv.subrange(0, k as int);
            assert(pre.drop_last() =~= dv.subrange(0, k as int - 1));
            assert(pre.last() == dv[k as int - 1]);
            assert(" "@ =~= seq![' ']);
            assert(r@ =~= join_spaced(pre.drop_last()) + seq![' '] + pre.last());
        }
    }
    proof {
        assert(tokens.deep_view().subrange(0, tokens.deep_view().len() as int)
            =~= tokens.deep_view());
    }
    r
}

} // verus!
