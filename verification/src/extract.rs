//! Building blocks of the parameter extractor: regex-literal escaping,
//! neutralization of numeric back-references, and the scan that turns each
//! placeholder occurrence of a template into a named capture group.

use vstd::prelude::*;
use crate::model::sat_inc;
use crate::text::chars_string;
use crate::text::dec_digits;
use crate::text::is_ascii_digit_char;
use crate::text::push_all;
use crate::text::push_decimal;

verus! {

/// The characters that are meta characters of the regex syntax and must be
/// escaped to match literally.
pub open spec fn is_meta_char(c: char) -> bool {
    ||| c == '\\'
    ||| c == '.'
    ||| c == '+'
    ||| c == '*'
    ||| c == '?'
    ||| c == '('
    ||| c == ')'
    ||| c == '|'
    ||| c == '['
    ||| c == ']'
    ||| c == '{'
    ||| c == '}'
    ||| c == '^'
    ||| c == '$'
    ||| c == '#'
    ||| c == '&'
    ||| c == '-'
    ||| c == '~'
}

fn is_meta(c: char) -> (b: bool)
    ensures
        b == is_meta_char(c),
{
    c == '\\' || c == '.' || c == '+' || c == '*' || c == '?' || c == '(' || c == ')' || c == '|'
        || c == '[' || c == ']' || c == '{' || c == '}' || c == '^' || c == '$' || c == '#' || c
        == '&' || c == '-' || c == '~'
}

/// The characters the template escaping puts a backslash before: the meta
/// characters, and the space. A backslash-space still matches a literal
/// space, and marking the template's spaces this way lets the final rewrite
/// widen exactly them to whitespace runs, leaving spaces inside inserted
/// rule patterns alone.
pub open spec fn needs_escape_char(c: char) -> bool {
    is_meta_char(c) || c == ' '
}

fn needs_escape(c: char) -> (b: bool)
    ensures
        b == needs_escape_char(c),
{
    is_meta(c) || c == ' '
}

/// The input with a backslash before every meta character and every space,
/// so that it matches literally in a regex and its spaces can be widened
/// afterwards.
pub open spec fn escape_spec(s: Seq<char>) -> Seq<char>
    decreases s.len(),
{
    if s.len() == 0 {
        s
    } else if needs_escape_char(s[0]) {
        seq!['\\', s[0]] + escape_spec(s.drop_first())
    } else {
        seq![s[0]] + escape_spec(s.drop_first())
    }
}

pub fn escape_chars(s: &Vec<char>) -> (r: Vec<char>)
    ensures
        r@ == escape_spec(s@),
{
    let mut out: Vec<char> = Vec::new();
    let mut i: usize = 0;
    proof {
        assert(s@.skip(0) =~= s@);
    }
    while i < s.len()
        invariant
            i <= s@.len(),
            escape_spec(s@) == out@ + escape_spec(s@.skip(i as int)),
        decreases s@.len() - i,
    {
        let ghost tail = s@.skip(i as int);
        proof {
            assert(tail[0] == s@[i as int]);
            assert(tail.drop_first() =~= s@.skip(i as int + 1));
        }
        let ghost ob = out@;
        if needs_escape(s[i]) {
            out.push('\\');
            out.push(s[i]);
            proof {
                assert(out@ =~= ob + seq!['\\', s@[i as int]]);
            }
        } else {
            out.push(s[i]);
        }
        i = i + 1;
    }
    proof {
        assert(s@.skip(s@.len() as int) =~= Seq::<char>::empty());
        assert(out@ + Seq::<char>::empty() =~= out@);
    }
    out
}

pub open spec fn is_digit19(c: char) -> bool {
    0x31 <= c as u32 && c as u32 <= 0x39
}

/// What a neutralized back-reference is replaced with: a non-capturing
/// lazy wildcard group.
pub open spec fn backref_stub() -> Seq<char> {
    seq!['(', '?', ':', '.', '+', '?', ')']
}

/// The input with every numeric back-reference (a backslash followed by a
/// digit 1-9 and optionally one more digit) replaced by the stub, scanned
/// left to right without overlap.
pub open spec fn debackref_spec(s: Seq<char>) -> Seq<char>
    decreases s.len(),
{
    if s.len() == 0 {
        s
    } else if s.len() >= 2 && s[0] == '\\' && is_digit19(s[1]) {
        if s.len() >= 3 && is_ascii_digit_char(s[2]) {
            backref_stub() + debackref_spec(s.skip(3))
        } else {
            backref_stub() + debackref_spec(s.skip(2))
        }
    } else {
        seq![s[0]] + debackref_spec(s.drop_first())
    }
}

pub fn debackref_chars(s: &Vec<char>) -> (r: Vec<char>)
    ensures
        r@ == debackref_spec(s@),
{
    let mut out: Vec<char> = Vec::new();
    let mut i: usize = 0;
    proof {
        assert(s@.skip(0) =~= s@);
    }
    while i < s.len()
        invariant
            i <= s@.len(),
            debackref_spec(s@) == out@ + debackref_spec(s@.skip(i as int)),
        decreases s@.len() - i,
    {
        let ghost tail = s@.skip(i as int);
        proof {
            assert(tail[0] == s@[i as int]);
            if tail.len() >= 2 {
                assert(tail[1] == s@[i as int + 1]);
            }
            if tail.len() >= 3 {
                assert(tail[2] == s@[i as int + 2]);
            }
            assert(tail.drop_first() =~= s@.skip(i as int + 1));
            if tail.len() >= 2 {
                assert(tail.skip(2) =~= s@.skip(i as int + 2));
            }
            if tail.len() >= 3 {
                assert(tail.skip(3) =~= s@.skip(i as int + 3));
            }
        }
        let c = s[i];
        let two = i + 1 < s.len() && c == '\\' && {
            let d = s[i + 1] as u32;
            0x31 <= d && d <= 0x39
        };
        if two {
            let three = i + 2 < s.len() && {
                let d2 = s[i + 2] as u32;
                0x30 <= d2 && d2 <= 0x39
            };
            let ghost ob = out@;
            out.push('(');
            out.push('?');
            out.push(':');
            out.push('.');
            out.push('+');
            out.push('?');
            out.push(')');
            proof {
                assert(out@ =~= ob + backref_stub());
            }
            if three {
                i = i + 3;
            } else {
                i = i + 2;
            }
        } else {
            out.push(c);
            i = i + 1;
        }
    }
    proof {
        assert(s@.skip(s@.len() as int) =~= Seq::<char>::empty());
        assert(out@ + Seq::<char>::empty() =~= out@);
    }
    out
}

/// Alternatives joined by `|`.
pub open spec fn join_alternation(ps: Seq<Seq<char>>) -> Seq<char>
    decreases ps.len(),
{
    if ps.len() == 0 {
        Seq::empty()
    } else if ps.len() == 1 {
        ps[0]
    } else {
        join_alternation(ps.drop_last()) + seq!['|'] + ps.last()
    }
}

pub fn join_alt_chars(ps: &Vec<Vec<char>>) -> (r: Vec<char>)
    ensures
        r@ == join_alternation(ps.deep_view()),
{
    let ghost dv = ps.deep_view();
    let mut out: Vec<char> = Vec::new();
    if ps.len() == 0 {
        return out;
    }
    push_all(&mut out, &ps[0]);
    proof {
        assert(dv.subrange(0, 1)[0] == dv[0]);
        assert(out@ =~= join_alternation(dv.subrange(0, 1)));
    }
    let mut k: usize = 1;
    while k < ps.len()
        invariant
            1 <= k <= ps@.len(),
            dv == ps.deep_view(),
            dv.len() == ps@.len(),
            out@ == join_alternation(dv.subrange(0, k as int)),
        decreases ps@.len() - k,
    {
        out.push('|');
        push_all(&mut out, &ps[k]);
        k = k + 1;
        proof {
            let pre = dv.subrange(0, k as int);
            assert(pre.drop_last() =~= dv.subrange(0, k as int - 1));
            assert(pre.last() == dv[k as int - 1]);
            assert(out@ =~= join_alternation(pre.drop_last()) + seq!['|'] + pre.last());
        }
    }
    proof {
        assert(dv.subrange(0, dv.len() as int) =~= dv);
    }
    out
}

/// The name of capture group number `k`.
pub open spec fn group_label(k: int) -> Seq<char> {
    seq!['p', '_'] + dec_digits(k as nat)
}

/// A named capture group around the given alternation.
pub open spec fn capture_group(k: int, alt: Seq<char>) -> Seq<char> {
    seq!['(', '?', 'P', '<', 'p', '_'] + dec_digits(k as nat) + seq!['>'] + alt + seq![')']
}

/// One scan over the escaped template for one placeholder text: each
/// occurrence (left to right, never rescanning inserted text) becomes a
/// fresh named capture group. Returns the rewritten text, the next group
/// number, and the labels of the groups created, in order.
pub open spec fn scan_placeholders(s: Seq<char>, pat: Seq<char>, alt: Seq<char>, k: int) -> (
    Seq<char>,
    int,
    Seq<Seq<char>>,
)
    decreases s.len(),
{
    if pat.len() == 0 || s.len() < pat.len() {
        (s, k, Seq::empty())
    } else if s.subrange(0, pat.len() as int) == pat {
        let rest = scan_placeholders(s.skip(pat.len() as int), pat, alt, sat_inc(k));
        (capture_group(k, alt) + rest.0, rest.1, seq![group_label(k)] + rest.2)
    } else {
        let rest = scan_placeholders(s.drop_first(), pat, alt, k);
        (seq![s[0]] + rest.0, rest.1, rest.2)
    }
}

/// Rewrites each occurrence of `pat` in `s` into a named capture group
/// around `alt`, numbering groups from `k0` and appending each group's
/// label to `labels`.
pub fn scan_template(
    s: &Vec<char>,
    pat: &Vec<char>,
    alt: &Vec<char>,
    k0: usize,
    labels: &mut Vec<String>,
) -> (r: (Vec<char>, usize))
    requires
        pat@.len() >= 1,
    ensures
        r.0@ == scan_placeholders(s@, pat@, alt@, k0 as int).0,
        r.1 as int == scan_placeholders(s@, pat@, alt@, k0 as int).1,
        final(labels).deep_view() == old(labels).deep_view() + scan_placeholders(
            s@,
            pat@,
            alt@,
            k0 as int,
        ).2,
{
    let ghost g = scan_placeholders(s@, pat@, alt@, k0 as int);
    let ghost base = old(labels).deep_view();
    let m = pat.len();
    let mut out: Vec<char> = Vec::new();
    let mut cur: usize = k0;
    let mut i: usize = 0;
    proof {
        assert(s@.skip(0) =~= s@);
        assert(base + g.2 =~= base + g.2);
    }
    while i < s.len()
        invariant
            i <= s@.len(),
            m == pat@.len(),
            m >= 1,
            g == scan_placeholders(s@, pat@, alt@, k0 as int),
            g.0 == out@ + scan_placeholders(s@.skip(i as int), pat@, alt@, cur as int).0,
            g.1 == scan_placeholders(s@.skip(i as int), pat@, alt@, cur as int).1,
            base == old(labels).deep_view(),
            base + g.2 == labels.deep_view() + scan_placeholders(
                s@.skip(i as int),
                pat@,
                alt@,
                cur as int,
            ).2,
        decreases s@.len() - i,
    {
        let ghost tail = s@.skip(i as int);
        if m <= s.len() - i && crate::text::eq_at(s, i, pat) {
            proof {
                assert(tail.subrange(0, m as int) =~= s@.subrange(i as int, i as int + m as int));
                assert(tail.skip(m as int) =~= s@.skip(i as int + m as int));
            }
            let ghost ob = out@;
            out.push('(');
            out.push('?');
            out.push('P');
            out.push('<');
            out.push('p');
            out.push('_');
            push_decimal(&mut out, cur);
            out.push('>');
            push_all(&mut out, alt);
            out.push(')');
            let mut lab: Vec<char> = Vec::new();
            lab.push('p');
            lab.push('_');
            push_decimal(&mut lab, cur);
            proof {
                assert(out@ =~= ob + capture_group(cur as int, alt@));
                assert(lab@ =~= group_label(cur as int));
            }
            let ghost old_labels = labels.deep_view();
            labels.push(chars_string(&lab));
            proof {
                assert(labels.deep_view() =~~= old_labels.push(group_label(cur as int)));
                let rest = scan_placeholders(
                    s@.skip(i as int + m as int),
                    pat@,
                    alt@,
                    sat_inc(cur as int),
                );
                assert(ob + (capture_group(cur as int, alt@) + rest.0) =~= (ob + capture_group(
                    cur as int,
                    alt@,
                )) + rest.0);
                assert(old_labels + (seq![group_label(cur as int)] + rest.2) =~= old_labels.push(
                    group_label(cur as int),
                ) + rest.2);
            }
            cur = if cur < usize::MAX {
                cur + 1
            } else {
                cur
            };
            i = i + m;
        } else {
            proof {
                assert(tail[0] == s@[i as int]);
                if tail.len() >= m {
                    assert(tail.subrange(0, m as int) =~= s@.subrange(
                        i as int,
                        i as int + m as int,
                    ));
                }
                assert(tail.drop_first() =~= s@.skip(i as int + 1));
                let rest = scan_placeholders(s@.skip(i as int + 1), pat@, alt@, cur as int);
                assert(out@ + (seq![s@[i as int]] + rest.0) =~= out@.push(s@[i as int]) + rest.0);
            }
            out.push(s[i]);
            i = i + 1;
        }
    }
    proof {
        assert(s@.skip(s@.len() as int) =~= Seq::<char>::empty());
        assert(out@ + Seq::<char>::empty() =~= out@);
        assert(labels.deep_view() + Seq::<Seq<char>>::empty() =~= labels.deep_view());
        assert(base + g.2 =~= labels.deep_view());
    }
    (out, cur)
}

} // verus!
