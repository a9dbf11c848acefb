//! The tree's brace scan over written text with comments and strings: a `#`
//! comment runs to the end of its line and a `"` string to its closing quote,
//! and the braces in neither count.
use vstd::prelude::*;
use crate::parser::{brace_scan, skip_line, skip_quoted};
use crate::roundtrip::{
    brace_balance, brace_delta, lemma_balance_concat, lemma_balance_first, scan_ok,
};
use crate::text::{find_char, lemma_find_char, lemma_find_char_at};

verus! {

/// No brace in `t`.
pub open spec fn no_brace(t: Seq<char>) -> bool {
    forall|k: int| 0 <= k < t.len() ==> #[trigger] t[k] != '{' && t[k] != '}'
}

/// The text of a string: no brace and no `\`.
pub open spec fn plain_string(t: Seq<char>) -> bool {
    no_brace(t) && forall|k: int| 0 <= k < t.len() ==> #[trigger] t[k] != '\\'
}

/// Scanning `seg` from depth `d` as the tree's brace scan does, the depth is
/// positive before each character outside comments and strings; each comment
/// ends at a line break in `seg` and each string at a closing quote in `seg`,
/// and neither holds a brace (a string no `\` either).
pub open spec fn tscan(seg: Seq<char>, d: int) -> bool
    decreases seg.len(),
{
    if seg.len() == 0 {
        true
    } else if d < 1 {
        false
    } else if seg[0] == '#' {
        match find_char(seg, '\n') {
            Some(q) => if 0 < q <= seg.len() {
                no_brace(seg.take(q)) && tscan(seg.skip(q), d)
            } else {
                false
            },
            None => false,
        }
    } else if seg[0] == '"' {
        match find_char(seg.drop_first(), '"') {
            Some(q) => if 0 <= q && q + 2 <= seg.len() {
                plain_string(seg.subrange(1, q + 1)) && tscan(seg.skip(q + 2), d)
            } else {
                false
            },
            None => false,
        }
    } else {
        tscan(seg.drop_first(), d + brace_delta(seg[0]))
    }
}

/// Text without comments and strings that keeps the depth positive scans so.
pub proof fn lemma_scan_tscan(seg: Seq<char>, d: int)
    requires
        scan_ok(seg, d),
    ensures
        tscan(seg, d),
    decreases seg.len(),
{
    if seg.len() > 0 {
        assert(seg.take(0) =~= Seq::<char>::empty());
        assert(brace_balance(seg.take(0)) == 0);
        let c0 = seg[0];
        assert(c0 != '#' && seg[0] != '"' && d + brace_balance(seg.take(0)) >= 1);
        let d2 = d + brace_delta(seg[0]);
        let rest = seg.drop_first();
        assert forall|k: int| #![trigger rest[k]] 0 <= k < rest.len() implies rest[k] != '#' && rest[k]
            != '"' && d2 + brace_balance(rest.take(k)) >= 1 by {
            assert(rest[k] == seg[k + 1]);
            assert(seg.take(k + 1).drop_first() =~= rest.take(k));
            lemma_balance_first(seg.take(k + 1));
            assert(seg.take(k + 1)[0] == seg[0]);
        }
        lemma_scan_tscan(rest, d2);
    }
}

pub proof fn lemma_no_brace_balance(t: Seq<char>)
    requires
        no_brace(t),
    ensures
        brace_balance(t) == 0,
    decreases t.len(),
{
    if t.len() > 0 {
        assert(no_brace(t.drop_last())) by {
            assert forall|k: int| 0 <= k < t.drop_last().len() implies #[trigger] t.drop_last()[k]
                != '{' && t.drop_last()[k] != '}' by {
                assert(t.drop_last()[k] == t[k]);
            }
        }
        lemma_no_brace_balance(t.drop_last());
        assert(t[t.len() - 1] != '{' && t[t.len() - 1] != '}');
    }
}

/// Scanning `a` and then `b` from where `a` left the depth scans `a + b`.
pub proof fn lemma_tscan_concat(a: Seq<char>, b: Seq<char>, d: int)
    requires
        tscan(a, d),
        tscan(b, d + brace_balance(a)),
    ensures
        tscan(a + b, d),
    decreases a.len(),
{
    if a.len() == 0 {
        assert(a + b =~= b);
        assert(brace_balance(a) == 0);
    } else {
        let ab = a + b;
        assert(ab[0] == a[0]);
        if a[0] == '#' {
            lemma_find_char(a, '\n');
            let q = find_char(a, '\n')->0;
            assert(0 < q <= a.len());
            assert(a[q] == '\n');
            assert(ab[q] == '\n');
            assert forall|j: int| 0 <= j < q implies ab[j] != '\n' by {
                assert(ab[j] == a[j]);
            }
            lemma_find_char_at(ab, '\n', q);
            assert(ab.take(q) =~= a.take(q));
            assert(ab.skip(q) =~= a.skip(q) + b);
            assert(a =~= a.take(q) + a.skip(q));
            lemma_balance_concat(a.take(q), a.skip(q));
            lemma_no_brace_balance(a.take(q));
            lemma_tscan_concat(a.skip(q), b, d);
        } else if a[0] == '"' {
            let t = a.drop_first();
            lemma_find_char(t, '"');
            let q = find_char(t, '"')->0;
            assert(0 <= q && q + 2 <= a.len());
            let tb = ab.drop_first();
            assert(tb[q] == '"') by {
                assert(tb[q] == ab[q + 1]);
                assert(ab[q + 1] == a[q + 1]);
                assert(t[q] == a[q + 1]);
            }
            assert forall|j: int| 0 <= j < q implies tb[j] != '"' by {
                assert(tb[j] == a[j + 1]);
                assert(t[j] == a[j + 1]);
            }
            lemma_find_char_at(tb, '"', q);
            assert(ab.subrange(1, q + 1) =~= a.subrange(1, q + 1));
            assert(ab.skip(q + 2) =~= a.skip(q + 2) + b);
            assert(a =~= a.take(q + 2) + a.skip(q + 2));
            lemma_balance_concat(a.take(q + 2), a.skip(q + 2));
            assert(no_brace(a.take(q + 2))) by {
                assert forall|k: int| 0 <= k < a.take(q + 2).len() implies #[trigger] a.take(q + 2)[k]
                    != '{' && a.take(q + 2)[k] != '}' by {
                    if 0 < k < q + 1 {
                        assert(a.take(q + 2)[k] == a.subrange(1, q + 1)[k - 1]);
                    } else if k == q + 1 {
                        assert(a.take(q + 2)[k] == t[q]);
                    }
                }
            }
            lemma_no_brace_balance(a.take(q + 2));
            lemma_tscan_concat(a.skip(q + 2), b, d);
        } else {
            let d2 = d + brace_delta(a[0]);
            assert(ab.drop_first() =~= a.drop_first() + b);
            lemma_balance_first(a);
            lemma_tscan_concat(a.drop_first(), b, d2);
        }
    }
}

proof fn lemma_skip_line_at(s: Seq<char>, p: int, q: int)
    requires
        0 <= p <= q < s.len(),
        s[q] == '\n',
        forall|k: int| p <= k < q ==> s[k] != '\n',
    ensures
        skip_line(s, p) == q,
    decreases q - p,
{
    if p < q {
        lemma_skip_line_at(s, p + 1, q);
    }
}

proof fn lemma_skip_quoted_at(s: Seq<char>, p: int, q: int)
    requires
        0 <= p <= q < s.len(),
        s[q] == '"',
        forall|k: int| p <= k < q ==> s[k] != '"' && s[k] != '\\',
    ensures
        skip_quoted(s, p) == q,
    decreases q - p,
{
    if p < q {
        lemma_skip_quoted_at(s, p + 1, q);
    }
}

/// The brace scan passes over a segment that [`tscan`] accepts.
pub proof fn lemma_brace_end_tseg(s: Seq<char>, pos: int, d: int, seg: Seq<char>)
    requires
        0 <= pos,
        pos + seg.len() <= s.len(),
        s.subrange(pos, pos + seg.len()) == seg,
        tscan(seg, d),
    ensures
        brace_scan(s, pos, d) == brace_scan(s, pos + seg.len(), d + brace_balance(seg)),
    decreases seg.len(),
{
    if seg.len() > 0 {
        assert(s[pos] == seg[0]);
        if seg[0] == '#' {
            lemma_find_char(seg, '\n');
            let q = find_char(seg, '\n')->0;
            assert forall|k: int| pos <= k < pos + q implies s[k] != '\n' by {
                assert(s[k] == seg[k - pos]);
            }
            assert(s[pos + q] == seg[q]);
            lemma_skip_line_at(s, pos, pos + q);
            let rest = seg.skip(q);
            assert(s.subrange(pos + q, pos + q + rest.len()) =~= rest);
            lemma_brace_end_tseg(s, pos + q, d, rest);
            assert(seg =~= seg.take(q) + rest);
            lemma_balance_concat(seg.take(q), rest);
            lemma_no_brace_balance(seg.take(q));
        } else if seg[0] == '"' {
            let t = seg.drop_first();
            lemma_find_char(t, '"');
            let q = find_char(t, '"')->0;
            let str = seg.subrange(1, q + 1);
            assert forall|k: int| pos + 1 <= k < pos + 1 + q implies s[k] != '"' && s[k] != '\\' by {
                assert(s[k] == seg[k - pos]);
                assert(t[k - pos - 1] == seg[k - pos]);
                assert(str[k - pos - 1] == seg[k - pos]);
            }
            assert(s[pos + 1 + q] == seg[q + 1]);
            assert(t[q] == seg[q + 1]);
            lemma_skip_quoted_at(s, pos + 1, pos + 1 + q);
            let rest = seg.skip(q + 2);
            assert(s.subrange(pos + q + 2, pos + q + 2 + rest.len()) =~= rest);
            lemma_brace_end_tseg(s, pos + q + 2, d, rest);
            assert(seg =~= seg.take(q + 2) + rest);
            lemma_balance_concat(seg.take(q + 2), rest);
            assert(no_brace(seg.take(q + 2))) by {
                assert forall|k: int| 0 <= k < seg.take(q + 2).len() implies #[trigger] seg.take(
                    q + 2,
                )[k] != '{' && seg.take(q + 2)[k] != '}' by {
                    if 0 < k < q + 1 {
                        assert(seg.take(q + 2)[k] == str[k - 1]);
                    } else if k == q + 1 {
                        assert(seg.take(q + 2)[k] == t[q]);
                    }
                }
            }
            lemma_no_brace_balance(seg.take(q + 2));
        } else {
            let d2 = d + brace_delta(seg[0]);
            assert(brace_scan(s, pos, d) == brace_scan(s, pos + 1, d2));
            let rest = seg.drop_first();
            assert(s.subrange(pos + 1, pos + 1 + rest.len()) =~= rest);
            lemma_brace_end_tseg(s, pos + 1, d2, rest);
            lemma_balance_first(seg);
        }
    }
}

/// The comments and strings of a line are closed and hold no brace: a `#`
/// comment runs to the end of the line, and a `"` string closes on the line
/// and holds no `\` either.
pub open spec fn tok_ok(t: Seq<char>) -> bool
    decreases t.len(),
{
    if t.len() == 0 {
        true
    } else if t[0] == '#' {
        no_brace(t)
    } else if t[0] == '"' {
        match find_char(t.drop_first(), '"') {
            Some(q) => if 0 <= q && q + 2 <= t.len() {
                plain_string(t.subrange(1, q + 1)) && tok_ok(t.skip(q + 2))
            } else {
                false
            },
            None => false,
        }
    } else {
        tok_ok(t.drop_first())
    }
}

/// A line whose comments and strings are closed, which keeps the depth
/// positive and is followed by a line break, scans as the brace scan does.
pub proof fn lemma_tok_tscan(t: Seq<char>, d: int, tail: Seq<char>)
    requires
        tok_ok(t),
        forall|k: int| 0 <= k < t.len() ==> #[trigger] t[k] != '\n',
        forall|k: int| 0 <= k <= t.len() ==> d + brace_balance(#[trigger] t.take(k)) >= 1,
        tail.len() > 0,
        tail[0] == '\n',
        tscan(tail, d + brace_balance(t)),
    ensures
        tscan(t + tail, d),
    decreases t.len(),
{
    let s = t + tail;
    assert(t.take(0) =~= Seq::<char>::empty());
    assert(brace_balance(t.take(0)) == 0);
    assert(d >= 1);
    if t.len() == 0 {
        assert(s =~= tail);
        assert(brace_balance(t) == 0);
    } else if t[0] == '#' {
        let q = t.len() as int;
        assert(s[0] == '#');
        assert(s[q] == '\n');
        assert forall|j: int| 0 <= j < q implies s[j] != '\n' by {
            assert(s[j] == t[j]);
        }
        lemma_find_char_at(s, '\n', q);
        assert(s.take(q) =~= t);
        assert(s.skip(q) =~= tail);
        lemma_no_brace_balance(t);
    } else if t[0] == '"' {
        let u = t.drop_first();
        lemma_find_char(u, '"');
        let q = find_char(u, '"')->0;
        let su = s.drop_first();
        assert(su[q] == '"') by {
            assert(su[q] == s[q + 1]);
            assert(u[q] == t[q + 1]);
        }
        assert forall|j: int| 0 <= j < q implies su[j] != '"' by {
            assert(su[j] == t[j + 1]);
            assert(u[j] == t[j + 1]);
        }
        lemma_find_char_at(su, '"', q);
        assert(s.subrange(1, q + 1) =~= t.subrange(1, q + 1));
        let rest = t.skip(q + 2);
        assert(s.skip(q + 2) =~= rest + tail);
        assert(no_brace(t.take(q + 2))) by {
            assert forall|k: int| 0 <= k < t.take(q + 2).len() implies #[trigger] t.take(q + 2)[k]
                != '{' && t.take(q + 2)[k] != '}' by {
                if 0 < k < q + 1 {
                    assert(t.take(q + 2)[k] == t.subrange(1, q + 1)[k - 1]);
                } else if k == q + 1 {
                    assert(t.take(q + 2)[k] == u[q]);
                }
            }
        }
        lemma_no_brace_balance(t.take(q + 2));
        assert(t =~= t.take(q + 2) + rest);
        lemma_balance_concat(t.take(q + 2), rest);
        assert forall|k: int| 0 <= k < rest.len() implies #[trigger] rest[k] != '\n' by {
            assert(rest[k] == t[k + q + 2]);
        }
        assert forall|k: int| 0 <= k <= rest.len() implies d + brace_balance(#[trigger] rest.take(k))
            >= 1 by {
            assert(t.take(q + 2 + k) =~= t.take(q + 2) + rest.take(k));
            lemma_balance_concat(t.take(q + 2), rest.take(k));
            assert(d + brace_balance(t.take(q + 2 + k)) >= 1);
        }
        lemma_tok_tscan(rest, d, tail);
    } else {
        let u = t.drop_first();
        let d2 = d + brace_delta(t[0]);
        assert(s.drop_first() =~= u + tail);
        lemma_balance_first(t);
        assert forall|k: int| 0 <= k < u.len() implies #[trigger] u[k] != '\n' by {
            assert(u[k] == t[k + 1]);
        }
        assert forall|k: int| 0 <= k <= u.len() implies d2 + brace_balance(#[trigger] u.take(k))
            >= 1 by {
            assert(t.take(k + 1).drop_first() =~= u.take(k));
            lemma_balance_first(t.take(k + 1));
            assert(t.take(k + 1)[0] == t[0]);
            assert(d + brace_balance(t.take(k + 1)) >= 1);
        }
        lemma_tok_tscan(u, d2, tail);
    }
}

} // verus!
