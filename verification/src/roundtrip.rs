//! What reading gives back of what writing wrote.
//!
//! A written focus file is a sequence of lines, most of them `key = value`
//! lines. The lemmas below follow the reader over those lines: each key finds
//! the line written for it, and no other line.
use vstd::prelude::*;
use crate::parser::{
    blocks_ok, brace_closes, brace_scan, focuses_ok, list_field_ok, list_line_ok,
    search_filters_ok, shortcut_pattern, single_focus_ok, skip_line, filter_line_ok,
    brace_block, focuses_in, focuses_of, parse_tree, tree_brace,
    brace_end, brace_step, close_from, focus_blocks, joined, line_close, opens_focus,
    block_as_text, bypass_flag, cost_of_value, filters_of_line, first_key_line, first_value,
    has_key, int_of_value, is_filter_line, line_value, list_item, list_items, opt_seq,
    search_filters_in, simple_string, single_focus, words_without_eq, block_lines_from,
    block_text_ok, line_state,
};
use crate::cost::{
    CostView, canonical, clamp_i32, cost_file_text, fraction_text, pad_zeros, parse_cost, pow10,
    sign_text, signed_mantissa, split_point, strip_zeros_end,
};
use crate::model::NodeView;
use crate::model::TreeView;
use crate::writer::{
    nodes_text, shortcut_text, shortcuts_text, tree_text,
    block_text, cost_line, filters_text, list_lines, node_blocks_text, node_head_text,
    node_lists_text, node_text, opt_line, spaced,
};
use crate::shortcutread::{lemma_tree_shortcuts, raws_pf};
use crate::rawblock::{
    lemma_blocks_text, lemma_close_from_raws, lemma_raws_reads, lemma_raws_scan, raws_lines, raws_ok,
    reread_node,
};
use crate::tokscan::{
    lemma_brace_end_tseg, lemma_no_brace_balance, lemma_scan_tscan,
    lemma_tok_tscan, lemma_tscan_concat, no_brace, tok_ok, tscan,
};
use crate::text::{
    all_digits, digit_char, digit_value, digits_value, find_char, int_text, is_digit, is_ws,
    lemma_find_char_none, lemma_find_seq_at, nat_text, occurs_at, parse_i32, replace_crlf,
    split_sign, split_whitespace, split_ws_from, starts_with, lemma_find_char, lemma_find_char_at, lines, strip_cr, strip_quotes,
    strip_quotes_end, strip_quotes_start, trim, trim_end, trim_start,
};

verus! {

// ------------------------------------------------------------------------
// Lines
// ------------------------------------------------------------------------

/// The lines, each followed by `\n`.
pub open spec fn unlines(ls: Seq<Seq<char>>) -> Seq<char>
    decreases ls.len(),
{
    if ls.len() == 0 {
        Seq::empty()
    } else {
        ls[0] + seq!['\n'] + unlines(ls.drop_first())
    }
}

/// A line holds no `\n` and does not end with `\r`.
pub open spec fn plain_line(l: Seq<char>) -> bool {
    &&& forall|i: int| 0 <= i < l.len() ==> #[trigger] l[i] != '\n'
    &&& (l.len() == 0 || l.last() != '\r')
}

pub open spec fn plain_lines(ls: Seq<Seq<char>>) -> bool {
    forall|i: int| 0 <= i < ls.len() ==> plain_line(#[trigger] ls[i])
}

pub proof fn lemma_unlines_concat(a: Seq<Seq<char>>, b: Seq<Seq<char>>)
    ensures
        unlines(a + b) == unlines(a) + unlines(b),
    decreases a.len(),
{
    if a.len() == 0 {
        assert(a + b =~= b);
        assert(unlines(a) + unlines(b) =~= unlines(b));
    } else {
        lemma_unlines_concat(a.drop_first(), b);
        assert((a + b).drop_first() =~= a.drop_first() + b);
        assert((a + b)[0] == a[0]);
        assert(unlines(a + b) =~= a[0] + seq!['\n'] + unlines(a.drop_first() + b));
        assert(unlines(a) + unlines(b) =~= a[0] + seq!['\n'] + (unlines(a.drop_first()) + unlines(
            b,
        )));
    }
}

pub proof fn lemma_unlines_one(l: Seq<char>)
    ensures
        unlines(seq![l]) == l + seq!['\n'],
{
    assert(seq![l].drop_first() =~= Seq::<Seq<char>>::empty());
    assert(seq![l][0] == l);
    assert(unlines(Seq::<Seq<char>>::empty()) == Seq::<char>::empty());
    assert(unlines(seq![l]) =~= l + seq!['\n']);
}

/// Reading the lines of written lines gives them back.
pub proof fn lemma_lines_unlines(ls: Seq<Seq<char>>, tail: Seq<char>)
    requires
        plain_lines(ls),
    ensures
        lines(unlines(ls) + tail) == ls + lines(tail),
    decreases ls.len(),
{
    if ls.len() == 0 {
        assert(unlines(ls) + tail =~= tail);
        assert(ls + lines(tail) =~= lines(tail));
    } else {
        let l = ls[0];
        let rest = ls.drop_first();
        assert(plain_line(l));
        assert forall|i: int| 0 <= i < rest.len() implies plain_line(#[trigger] rest[i]) by {
            assert(rest[i] == ls[i + 1]);
        }
        lemma_lines_unlines(rest, tail);
        let s = unlines(ls) + tail;
        assert(s =~= l + seq!['\n'] + (unlines(rest) + tail));
        let k = l.len() as int;
        assert(s[k] == '\n');
        assert forall|j: int| 0 <= j < k implies s[j] != '\n' by {
            assert(s[j] == l[j]);
        }
        lemma_find_char_at(s, '\n', k);
        assert(s.take(k) =~= l);
        assert(strip_cr(l) == l);
        assert(s.skip(k + 1) =~= unlines(rest) + tail);
        assert(lines(s) == seq![strip_cr(s.take(k))] + lines(s.skip(k + 1)));
        assert(ls =~= seq![l] + rest);
        assert(lines(s) =~= ls + lines(tail));
    }
}

// ------------------------------------------------------------------------
// Trimming
// ------------------------------------------------------------------------

pub open spec fn all_ws(s: Seq<char>) -> bool {
    forall|i: int| 0 <= i < s.len() ==> is_ws(#[trigger] s[i])
}

/// Neither end of `s` is whitespace, and it is not empty.
pub open spec fn solid(s: Seq<char>) -> bool {
    s.len() > 0 && !is_ws(s[0]) && !is_ws(s.last())
}

pub proof fn lemma_trim_start_ws(w: Seq<char>, s: Seq<char>)
    requires
        all_ws(w),
    ensures
        trim_start(w + s) == trim_start(s),
    decreases w.len(),
{
    if w.len() == 0 {
        assert(w + s =~= s);
    } else {
        assert((w + s)[0] == w[0]);
        assert((w + s).drop_first() =~= w.drop_first() + s);
        assert forall|i: int| 0 <= i < w.drop_first().len() implies is_ws(
            #[trigger] w.drop_first()[i],
        ) by {
            assert(w.drop_first()[i] == w[i + 1]);
        }
        lemma_trim_start_ws(w.drop_first(), s);
    }
}

/// Trimming whitespace in front of a solid text gives the text.
pub proof fn lemma_trim_ws_solid(w: Seq<char>, s: Seq<char>)
    requires
        all_ws(w),
        solid(s),
    ensures
        trim(w + s) == s,
{
    lemma_trim_start_ws(w, s);
    assert(trim_start(s) == s);
    assert(trim_end(s) == s);
}

pub proof fn lemma_trim_solid(s: Seq<char>)
    requires
        solid(s),
    ensures
        trim(s) == s,
{
    lemma_trim_ws_solid(Seq::empty(), s);
    assert(Seq::<char>::empty() + s =~= s);
}

/// A text without quotes at its ends keeps them.
pub proof fn lemma_strip_quotes_none(s: Seq<char>)
    requires
        s.len() > 0,
        s[0] != '"',
        s.last() != '"',
    ensures
        strip_quotes(s) == s,
{
    assert(strip_quotes_start(s) == s);
    assert(strip_quotes_end(s) == s);
}

// ------------------------------------------------------------------------
// `key = value` lines
// ------------------------------------------------------------------------

pub open spec fn is_word_char(c: char) -> bool {
    ('a' <= c && c <= 'z') || c == '_'
}

/// A key: lowercase letters and `_`.
pub open spec fn word(s: Seq<char>) -> bool {
    s.len() > 0 && forall|i: int| 0 <= i < s.len() ==> #[trigger] is_word_char(s[i])
}

/// The text `kw = v`.
pub open spec fn kv(kw: Seq<char>, v: Seq<char>) -> Seq<char> {
    kw + seq![' ', '=', ' '] + v
}

/// A value that a `key = value` line gives back: solid, without quotes at its
/// ends and without `{`.
pub open spec fn value_ok(v: Seq<char>) -> bool {
    &&& solid(v)
    &&& v[0] != '"'
    &&& v.last() != '"'
    &&& forall|i: int| 0 <= i < v.len() ==> #[trigger] v[i] != '{'
}

/// A `kw = v` line has the key `key` exactly when `kw` is `key`.
pub proof fn lemma_has_key_kv(kw: Seq<char>, v: Seq<char>, key: Seq<char>)
    requires
        word(kw),
        word(key),
    ensures
        has_key(kv(kw, v), key) <==> kw == key,
{
    let t = kv(kw, v);
    assert(t[kw.len() as int] == ' ');
    assert(t[kw.len() as int + 1] == '=');
    if kw == key {
        assert(t.take(key.len() as int + 2) =~= key + seq![' ', '=']);
    } else {
        let p1 = key + seq![' ', '='];
        let p2 = key + seq!['='];
        if key.len() < kw.len() {
            assert(is_word_char(kw[key.len() as int]));
            if starts_with(t, p1) {
                assert(t.take(p1.len() as int)[key.len() as int] == p1[key.len() as int]);
            }
            if starts_with(t, p2) {
                assert(t.take(p2.len() as int)[key.len() as int] == p2[key.len() as int]);
            }
        } else if key.len() > kw.len() {
            assert(is_word_char(key[kw.len() as int]));
            if starts_with(t, p1) {
                assert(t.take(p1.len() as int)[kw.len() as int] == p1[kw.len() as int]);
            }
            if starts_with(t, p2) {
                assert(t.take(p2.len() as int)[kw.len() as int] == p2[kw.len() as int]);
            }
        } else {
            if starts_with(t, p1) {
                assert forall|i: int| 0 <= i < kw.len() implies kw[i] == key[i] by {
                    assert(t.take(p1.len() as int)[i] == p1[i]);
                }
                assert(kw =~= key);
            }
            if starts_with(t, p2) {
                assert forall|i: int| 0 <= i < kw.len() implies kw[i] == key[i] by {
                    assert(t.take(p2.len() as int)[i] == p2[i]);
                }
                assert(kw =~= key);
            }
        }
    }
}

/// Trimming an indented `kw = v` line leaves `kw = v`.
pub proof fn lemma_trim_kv(ind: Seq<char>, kw: Seq<char>, v: Seq<char>)
    requires
        all_ws(ind),
        word(kw),
        v.len() > 0,
        !is_ws(v.last()),
    ensures
        trim(ind + kv(kw, v)) == kv(kw, v),
{
    let t = kv(kw, v);
    assert(t[0] == kw[0]);
    assert(is_word_char(kw[0]));
    assert(t.last() == v.last());
    assert(ind + t =~= ind + kv(kw, v));
    lemma_trim_ws_solid(ind, t);
}

/// The value that an indented `kw = v` line gives to `key`: `v` for `kw`
/// itself, nothing for any other key.
pub proof fn lemma_line_value_kv(ind: Seq<char>, kw: Seq<char>, v: Seq<char>, key: Seq<char>)
    requires
        all_ws(ind),
        word(kw),
        word(key),
        v.len() > 0,
        !is_ws(v.last()),
        kw == key ==> value_ok(v),
    ensures
        line_value(ind + kv(kw, v), key) == if kw == key {
            Some(v)
        } else {
            None::<Seq<char>>
        },
{
    lemma_trim_kv(ind, kw, v);
    lemma_has_key_kv(kw, v, key);
    let t = kv(kw, v);
    if kw == key {
        let e = kw.len() as int + 1;
        assert(t[e] == '=');
        assert forall|j: int| 0 <= j < e implies t[j] != '=' by {
            if j < kw.len() {
                assert(t[j] == kw[j]);
                assert(is_word_char(kw[j]));
            }
        }
        lemma_find_char_at(t, '=', e);
        assert(t.skip(e + 1) =~= seq![' '] + v);
        assert(all_ws(seq![' ']));
        lemma_trim_ws_solid(seq![' '], v);
        lemma_strip_quotes_none(v);
        assert(!v.contains('{'));
    }
}

pub proof fn lemma_trim_end_ws(s: Seq<char>, w: Seq<char>)
    requires
        all_ws(w),
    ensures
        trim_end(s + w) == trim_end(s),
    decreases w.len(),
{
    if w.len() == 0 {
        assert(s + w =~= s);
    } else {
        assert((s + w).last() == w.last());
        assert((s + w).drop_last() =~= s + w.drop_last());
        assert forall|i: int| 0 <= i < w.drop_last().len() implies is_ws(
            #[trigger] w.drop_last()[i],
        ) by {
            assert(w.drop_last()[i] == w[i]);
        }
        lemma_trim_end_ws(s, w.drop_last());
    }
}

/// Trimming whitespace around a solid text gives the text.
pub proof fn lemma_trim_around(w1: Seq<char>, s: Seq<char>, w2: Seq<char>)
    requires
        all_ws(w1),
        all_ws(w2),
        solid(s),
    ensures
        trim(w1 + s + w2) == s,
{
    lemma_trim_start_ws(w1, s + w2);
    assert(w1 + s + w2 =~= w1 + (s + w2));
    assert((s + w2)[0] == s[0]);
    assert(trim_start(s + w2) == s + w2);
    lemma_trim_end_ws(s, w2);
    assert(trim_end(s) == s);
}

/// The lines of a text without `\n` that does not end in `\r`.
pub proof fn lemma_lines_single(l: Seq<char>)
    requires
        l.len() > 0,
        l.last() != '\r',
        forall|i: int| 0 <= i < l.len() ==> #[trigger] l[i] != '\n',
    ensures
        lines(l) == seq![l],
{
    lemma_find_char_none(l, '\n');
    assert(strip_cr(l) == l);
}

// ------------------------------------------------------------------------
// Entries: the `key = value` lines of a written block
// ------------------------------------------------------------------------

/// A written line: its indentation, key and value.
pub type Entry = (Seq<char>, Seq<char>, Seq<char>);

pub open spec fn entry_line(e: Entry) -> Seq<char> {
    e.0 + kv(e.1, e.2)
}

pub open spec fn entry_lines(es: Seq<Entry>) -> Seq<Seq<char>> {
    es.map_values(|e: Entry| entry_line(e))
}

/// No line break.
pub open spec fn no_newline(s: Seq<char>) -> bool {
    forall|i: int| 0 <= i < s.len() ==> #[trigger] s[i] != '\n'
}

pub open spec fn entry_ok(e: Entry) -> bool {
    &&& all_ws(e.0)
    &&& no_newline(e.0)
    &&& word(e.1)
    &&& e.2.len() > 0
    &&& !is_ws(e.2.last())
    &&& no_newline(e.2)
}

pub open spec fn entries_ok(es: Seq<Entry>) -> bool {
    forall|i: int| 0 <= i < es.len() ==> entry_ok(#[trigger] es[i])
}

/// The value of the first entry with key `key`.
pub open spec fn kw_value(es: Seq<Entry>, key: Seq<char>) -> Option<Seq<char>>
    decreases es.len(),
{
    if es.len() == 0 {
        None
    } else if es[0].1 == key {
        Some(es[0].2)
    } else {
        kw_value(es.drop_first(), key)
    }
}

/// No entry has the key `key`.
pub open spec fn no_kw(es: Seq<Entry>, key: Seq<char>) -> bool {
    forall|i: int| 0 <= i < es.len() ==> (#[trigger] es[i]).1 != key
}

proof fn lemma_entries_drop_first(es: Seq<Entry>)
    requires
        es.len() > 0,
    ensures
        entry_lines(es) == seq![entry_line(es[0])] + entry_lines(es.drop_first()),
        entries_ok(es) ==> entries_ok(es.drop_first()),
{
    assert(entry_lines(es) =~= seq![entry_line(es[0])] + entry_lines(es.drop_first()));
    if entries_ok(es) {
        assert forall|i: int| 0 <= i < es.drop_first().len() implies entry_ok(
            #[trigger] es.drop_first()[i],
        ) by {
            assert(es.drop_first()[i] == es[i + 1]);
        }
    }
}

/// The first value that the lines of the entries, then `rest`, give to `key`.
pub proof fn lemma_first_value_entries(es: Seq<Entry>, rest: Seq<Seq<char>>, key: Seq<char>)
    requires
        entries_ok(es),
        word(key),
        kw_value(es, key) matches Some(v) ==> value_ok(v),
    ensures
        first_value(entry_lines(es) + rest, key) == match kw_value(es, key) {
            Some(v) => Some(v),
            None => first_value(rest, key),
        },
    decreases es.len(),
{
    if es.len() == 0 {
        assert(entry_lines(es) + rest =~= rest);
    } else {
        lemma_entries_drop_first(es);
        let ls = entry_lines(es) + rest;
        assert(ls =~= seq![entry_line(es[0])] + (entry_lines(es.drop_first()) + rest));
        assert(ls[0] == entry_line(es[0]));
        assert(ls.drop_first() =~= entry_lines(es.drop_first()) + rest);
        assert(entry_ok(es[0]));
        lemma_line_value_kv(es[0].0, es[0].1, es[0].2, key);
        if es[0].1 != key {
            lemma_first_value_entries(es.drop_first(), rest, key);
        }
    }
}

pub broadcast proof fn lemma_kw_value_concat(a: Seq<Entry>, b: Seq<Entry>, key: Seq<char>)
    ensures
        #[trigger] kw_value(a + b, key) == match kw_value(a, key) {
            Some(v) => Some(v),
            None => kw_value(b, key),
        },
    decreases a.len(),
{
    if a.len() == 0 {
        assert(a + b =~= b);
    } else {
        assert((a + b)[0] == a[0]);
        assert((a + b).drop_first() =~= a.drop_first() + b);
        lemma_kw_value_concat(a.drop_first(), b, key);
    }
}

pub proof fn lemma_kw_value_none(es: Seq<Entry>, key: Seq<char>)
    requires
        no_kw(es, key),
    ensures
        kw_value(es, key) is None,
    decreases es.len(),
{
    if es.len() > 0 {
        assert(es[0].1 != key);
        assert forall|i: int| 0 <= i < es.drop_first().len() implies (
        #[trigger] es.drop_first()[i]).1 != key by {
            assert(es.drop_first()[i] == es[i + 1]);
        }
        lemma_kw_value_none(es.drop_first(), key);
    }
}

// ------------------------------------------------------------------------
// List lines: `key = { focus = id }`
// ------------------------------------------------------------------------

/// No line break, brace, quote or `#`.
pub open spec fn no_special(v: Seq<char>) -> bool {
    forall|i: int|
        0 <= i < v.len() ==> {
            let c = #[trigger] v[i];
            c != '\n' && c != '\r' && c != '{' && c != '}' && c != '"' && c != '#'
        }
}

/// A value that is written on a line and read back unchanged.
pub open spec fn text_ok(v: Seq<char>) -> bool {
    solid(v) && no_special(v)
}

pub proof fn lemma_text_ok_value(v: Seq<char>)
    requires
        text_ok(v),
    ensures
        value_ok(v),
{
    assert(v[0] != '"' && v[v.len() - 1] != '"');
}

/// The value of a single `key = value` line that is written and read back
/// unchanged: solid, without a quote at either end, without line breaks or
/// braces, and with its comments and strings closed (see [`tok_ok`]). Every
/// [`text_ok`] text is one.
pub open spec fn name_ok(v: Seq<char>) -> bool {
    &&& solid(v)
    &&& v[0] != '"'
    &&& v.last() != '"'
    &&& forall|i: int|
        0 <= i < v.len() ==> #[trigger] v[i] != '\n' && v[i] != '\r' && v[i] != '{' && v[i] != '}'
    &&& tok_ok(v)
}

/// A text without quotes or `#` has its comments and strings closed.
pub proof fn lemma_plain_tok(v: Seq<char>)
    requires
        forall|i: int| 0 <= i < v.len() ==> #[trigger] v[i] != '"' && v[i] != '#',
    ensures
        tok_ok(v),
    decreases v.len(),
{
    if v.len() > 0 {
        assert forall|i: int| 0 <= i < v.drop_first().len() implies #[trigger] v.drop_first()[i]
            != '"' && v.drop_first()[i] != '#' by {
            assert(v.drop_first()[i] == v[i + 1]);
        }
        lemma_plain_tok(v.drop_first());
    }
}

pub proof fn lemma_name_ok_value(v: Seq<char>)
    requires
        name_ok(v),
    ensures
        value_ok(v),
{
    assert(v[0] != '"' && v[v.len() - 1] != '"');
}

/// A single line of a [`name_ok`] value is a balanced entry.
proof fn lemma_flat_name(kw: Seq<char>, v: Seq<char>)
    requires
        name_ok(v),
    ensures
        flat(single(kw, v)),
        no_brace(v),
        no_newline(v),
{
    assert(single(kw, v)[0].2 == v);
    assert(flat_value(v));
}

/// The value of a list line: `{ focus = p }`.
pub open spec fn list_value(p: Seq<char>) -> Seq<char> {
    seq!['{', ' '] + kv("focus"@, p) + seq![' ', '}']
}

pub open spec fn list_entries(ind: Seq<char>, bk: Seq<char>, ps: Seq<Seq<char>>) -> Seq<Entry> {
    ps.map_values(|p: Seq<char>| (ind, bk, list_value(p)))
}

pub proof fn lemma_focus_word()
    ensures
        word("focus"@),
        "focus"@.len() == 5,
{
    reveal_strlit("focus");
}

/// A list line gives its item.
#[verifier::spinoff_prover]
#[verifier::rlimit(40)]
pub proof fn lemma_list_item_line(ind: Seq<char>, bk: Seq<char>, p: Seq<char>)
    requires
        all_ws(ind),
        word(bk),
        text_ok(p),
    ensures
        list_item(ind + kv(bk, list_value(p)), bk, "focus"@) == Some(p),
{
    lemma_focus_word();
    let f = "focus"@;
    let lv = list_value(p);
    let t = kv(bk, lv);
    lemma_trim_kv(ind, bk, lv);
    lemma_has_key_kv(bk, lv, bk);
    let o = bk.len() as int + 3;
    assert(t[o] == '{');
    assert forall|j: int| 0 <= j < o implies t[j] != '{' by {
        if j < bk.len() {
            assert(t[j] == bk[j] && is_word_char(bk[j]));
        }
    }
    lemma_find_char_at(t, '{', o);
    let c = t.len() - 1;
    assert(t[c] == '}');
    assert forall|j: int| 0 <= j < c implies t[j] != '}' by {
        if j < bk.len() {
            assert(t[j] == bk[j] && is_word_char(bk[j]));
        } else if o + 2 <= j < o + 7 {
            assert(t[j] == f[j - o - 2] && is_word_char(f[j - o - 2]));
        } else if o + 10 <= j < o + 10 + p.len() {
            assert(t[j] == p[j - o - 10]);
        }
    }
    lemma_find_char_at(t, '}', c);
    let x = t.subrange(o + 1, c);
    assert(x =~= seq![' '] + kv(f, p) + seq![' ']);
    assert forall|i: int| 0 <= i < x.len() implies #[trigger] x[i] != '\n' by {
        if o + 1 <= i + o + 1 < o + 2 {
        } else if 1 <= i < 6 {
            assert(x[i] == f[i - 1] && is_word_char(f[i - 1]));
        } else if 9 <= i < 9 + p.len() {
            assert(x[i] == p[i - 9]);
        }
    }
    lemma_lines_single(x);
    assert(seq![x].drop_first() =~= Seq::<Seq<char>>::empty());
    assert(all_ws(seq![' ']));
    assert(kv(f, p)[0] == f[0] && is_word_char(f[0]));
    assert(kv(f, p).last() == p.last());
    lemma_trim_around(seq![' '], kv(f, p), seq![' ']);
    lemma_text_ok_value(p);
    lemma_line_value_kv(Seq::empty(), f, p, f);
    assert(Seq::<char>::empty() + kv(f, p) =~= kv(f, p));
    assert(line_value(x, f) == line_value(Seq::<char>::empty() + kv(f, p), f));
}

pub broadcast proof fn lemma_list_items_concat(
    a: Seq<Seq<char>>,
    b: Seq<Seq<char>>,
    bk: Seq<char>,
    ik: Seq<char>,
)
    ensures
        #[trigger] list_items(a + b, bk, ik) == list_items(a, bk, ik) + list_items(b, bk, ik),
    decreases a.len(),
{
    if a.len() == 0 {
        assert(a + b =~= b);
        assert(list_items(a, bk, ik) + list_items(b, bk, ik) =~= list_items(b, bk, ik));
    } else {
        assert((a + b)[0] == a[0]);
        assert((a + b).drop_first() =~= a.drop_first() + b);
        lemma_list_items_concat(a.drop_first(), b, bk, ik);
        assert(list_items(a + b, bk, ik) =~= list_items(a, bk, ik) + list_items(b, bk, ik));
    }
}

/// Lines of entries without the list key give no item.
pub proof fn lemma_list_items_none(es: Seq<Entry>, bk: Seq<char>, ik: Seq<char>)
    requires
        entries_ok(es),
        word(bk),
        no_kw(es, bk),
    ensures
        list_items(entry_lines(es), bk, ik) == Seq::<Seq<char>>::empty(),
    decreases es.len(),
{
    if es.len() > 0 {
        lemma_entries_drop_first(es);
        assert(entry_ok(es[0]));
        lemma_trim_kv(es[0].0, es[0].1, es[0].2);
        lemma_has_key_kv(es[0].1, es[0].2, bk);
        assert(es[0].1 != bk);
        assert(list_item(entry_line(es[0]), bk, ik) is None);
        assert forall|i: int| 0 <= i < es.drop_first().len() implies (
        #[trigger] es.drop_first()[i]).1 != bk by {
            assert(es.drop_first()[i] == es[i + 1]);
        }
        lemma_list_items_none(es.drop_first(), bk, ik);
        let ls = entry_lines(es);
        assert(ls[0] == entry_line(es[0]));
        assert(ls.drop_first() == entry_lines(es.drop_first()));
        assert(list_items(ls, bk, ik) =~= Seq::<Seq<char>>::empty());
    } else {
        assert(entry_lines(es) =~= Seq::<Seq<char>>::empty());
    }
}

/// The lines of list entries give their items.
pub proof fn lemma_list_items_entries(ind: Seq<char>, bk: Seq<char>, ps: Seq<Seq<char>>)
    requires
        all_ws(ind),
        word(bk),
        forall|i: int| 0 <= i < ps.len() ==> text_ok(#[trigger] ps[i]),
    ensures
        list_items(entry_lines(list_entries(ind, bk, ps)), bk, "focus"@) == ps,
    decreases ps.len(),
{
    let es = list_entries(ind, bk, ps);
    if ps.len() > 0 {
        assert(es[0] == (ind, bk, list_value(ps[0])));
        lemma_list_item_line(ind, bk, ps[0]);
        assert(es.drop_first() =~= list_entries(ind, bk, ps.drop_first()));
        assert forall|i: int| 0 <= i < ps.drop_first().len() implies text_ok(
            #[trigger] ps.drop_first()[i],
        ) by {
            assert(ps.drop_first()[i] == ps[i + 1]);
        }
        lemma_list_items_entries(ind, bk, ps.drop_first());
        let ls = entry_lines(es);
        assert(ls[0] == entry_line(es[0]));
        assert(ls.drop_first() =~= entry_lines(es.drop_first()));
        assert(list_items(ls, bk, "focus"@) =~= seq![ps[0]] + ps.drop_first());
        assert(seq![ps[0]] + ps.drop_first() =~= ps);
    } else {
        assert(entry_lines(es) =~= Seq::<Seq<char>>::empty());
        assert(ps =~= Seq::<Seq<char>>::empty());
    }
}

// ------------------------------------------------------------------------
// The search-filter line: `search_filters = { A B }`
// ------------------------------------------------------------------------

/// A search filter that is written and read back: a word without whitespace,
/// `=` or the characters of [`no_special`].
pub open spec fn filter_ok(f: Seq<char>) -> bool {
    &&& f.len() > 0
    &&& no_special(f)
    &&& forall|i: int| 0 <= i < f.len() ==> !is_ws(#[trigger] f[i]) && f[i] != '='
}

pub open spec fn filters_ok(fs: Seq<Seq<char>>) -> bool {
    forall|i: int| 0 <= i < fs.len() ==> filter_ok(#[trigger] fs[i])
}

/// The value of the search-filter line.
pub open spec fn filters_value(fs: Seq<Seq<char>>) -> Seq<char> {
    seq!['{'] + spaced(fs) + seq![' ', '}']
}

proof fn lemma_split_word(w: Seq<char>, rest: Seq<char>, cur: Seq<char>)
    requires
        forall|i: int| 0 <= i < w.len() ==> !is_ws(#[trigger] w[i]),
    ensures
        split_ws_from(w + rest, cur) == split_ws_from(rest, cur + w),
    decreases w.len(),
{
    if w.len() == 0 {
        assert(w + rest =~= rest);
        assert(cur + w =~= cur);
    } else {
        assert((w + rest)[0] == w[0]);
        assert((w + rest).drop_first() =~= w.drop_first() + rest);
        assert(cur.push(w[0]) + w.drop_first() =~= cur + w);
        lemma_split_word(w.drop_first(), rest, cur.push(w[0]));
    }
}

proof fn lemma_split_concat(a: Seq<char>, b: Seq<char>, cur: Seq<char>)
    requires
        a.len() > 0,
        is_ws(a.last()),
    ensures
        split_ws_from(a + b, cur) == split_ws_from(a, cur) + split_whitespace(b),
    decreases a.len(),
{
    assert((a + b)[0] == a[0]);
    assert((a + b).drop_first() =~= a.drop_first() + b);
    if a.len() == 1 {
        assert(a.drop_first() + b =~= b);
        assert(is_ws(a[0]));
        assert(split_ws_from(a.drop_first(), Seq::empty()) =~= Seq::<Seq<char>>::empty());
        if cur.len() > 0 {
            assert(split_ws_from(a, cur) =~= seq![cur]);
        } else {
            assert(split_ws_from(a, cur) =~= Seq::<Seq<char>>::empty());
        }
        assert(split_ws_from(a + b, cur) =~= split_ws_from(a, cur) + split_whitespace(b));
    } else {
        assert(a.drop_first().last() == a.last());
        if is_ws(a[0]) {
            lemma_split_concat(a.drop_first(), b, Seq::empty());
            assert(split_ws_from(a + b, cur) =~= split_ws_from(a, cur) + split_whitespace(b));
        } else {
            lemma_split_concat(a.drop_first(), b, cur.push(a[0]));
        }
    }
}

/// The words of the spaced filters followed by a space are the filters.
proof fn lemma_split_spaced(fs: Seq<Seq<char>>)
    requires
        filters_ok(fs),
    ensures
        split_whitespace(spaced(fs) + seq![' ']) == fs,
    decreases fs.len(),
{
    reveal_strlit(" ");
    assert(" "@ =~= seq![' ']);
    assert(seq![' '].drop_first() =~= Seq::<char>::empty());
    assert(is_ws(' '));
    if fs.len() == 0 {
        assert(spaced(fs) + seq![' '] =~= seq![' ']);
        assert(split_ws_from(seq![' '], Seq::empty()) =~= Seq::<Seq<char>>::empty() + split_ws_from(
            Seq::<char>::empty(),
            Seq::empty(),
        ));
        assert(fs =~= Seq::<Seq<char>>::empty());
    } else {
        let init = fs.drop_last();
        let last = fs.last();
        assert forall|i: int| 0 <= i < init.len() implies filter_ok(#[trigger] init[i]) by {
            assert(init[i] == fs[i]);
        }
        lemma_split_spaced(init);
        let a = spaced(init) + seq![' '];
        assert(spaced(fs) + seq![' '] =~= a + (last + seq![' ']));
        lemma_split_concat(a, last + seq![' '], Seq::empty());
        assert(filter_ok(last));
        lemma_split_word(last, seq![' '], Seq::empty());
        assert(Seq::<char>::empty() + last =~= last);
        assert(split_ws_from(seq![' '], last) =~= seq![last] + split_ws_from(
            Seq::<char>::empty(),
            Seq::empty(),
        ));
        assert(split_ws_from(Seq::<char>::empty(), Seq::<char>::empty()) =~= Seq::<Seq<char>>::empty());
        assert(init + seq![last] =~= fs);
    }
}

proof fn lemma_words_without_eq(fs: Seq<Seq<char>>)
    requires
        filters_ok(fs),
    ensures
        words_without_eq(fs) == fs,
    decreases fs.len(),
{
    if fs.len() > 0 {
        assert(filter_ok(fs[0]));
        assert(!fs[0].contains('='));
        assert forall|i: int| 0 <= i < fs.drop_first().len() implies filter_ok(
            #[trigger] fs.drop_first()[i],
        ) by {
            assert(fs.drop_first()[i] == fs[i + 1]);
        }
        lemma_words_without_eq(fs.drop_first());
        assert(seq![fs[0]] + fs.drop_first() =~= fs);
    }
}

pub proof fn lemma_search_filters_word()
    ensures
        word("search_filters"@),
        "search_filters"@.len() == 14,
{
    reveal_strlit("search_filters");
}

proof fn lemma_spaced_facts(fs: Seq<Seq<char>>)
    requires
        filters_ok(fs),
    ensures
        forall|i: int| 0 <= i < spaced(fs).len() ==> #[trigger] spaced(fs)[i] != '}' && spaced(fs)[i]
            != '{' && spaced(fs)[i] != '\n',
    decreases fs.len(),
{
    if fs.len() > 0 {
        let init = fs.drop_last();
        assert forall|i: int| 0 <= i < init.len() implies filter_ok(#[trigger] init[i]) by {
            assert(init[i] == fs[i]);
        }
        lemma_spaced_facts(init);
        let s = spaced(fs);
        reveal_strlit(" ");
        assert(" "@ =~= seq![' ']);
        assert(s == spaced(init) + seq![' '] + fs.last());
        assert(filter_ok(fs.last()));
        assert forall|i: int| 0 <= i < s.len() implies #[trigger] s[i] != '}' && s[i] != '{' && s[i]
            != '\n' by {
            if i < spaced(init).len() {
                assert(s[i] == spaced(init)[i]);
            } else if i > spaced(init).len() {
                assert(s[i] == fs.last()[i - spaced(init).len() - 1]);
            }
        }
    }
}

/// The search-filter line gives its filters.
#[verifier::spinoff_prover]
#[verifier::rlimit(40)]
pub proof fn lemma_filters_line(ind: Seq<char>, fs: Seq<Seq<char>>, rest: Seq<Seq<char>>)
    requires
        all_ws(ind),
        filters_ok(fs),
    ensures
        search_filters_in(seq![ind + kv("search_filters"@, filters_value(fs))] + rest) == fs,
{
    lemma_search_filters_word();
    let sf = "search_filters"@;
    let fv = filters_value(fs);
    let t = kv(sf, fv);
    lemma_trim_kv(ind, sf, fv);
    let ls = seq![ind + t] + rest;
    assert(ls[0] == ind + t);
    assert(t.take(14) =~= sf);
    let o = 17int;
    assert(t[o] == '{');
    assert(t.contains('{'));
    assert(is_filter_line(t));
    assert forall|j: int| 0 <= j < o implies t[j] != '{' by {
        if j < 14 {
            assert(t[j] == sf[j] && is_word_char(sf[j]));
        }
    }
    lemma_find_char_at(t, '{', o);
    let c = t.len() - 1;
    lemma_spaced_facts(fs);
    assert forall|j: int| 0 <= j < c implies t[j] != '}' by {
        if j < 14 {
            assert(t[j] == sf[j] && is_word_char(sf[j]));
        } else if 18 <= j < 18 + spaced(fs).len() {
            assert(t[j] == spaced(fs)[j - 18]);
        }
    }
    lemma_find_char_at(t, '}', c);
    assert(t.subrange(o + 1, c) =~= spaced(fs) + seq![' ']);
    lemma_split_spaced(fs);
    lemma_words_without_eq(fs);
}

/// Lines of entries whose keys do not start with `search_filters` hold no
/// search-filter line.
pub proof fn lemma_filters_skip(es: Seq<Entry>, rest: Seq<Seq<char>>)
    requires
        entries_ok(es),
        forall|i: int| 0 <= i < es.len() ==> !starts_with((#[trigger] es[i]).1, "search_filters"@),
    ensures
        search_filters_in(entry_lines(es) + rest) == search_filters_in(rest),
    decreases es.len(),
{
    lemma_search_filters_word();
    let sf = "search_filters"@;
    if es.len() == 0 {
        assert(entry_lines(es) + rest =~= rest);
    } else {
        lemma_entries_drop_first(es);
        let e = es[0];
        assert(entry_ok(e));
        lemma_trim_kv(e.0, e.1, e.2);
        let t = kv(e.1, e.2);
        assert(!starts_with(e.1, sf));
        if starts_with(t, sf) {
            if sf.len() <= e.1.len() {
                assert(e.1.take(14) =~= t.take(14));
            } else {
                assert(t[e.1.len() as int] == ' ');
                assert(t.take(14)[e.1.len() as int] == t[e.1.len() as int]);
                assert(is_word_char(sf[e.1.len() as int]));
            }
        }
        let ls = entry_lines(es) + rest;
        assert(ls[0] == entry_line(e));
        assert(ls.drop_first() =~= entry_lines(es.drop_first()) + rest);
        assert forall|i: int| 0 <= i < es.drop_first().len() implies !starts_with(
            (#[trigger] es.drop_first()[i]).1,
            sf,
        ) by {
            assert(es.drop_first()[i] == es[i + 1]);
        }
        lemma_filters_skip(es.drop_first(), rest);
    }
}

/// Lines of entries without `key` hold no line that starts the raw block `key`.
pub proof fn lemma_first_key_line_none(es: Seq<Entry>, rest: Seq<Seq<char>>, key: Seq<char>)
    requires
        entries_ok(es),
        word(key),
        no_kw(es, key),
    ensures
        first_key_line(entry_lines(es) + rest, key) == match first_key_line(rest, key) {
            Some(i) => Some(i + es.len()),
            None => None::<int>,
        },
    decreases es.len(),
{
    if es.len() == 0 {
        assert(entry_lines(es) + rest =~= rest);
    } else {
        lemma_entries_drop_first(es);
        let e = es[0];
        assert(entry_ok(e));
        lemma_trim_kv(e.0, e.1, e.2);
        lemma_has_key_kv(e.1, e.2, key);
        let ls = entry_lines(es) + rest;
        assert(ls[0] == entry_line(e));
        assert(ls.drop_first() =~= entry_lines(es.drop_first()) + rest);
        assert forall|i: int| 0 <= i < es.drop_first().len() implies (
        #[trigger] es.drop_first()[i]).1 != key by {
            assert(es.drop_first()[i] == es[i + 1]);
        }
        lemma_first_key_line_none(es.drop_first(), rest, key);
    }
}

proof fn lemma_block_lines_shift(
    a: Seq<Seq<char>>,
    b: Seq<Seq<char>>,
    j: int,
    d: int,
    st: bool,
    acc: Seq<Seq<char>>,
)
    requires
        0 <= j,
    ensures
        block_lines_from(a + b, a.len() + j, d, st, acc) == block_lines_from(b, j, d, st, acc),
    decreases b.len() - j,
{
    if j < b.len() {
        assert((a + b)[a.len() + j] == b[j]);
        let (d2, s2) = line_state(b[j], d, st);
        let acc2 = if s2 {
            acc.push(b[j])
        } else {
            acc
        };
        if !(s2 && d2 == 0) {
            lemma_block_lines_shift(a, b, j + 1, d2, s2, acc2);
        }
    }
}

/// Lines in front that start no raw block `key` do not change how it reads.
pub proof fn lemma_block_as_text_shift(a: Seq<Seq<char>>, b: Seq<Seq<char>>, key: Seq<char>)
    requires
        first_key_line(a + b, key) == match first_key_line(b, key) {
            Some(i) => Some(i + a.len()),
            None => None::<int>,
        },
    ensures
        block_as_text(a + b, key) == block_as_text(b, key),
        block_text_ok(a + b, key) == block_text_ok(b, key),
{
    crate::parser::lemma_first_key_line(b, key);
    match first_key_line(b, key) {
        Some(i) => {
            assert((a + b)[i + a.len()] == b[i]);
            lemma_block_lines_shift(a, b, i, 0, false, Seq::empty());
        },
        None => {},
    }
}

// ------------------------------------------------------------------------
// Numbers
// ------------------------------------------------------------------------

proof fn lemma_digit_char(d: int)
    requires
        0 <= d < 10,
    ensures
        is_digit(digit_char(d)),
        digit_value(digit_char(d)) == d,
        digit_char(d) != '0' <==> d != 0,
{
}

/// The decimal digits of `n` are digits, and spell `n`.
pub proof fn lemma_nat_text(n: nat)
    ensures
        nat_text(n).len() > 0,
        all_digits(nat_text(n)),
        digits_value(nat_text(n)) == n,
        nat_text(n).last() == digit_char((n % 10) as int),
    decreases n,
{
    if n < 10 {
        lemma_digit_char(n as int);
        let t = seq![digit_char(n as int)];
        assert(t.drop_last() =~= Seq::<char>::empty());
        assert(digits_value(t) == digits_value(t.drop_last()) * 10 + digit_value(t.last()));
        assert(digits_value(Seq::<char>::empty()) == 0);
    } else {
        lemma_nat_text(n / 10);
        lemma_digit_char((n % 10) as int);
        let t = nat_text(n / 10).push(digit_char((n % 10) as int));
        assert(t.drop_last() =~= nat_text(n / 10));
        assert(digits_value(t) == digits_value(t.drop_last()) * 10 + digit_value(t.last()));
        assert((n / 10) * 10 + n % 10 == n);
        assert forall|i: int| 0 <= i < t.len() implies #[trigger] is_digit(t[i]) by {
            if i < t.len() - 1 {
                assert(t[i] == nat_text(n / 10)[i]);
            }
        }
    }
}

/// `n` has at most `k` digits when it is below `10^k`.
pub proof fn lemma_nat_text_len(n: nat, k: nat)
    requires
        k >= 1,
        n < pow10(k),
    ensures
        nat_text(n).len() <= k,
    decreases n,
{
    if n >= 10 {
        assert(pow10(k) == 10 * pow10((k - 1) as nat));
        if k == 1 {
            assert(pow10(0) == 1);
        } else {
            assert(n / 10 < pow10((k - 1) as nat));
            lemma_nat_text_len(n / 10, (k - 1) as nat);
        }
    }
}

/// Reading `int_text(v)` as an `i32` gives `v`.
pub proof fn lemma_parse_int_text(v: i32)
    ensures
        parse_i32(int_text(v as int)) == Some(v),
{
    if v < 0 {
        let m = (-(v as int)) as nat;
        lemma_nat_text(m);
        let t = seq!['-'] + nat_text(m);
        assert(t.drop_first() =~= nat_text(m));
    } else {
        lemma_nat_text(v as nat);
        assert(is_digit(nat_text(v as nat)[0]));
    }
}

proof fn lemma_digits_value_concat(a: Seq<char>, b: Seq<char>)
    ensures
        digits_value(a + b) == digits_value(a) * pow10(b.len()) + digits_value(b),
    decreases b.len(),
{
    if b.len() == 0 {
        assert(a + b =~= a);
        assert(pow10(0) == 1);
    } else {
        lemma_digits_value_concat(a, b.drop_last());
        assert((a + b).drop_last() =~= a + b.drop_last());
        assert((a + b).last() == b.last());
        let x = digits_value(a);
        let y = digits_value(b.drop_last());
        let p = pow10(b.drop_last().len());
        assert(pow10(b.len()) == 10 * p);
        assert((x * p + y) * 10 + digit_value(b.last()) == x * (10 * p) + (y * 10 + digit_value(
            b.last(),
        ))) by (nonlinear_arith);
    }
}

proof fn lemma_digits_value_zeros(k: nat, t: Seq<char>)
    ensures
        digits_value(Seq::new(k, |i: int| '0') + t) == digits_value(t),
    decreases k,
{
    let z = Seq::new(k, |i: int| '0');
    lemma_digits_value_concat(z, t);
    assert(digits_value(z) == 0) by {
        lemma_digits_value_zero_run(k);
    }
}

proof fn lemma_digits_value_zero_run(k: nat)
    ensures
        digits_value(Seq::new(k, |i: int| '0')) == 0,
    decreases k,
{
    if k > 0 {
        let z = Seq::new(k, |i: int| '0');
        assert(z.drop_last() =~= Seq::new((k - 1) as nat, |i: int| '0'));
        lemma_digits_value_zero_run((k - 1) as nat);
        assert(digit_value(z.last()) == 0);
    }
}

/// A whole cost in the range of `i32`, or a fractional one, is written so that
/// reading gives it back.
pub open spec fn cost_ok(v: CostView) -> bool {
    &&& canonical(v)
    &&& v.2 == 0 ==> i32::MIN <= signed_mantissa(v) <= i32::MAX
}

proof fn lemma_parse_cost_whole(v: CostView)
    requires
        cost_ok(v),
        v.2 == 0,
    ensures
        parse_cost(cost_file_text(v)) == Some(v),
{
    let sm = signed_mantissa(v);
    assert(clamp_i32(sm) == sm);
    let body = nat_text(v.1);
    lemma_nat_text(v.1);
    assert forall|j: int| 0 <= j < body.len() implies body[j] != '.' by {
        assert(is_digit(body[j]));
    }
    lemma_find_char_none(body, '.');
    assert(body + Seq::<char>::empty() =~= body);
    assert(all_digits(Seq::<char>::empty()));
    if v.0 && v.1 != 0 {
        let t = seq!['-'] + body;
        assert(int_text(sm) == t);
        assert(t.drop_first() =~= body);
        assert(split_sign(t) == (true, body));
    } else {
        assert(int_text(sm) == body);
        assert(is_digit(body[0]));
        assert(split_sign(body) == (false, body));
    }
    assert(split_point(body) == (body, Seq::<char>::empty()));
}

/// The fractional digits of a canonical cost: `r` padded to `scale` digits,
/// with a last digit that is not `0`.
#[verifier::spinoff_prover]
#[verifier::rlimit(40)]
proof fn lemma_fraction_digits(m: nat, scale: nat)
    requires
        scale >= 1,
        m % 10 != 0,
    ensures
        ({
            let p = pow10(scale);
            let pad = pad_zeros(nat_text(m % p), scale);
            &&& p >= 1
            &&& pad.len() == scale
            &&& all_digits(pad)
            &&& strip_zeros_end(pad) == pad
            &&& digits_value(nat_text(m / p) + pad) == m
        }),
{
    let p = pow10(scale);
    crate::cost::lemma_pow10_bound(scale);
    let q = m / p;
    let r = m % p;
    vstd::arithmetic::div_mod::lemma_fundamental_div_mod(m as int, p as int);
    vstd::arithmetic::div_mod::lemma_mod_pos_bound(m as int, p as int);
    assert(p == 10 * pow10((scale - 1) as nat));
    crate::cost::lemma_pow10_bound((scale - 1) as nat);
    vstd::arithmetic::div_mod::lemma_mod_mod(m as int, 10, pow10((scale - 1) as nat) as int);
    assert(r % 10 == m % 10);
    lemma_nat_text(q);
    lemma_nat_text(r);
    lemma_nat_text_len(r, scale);
    let qt = nat_text(q);
    let rt = nat_text(r);
    let pad = pad_zeros(rt, scale);
    let zeros = Seq::new((scale - rt.len()) as nat, |i: int| '0');
    assert(pad == zeros + rt);
    assert(pad.last() == rt.last());
    assert(rt.last() != '0') by {
        lemma_digit_char((r % 10) as int);
    }
    assert(strip_zeros_end(pad) == pad);
    assert forall|i: int| 0 <= i < pad.len() implies #[trigger] is_digit(pad[i]) by {
        if i >= zeros.len() {
            assert(pad[i] == rt[i - zeros.len()]);
        }
    }
    lemma_digits_value_concat(qt, pad);
    lemma_digits_value_zeros((scale - rt.len()) as nat, rt);
    assert(q * p + r == m) by (nonlinear_arith)
        requires
            m == p * q + r,
    ;
}

#[verifier::spinoff_prover]
#[verifier::rlimit(40)]
proof fn lemma_parse_cost_fraction(v: CostView)
    requires
        cost_ok(v),
        v.2 > 0,
    ensures
        parse_cost(cost_file_text(v)) == Some(v),
{
    lemma_fraction_digits(v.1, v.2);
    let p = pow10(v.2);
    let qt = nat_text(v.1 / p);
    let pad = pad_zeros(nat_text(v.1 % p), v.2);
    lemma_nat_text(v.1 / p);
    let body = qt + seq!['.'] + pad;
    assert forall|j: int| 0 <= j < qt.len() implies body[j] != '.' by {
        assert(body[j] == qt[j] && is_digit(qt[j]));
    }
    lemma_find_char_at(body, '.', qt.len() as int);
    assert(body.take(qt.len() as int) =~= qt);
    assert(body.skip(qt.len() as int + 1) =~= pad);
    assert(split_point(body) == (qt, pad));
    assert(v.1 != 0);
    let text = fraction_text(v);
    if v.0 {
        assert(text =~= seq!['-'] + body);
        assert(text.drop_first() =~= body);
        assert(split_sign(text) == (true, body));
    } else {
        assert(text =~= body);
        assert(body[0] == qt[0] && is_digit(qt[0]));
        assert(split_sign(text) == (false, body));
    }
}

/// Reading the written text of a cost gives the cost.
pub proof fn lemma_parse_cost_text(v: CostView)
    requires
        cost_ok(v),
    ensures
        parse_cost(cost_file_text(v)) == Some(v),
{
    if v.2 == 0 {
        lemma_parse_cost_whole(v);
    } else {
        lemma_parse_cost_fraction(v);
    }
}

// ------------------------------------------------------------------------
// A written focus block as entries
// ------------------------------------------------------------------------

pub broadcast proof fn lemma_entry_lines_concat(a: Seq<Entry>, b: Seq<Entry>)
    ensures
        #[trigger] entry_lines(a + b) == entry_lines(a) + entry_lines(b),
{
    assert(entry_lines(a + b) =~= entry_lines(a) + entry_lines(b));
}

pub broadcast proof fn lemma_entries_ok_concat(a: Seq<Entry>, b: Seq<Entry>)
    ensures
        (entries_ok(a) && entries_ok(b)) ==> #[trigger] entries_ok(a + b),
{
    if entries_ok(a) && entries_ok(b) {
        assert forall|i: int| 0 <= i < (a + b).len() implies entry_ok(#[trigger] (a + b)[i]) by {
            if i < a.len() {
                assert((a + b)[i] == a[i]);
            } else {
                assert((a + b)[i] == b[i - a.len()]);
            }
        }
    }
}

pub broadcast proof fn lemma_kw_value_single(e: Entry, key: Seq<char>)
    ensures
        #[trigger] kw_value(seq![e], key) == if e.1 == key {
            Some(e.2)
        } else {
            None::<Seq<char>>
        },
{
    assert(seq![e].drop_first() =~= Seq::<Entry>::empty());
    assert(seq![e][0] == e);
    assert(kw_value(Seq::<Entry>::empty(), key) is None);
}

pub broadcast proof fn lemma_kw_value_list(
    ind: Seq<char>,
    bk: Seq<char>,
    ps: Seq<Seq<char>>,
    key: Seq<char>,
)
    ensures
        #[trigger] kw_value(list_entries(ind, bk, ps), key) == if bk == key && ps.len() > 0 {
            Some(list_value(ps[0]))
        } else {
            None::<Seq<char>>
        },
{
    let es = list_entries(ind, bk, ps);
    if ps.len() > 0 {
        assert(es[0].1 == bk);
        if bk != key {
            assert forall|i: int| 0 <= i < es.len() implies (#[trigger] es[i]).1 != key by {
                assert(es[i].1 == bk);
            }
            lemma_kw_value_none(es, key);
        }
    }
}

pub open spec fn tab2() -> Seq<char> {
    seq!['\t', '\t']
}

/// One `kw = v` line, indented by two tabs.
pub open spec fn single(kw: Seq<char>, v: Seq<char>) -> Seq<Entry> {
    seq![(tab2(), kw, v)]
}

pub open spec fn opt_entry(kw: Seq<char>, o: Option<Seq<char>>) -> Seq<Entry> {
    match o {
        Some(v) => single(kw, v),
        None => Seq::empty(),
    }
}

pub open spec fn cost_entry(c: Option<CostView>) -> Seq<Entry> {
    match c {
        Some(v) => single("cost"@, cost_file_text(v)),
        None => Seq::empty(),
    }
}

pub open spec fn flag_entry(b: bool) -> Seq<Entry> {
    if b {
        single("bypass_if_unavailable"@, "yes"@)
    } else {
        Seq::empty()
    }
}

pub open spec fn filters_entry(fs: Seq<Seq<char>>) -> Seq<Entry> {
    if fs.len() > 0 {
        single("search_filters"@, filters_value(fs))
    } else {
        Seq::empty()
    }
}

/// The line that opens a focus block: `\tfocus = {`.
pub open spec fn head_entry() -> Entry {
    (seq!['\t'], "focus"@, seq!['{'])
}

/// The lines of a written focus block before its search-filter line.
pub open spec fn node_prefix(n: NodeView) -> Seq<Entry> {
    seq![head_entry()] + (single("id"@, n.id) + (opt_entry("icon"@, n.icon) + (single(
        "x"@,
        int_text(n.x as int),
    ) + (single("y"@, int_text(n.y as int)) + (opt_entry(
        "relative_position_id"@,
        n.relative_position_id,
    ) + (cost_entry(n.cost) + (list_entries(tab2(), "prerequisite"@, n.prerequisites) + (
    list_entries(tab2(), "mutually_exclusive"@, n.mutually_exclusive) + flag_entry(
        n.bypass_if_unavailable,
    )))))))))
}

/// The lines of a written focus block, but its closing line.
pub open spec fn node_entries(n: NodeView) -> Seq<Entry> {
    node_prefix(n) + filters_entry(n.search_filters)
}

/// The keys of a focus block are keys.
pub proof fn lemma_keywords()
    ensures
        word("focus"@),
        word("id"@),
        word("icon"@),
        word("x"@),
        word("y"@),
        word("relative_position_id"@),
        word("cost"@),
        word("prerequisite"@),
        word("mutually_exclusive"@),
        word("bypass_if_unavailable"@),
        word("search_filters"@),
        word("available"@),
        word("bypass"@),
        word("completion_reward"@),
        word("immediate"@),
        word("ai_will_do"@),
        "yes"@ == seq!['y', 'e', 's'],
{
    reveal_strlit("focus");
    reveal_strlit("id");
    reveal_strlit("icon");
    reveal_strlit("x");
    reveal_strlit("y");
    reveal_strlit("relative_position_id");
    reveal_strlit("cost");
    reveal_strlit("prerequisite");
    reveal_strlit("mutually_exclusive");
    reveal_strlit("bypass_if_unavailable");
    reveal_strlit("search_filters");
    reveal_strlit("available");
    reveal_strlit("bypass");
    reveal_strlit("completion_reward");
    reveal_strlit("immediate");
    reveal_strlit("ai_will_do");
    reveal_strlit("yes");
}

/// The text of an integer is solid and on one line.
pub proof fn lemma_int_text_chars(v: int)
    ensures
        int_text(v).len() > 0,
        !is_ws(int_text(v).last()),
        !is_ws(int_text(v)[0]),
        int_text(v).last() != '}',
        forall|i: int|
            0 <= i < int_text(v).len() ==> #[trigger] int_text(v)[i] != '\n' && int_text(v)[i]
                != '{' && int_text(v)[i] != '}' && int_text(v)[i] != '"' && int_text(v)[i] != '#',
{
    if v < 0 {
        let t = nat_text((-v) as nat);
        lemma_nat_text((-v) as nat);
        assert(int_text(v)[0] == '-');
        assert(int_text(v).last() == t.last());
        assert(is_digit(t[t.len() - 1]));
        assert forall|i: int| 0 <= i < int_text(v).len() implies #[trigger] int_text(v)[i] != '\n'
            && int_text(v)[i] != '{' && int_text(v)[i] != '}' && int_text(v)[i] != '"'
            && int_text(v)[i] != '#' by {
            if i > 0 {
                assert(int_text(v)[i] == t[i - 1]);
                assert(is_digit(t[i - 1]));
            }
        }
    } else {
        lemma_nat_text(v as nat);
        let t = nat_text(v as nat);
        assert(is_digit(t[t.len() - 1]));
        assert(is_digit(t[0]));
        assert forall|i: int| 0 <= i < int_text(v).len() implies #[trigger] int_text(v)[i] != '\n'
            && int_text(v)[i] != '{' && int_text(v)[i] != '}' && int_text(v)[i] != '"'
            && int_text(v)[i] != '#' by {
            assert(is_digit(t[i]));
        }
    }
}

/// The text of a cost is solid and on one line.
pub proof fn lemma_cost_text_chars(v: CostView)
    requires
        cost_ok(v),
    ensures
        cost_file_text(v).len() > 0,
        !is_ws(cost_file_text(v).last()),
        !is_ws(cost_file_text(v)[0]),
        forall|i: int|
            0 <= i < cost_file_text(v).len() ==> #[trigger] cost_file_text(v)[i] != '\n'
                && cost_file_text(v)[i] != '{' && cost_file_text(v)[i] != '}'
                && cost_file_text(v)[i] != '"' && cost_file_text(v)[i] != '#',
{
    if v.2 == 0 {
        assert(clamp_i32(signed_mantissa(v)) == signed_mantissa(v));
        lemma_int_text_chars(signed_mantissa(v));
    } else {
        lemma_fraction_digits(v.1, v.2);
        let p = pow10(v.2);
        let qt = nat_text(v.1 / p);
        let pad = pad_zeros(nat_text(v.1 % p), v.2);
        lemma_nat_text(v.1 / p);
        let t = fraction_text(v);
        assert(t == sign_text(v) + qt + seq!['.'] + pad);
        assert(t.last() == pad.last());
        if v.0 {
            assert(t[0] == '-');
        } else {
            assert(t[0] == qt[0] && is_digit(qt[0]));
        }
        assert(is_digit(pad[pad.len() - 1]));
        assert forall|i: int| 0 <= i < t.len() implies #[trigger] t[i] != '\n' && t[i] != '{'
            && t[i] != '}' && t[i] != '"' && t[i] != '#' by {
            let a = sign_text(v).len();
            if i < a {
            } else if i < a + qt.len() {
                assert(t[i] == qt[i - a]);
                assert(is_digit(qt[i - a]));
            } else if i > a + qt.len() {
                assert(t[i] == pad[i - a - qt.len() - 1]);
                assert(is_digit(pad[i - a - qt.len() - 1]));
            }
        }
    }
}

/// A focus that is written and read back: its id, icon and relative position
/// are [`name_ok`], the ids it lists [`text_ok`], its filters [`filter_ok`],
/// its cost [`cost_ok`], and its raw script blocks
/// [`raw_ok`](crate::rawblock::raw_ok).
pub open spec fn node_ok(n: NodeView) -> bool {
    &&& name_ok(n.id)
    &&& (n.icon matches Some(v) ==> name_ok(v))
    &&& (n.relative_position_id matches Some(v) ==> name_ok(v))
    &&& (n.cost matches Some(c) ==> cost_ok(c))
    &&& forall|i: int| 0 <= i < n.prerequisites.len() ==> text_ok(#[trigger] n.prerequisites[i])
    &&& forall|i: int|
        0 <= i < n.mutually_exclusive.len() ==> text_ok(#[trigger] n.mutually_exclusive[i])
    &&& filters_ok(n.search_filters)
    &&& raws_ok(n)
}

proof fn lemma_single_ok(kw: Seq<char>, v: Seq<char>)
    requires
        word(kw),
        v.len() > 0,
        !is_ws(v.last()),
        no_newline(v),
    ensures
        entries_ok(single(kw, v)),
{
    assert(single(kw, v)[0] == (tab2(), kw, v));
    assert(all_ws(tab2()) && no_newline(tab2())) by {
        assert(tab2()[0] == '\t' && tab2()[1] == '\t');
    }
}

proof fn lemma_name_single(kw: Seq<char>, v: Seq<char>)
    requires
        word(kw),
        name_ok(v),
    ensures
        entries_ok(single(kw, v)),
{
    lemma_single_ok(kw, v);
}

proof fn lemma_list_entries_ok(bk: Seq<char>, ps: Seq<Seq<char>>)
    requires
        word(bk),
        forall|i: int| 0 <= i < ps.len() ==> text_ok(#[trigger] ps[i]),
    ensures
        entries_ok(list_entries(tab2(), bk, ps)),
{
    lemma_focus_word();
    let es = list_entries(tab2(), bk, ps);
    assert forall|i: int| 0 <= i < es.len() implies entry_ok(#[trigger] es[i]) by {
        let p = ps[i];
        assert(text_ok(p));
        let lv = list_value(p);
        assert(es[i] == (tab2(), bk, lv));
        assert(all_ws(tab2()) && no_newline(tab2())) by {
            assert(tab2()[0] == '\t' && tab2()[1] == '\t');
        }
        assert(lv.last() == '}');
        assert forall|j: int| 0 <= j < lv.len() implies #[trigger] lv[j] != '\n' by {
            if 2 <= j < 7 {
                assert(lv[j] == "focus"@[j - 2]);
                assert(is_word_char("focus"@[j - 2]));
            } else if 10 <= j < 10 + p.len() {
                assert(lv[j] == p[j - 10]);
            }
        }
    }
}

proof fn lemma_filters_entry_ok(fs: Seq<Seq<char>>)
    requires
        filters_ok(fs),
    ensures
        entries_ok(filters_entry(fs)),
{
    if fs.len() > 0 {
        lemma_search_filters_word();
        lemma_spaced_facts(fs);
        let fv = filters_value(fs);
        assert(fv.last() == '}');
        assert forall|j: int| 0 <= j < fv.len() implies #[trigger] fv[j] != '\n' by {
            if 1 <= j < 1 + spaced(fs).len() {
                assert(fv[j] == spaced(fs)[j - 1]);
            }
        }
        lemma_single_ok("search_filters"@, fv);
    }
}

/// The entries of a focus that can be written are well formed.
#[verifier::spinoff_prover]
#[verifier::rlimit(40)]
pub proof fn lemma_node_entries_ok(n: NodeView)
    requires
        node_ok(n),
    ensures
        entries_ok(node_entries(n)),
        entries_ok(node_prefix(n)),
        entries_ok(seq![head_entry()]),
        entries_ok(single("id"@, n.id)),
        entries_ok(opt_entry("icon"@, n.icon)),
        entries_ok(single("x"@, int_text(n.x as int))),
        entries_ok(single("y"@, int_text(n.y as int))),
        entries_ok(opt_entry("relative_position_id"@, n.relative_position_id)),
        entries_ok(cost_entry(n.cost)),
        entries_ok(list_entries(tab2(), "prerequisite"@, n.prerequisites)),
        entries_ok(list_entries(tab2(), "mutually_exclusive"@, n.mutually_exclusive)),
        entries_ok(flag_entry(n.bypass_if_unavailable)),
        entries_ok(filters_entry(n.search_filters)),
{
    broadcast use lemma_entries_ok_concat;

    lemma_keywords();
    reveal_strlit("focus");
    let h = seq![head_entry()];
    assert(h[0] == head_entry());
    assert(entries_ok(h)) by {
        assert(all_ws(seq!['\t']) && no_newline(seq!['\t'])) by {
            assert(seq!['\t'][0] == '\t');
        }
        assert(no_newline(seq!['{'])) by {
            assert(seq!['{'][0] == '{');
        }
    }
    lemma_name_single("id"@, n.id);
    if n.icon is Some {
        lemma_name_single("icon"@, n.icon->0);
    }
    lemma_int_text_chars(n.x as int);
    lemma_single_ok("x"@, int_text(n.x as int));
    lemma_int_text_chars(n.y as int);
    lemma_single_ok("y"@, int_text(n.y as int));
    if n.relative_position_id is Some {
        lemma_name_single("relative_position_id"@, n.relative_position_id->0);
    }
    if n.cost is Some {
        lemma_cost_text_chars(n.cost->0);
        lemma_single_ok("cost"@, cost_file_text(n.cost->0));
    }
    lemma_list_entries_ok("prerequisite"@, n.prerequisites);
    lemma_list_entries_ok("mutually_exclusive"@, n.mutually_exclusive);
    if n.bypass_if_unavailable {
        assert(no_newline("yes"@)) by {
            reveal_strlit("yes");
        }
        lemma_single_ok("bypass_if_unavailable"@, "yes"@);
    }
    lemma_filters_entry_ok(n.search_filters);
}

pub open spec fn no_filter_kw(es: Seq<Entry>) -> bool {
    forall|i: int| 0 <= i < es.len() ==> !starts_with((#[trigger] es[i]).1, "search_filters"@)
}

pub broadcast proof fn lemma_no_kw_concat(a: Seq<Entry>, b: Seq<Entry>, key: Seq<char>)
    ensures
        (no_kw(a, key) && no_kw(b, key)) ==> #[trigger] no_kw(a + b, key),
{
    if no_kw(a, key) && no_kw(b, key) {
        assert forall|i: int| 0 <= i < (a + b).len() implies (#[trigger] (a + b)[i]).1 != key by {
            if i < a.len() {
                assert((a + b)[i] == a[i]);
            } else {
                assert((a + b)[i] == b[i - a.len()]);
            }
        }
    }
}

pub broadcast proof fn lemma_no_filter_kw_concat(a: Seq<Entry>, b: Seq<Entry>)
    ensures
        (no_filter_kw(a) && no_filter_kw(b)) ==> #[trigger] no_filter_kw(a + b),
{
    if no_filter_kw(a) && no_filter_kw(b) {
        assert forall|i: int| 0 <= i < (a + b).len() implies !starts_with(
            (#[trigger] (a + b)[i]).1,
            "search_filters"@,
        ) by {
            if i < a.len() {
                assert((a + b)[i] == a[i]);
            } else {
                assert((a + b)[i] == b[i - a.len()]);
            }
        }
    }
}

pub broadcast proof fn lemma_no_kw_list(ind: Seq<char>, bk: Seq<char>, ps: Seq<Seq<char>>, key: Seq<char>)
    ensures
        bk != key ==> #[trigger] no_kw(list_entries(ind, bk, ps), key),
{
    let es = list_entries(ind, bk, ps);
    assert forall|i: int| 0 <= i < es.len() implies (#[trigger] es[i]).1 == bk by {}
}

pub broadcast proof fn lemma_no_filter_kw_list(ind: Seq<char>, bk: Seq<char>, ps: Seq<Seq<char>>)
    ensures
        !starts_with(bk, "search_filters"@) ==> #[trigger] no_filter_kw(list_entries(ind, bk, ps)),
{
    let es = list_entries(ind, bk, ps);
    assert forall|i: int| 0 <= i < es.len() implies (#[trigger] es[i]).1 == bk by {}
}

/// The keys of the plain fields of a focus block that a written focus may
/// leave out (its `id`, `x` and `y` lines it always writes first), and the list
/// and filter keys.
pub open spec fn plain_key(key: Seq<char>) -> bool {
    ||| key == "icon"@
    ||| key == "relative_position_id"@
    ||| key == "cost"@
    ||| key == "prerequisite"@
    ||| key == "mutually_exclusive"@
    ||| key == "bypass_if_unavailable"@
    ||| key == "search_filters"@
}

/// A trimmed line that gives no plain field that a written focus may leave
/// out: it starts with none of their keys (see [`plain_key`]) and is no
/// search-filter line.
pub open spec fn quiet_line(t: Seq<char>) -> bool {
    &&& !has_key(t, "icon"@)
    &&& !has_key(t, "relative_position_id"@)
    &&& !has_key(t, "cost"@)
    &&& !has_key(t, "prerequisite"@)
    &&& !has_key(t, "mutually_exclusive"@)
    &&& !has_key(t, "bypass_if_unavailable"@)
    &&& !starts_with(t, "search_filters"@)
}

/// Lines that give no plain field of a focus.
pub open spec fn inert(ls: Seq<Seq<char>>) -> bool {
    forall|i: int| 0 <= i < ls.len() ==> quiet_line(trim(#[trigger] ls[i]))
}

/// A text of at most one character starts with no key.
pub proof fn lemma_short_no_key(t: Seq<char>, key: Seq<char>)
    requires
        t.len() <= 1,
        key.len() > 0,
    ensures
        !has_key(t, key),
        quiet_line(t),
{
    lemma_search_filters_word();
    lemma_keywords();
}

/// Lines that trim to at most one character are inert and start no raw block.
pub proof fn lemma_short_lines(ls: Seq<Seq<char>>, key: Seq<char>)
    requires
        forall|i: int| 0 <= i < ls.len() ==> trim(#[trigger] ls[i]).len() <= 1,
        key.len() > 0,
    ensures
        inert(ls),
        first_key_line(ls, key) is None,
    decreases ls.len(),
{
    assert forall|i: int| 0 <= i < ls.len() implies quiet_line(trim(#[trigger] ls[i])) by {
        lemma_short_no_key(trim(ls[i]), key);
    }
    if ls.len() > 0 {
        lemma_short_no_key(trim(ls[0]), key);
        assert forall|i: int| 0 <= i < ls.drop_first().len() implies trim(
            #[trigger] ls.drop_first()[i],
        ).len() <= 1 by {
            assert(ls.drop_first()[i] == ls[i + 1]);
        }
        lemma_short_lines(ls.drop_first(), key);
    }
}

proof fn lemma_inert_drop_first(ls: Seq<Seq<char>>)
    requires
        inert(ls),
        ls.len() > 0,
    ensures
        inert(ls.drop_first()),
        quiet_line(trim(ls[0])),
{
    assert forall|i: int| 0 <= i < ls.drop_first().len() implies quiet_line(
        trim(#[trigger] ls.drop_first()[i]),
    ) by {
        assert(ls.drop_first()[i] == ls[i + 1]);
    }
}

/// Inert lines give no plain field a value, no list item and no filter.
pub proof fn lemma_inert_reads(ls: Seq<Seq<char>>, key: Seq<char>, ik: Seq<char>)
    requires
        inert(ls),
        plain_key(key),
    ensures
        first_value(ls, key) is None,
        list_items(ls, key, ik) == Seq::<Seq<char>>::empty(),
        search_filters_in(ls) == Seq::<Seq<char>>::empty(),
        first_key_line(ls, key) is None,
    decreases ls.len(),
{
    lemma_search_filters_word();
    if ls.len() > 0 {
        lemma_inert_drop_first(ls);
        let t = trim(ls[0]);
        if key == "search_filters"@ {
            let sf = "search_filters"@;
            if starts_with(t, sf + seq![' ', '=']) {
                assert(t.take(14) =~= t.take(16).take(14));
                assert((sf + seq![' ', '=']).take(14) =~= sf);
                assert(starts_with(t, sf));
            }
            if starts_with(t, sf + seq!['=']) {
                assert(t.take(14) =~= t.take(15).take(14));
                assert((sf + seq!['=']).take(14) =~= sf);
                assert(starts_with(t, sf));
            }
        }
        assert(!has_key(t, key));
        assert(!starts_with(t, "search_filters"@));
        lemma_inert_reads(ls.drop_first(), key, ik);
        assert(list_items(ls, key, ik) =~= Seq::<Seq<char>>::empty());
    }
}

/// `n` with the raw blocks that the lines `rest` give.
pub open spec fn raws_read(n: NodeView, rest: Seq<Seq<char>>) -> NodeView {
    NodeView {
        available_raw: block_as_text(rest, "available"@),
        completion_reward_raw: block_as_text(rest, "completion_reward"@),
        immediate_raw: block_as_text(rest, "immediate"@),
        ai_will_do_raw: block_as_text(rest, "ai_will_do"@),
        bypass_raw: block_as_text(rest, "bypass"@),
        ..n
    }
}

/// The focus that a written focus block describes: its plain fields, and the
/// raw blocks of the lines after its entries.
#[verifier::spinoff_prover]
#[verifier::rlimit(40)]
pub proof fn lemma_single_focus_lines(content: Seq<char>, n: NodeView, rest: Seq<Seq<char>>)
    requires
        node_ok(n),
        inert(rest),
        lines(content) == entry_lines(node_entries(n)) + rest,
    ensures
        single_focus(content) == Some(raws_read(n, rest)),
{
    broadcast use lemma_entry_lines_concat, lemma_kw_value_concat, lemma_kw_value_single, lemma_kw_value_list;

    lemma_keywords();
    reveal_strlit("focus");
    reveal_strlit("id");
    reveal_strlit("icon");
    reveal_strlit("x");
    reveal_strlit("y");
    reveal_strlit("relative_position_id");
    reveal_strlit("cost");
    reveal_strlit("prerequisite");
    reveal_strlit("mutually_exclusive");
    reveal_strlit("bypass_if_unavailable");
    reveal_strlit("search_filters");
    reveal_strlit("yes");
    reveal_strlit("true");
    lemma_node_entries_ok(n);
    let es = node_entries(n);
    let ls = lines(content);
    assert("x"@ != "y"@) by {
        assert("x"@[0] != "y"@[0]);
    }
    assert("icon"@ != "cost"@) by {
        assert("icon"@[0] != "cost"@[0]);
    }
    // Simple fields.
    lemma_name_ok_value(n.id);
    assert(kw_value(es, "id"@) == Some(n.id));
    lemma_first_value_entries(es, rest, "id"@);
    assert(first_value(ls, "id"@) == Some(n.id));
    match n.icon {
        Some(v) => {
            lemma_name_ok_value(v);
            assert(kw_value(es, "icon"@) == Some(v));
        },
        None => {
            assert(kw_value(es, "icon"@) is None);
        },
    }
    lemma_first_value_entries(es, rest, "icon"@);
    lemma_inert_reads(rest, "icon"@, "focus"@);
    assert(first_value(ls, "icon"@) == n.icon);
    lemma_int_text_chars(n.x as int);
    lemma_int_text_chars(n.y as int);
    lemma_parse_int_text(n.x);
    lemma_parse_int_text(n.y);
    assert(kw_value(es, "x"@) == Some(int_text(n.x as int)));
    lemma_first_value_entries(es, rest, "x"@);
    assert(int_of_value(first_value(ls, "x"@)) == n.x);
    assert(kw_value(es, "y"@) == Some(int_text(n.y as int)));
    lemma_first_value_entries(es, rest, "y"@);
    assert(int_of_value(first_value(ls, "y"@)) == n.y);
    match n.relative_position_id {
        Some(v) => {
            lemma_name_ok_value(v);
            assert(kw_value(es, "relative_position_id"@) == Some(v));
        },
        None => {
            assert(kw_value(es, "relative_position_id"@) is None);
        },
    }
    lemma_first_value_entries(es, rest, "relative_position_id"@);
    lemma_inert_reads(rest, "relative_position_id"@, "focus"@);
    assert(first_value(ls, "relative_position_id"@) == n.relative_position_id);
    match n.cost {
        Some(c) => {
            lemma_cost_text_chars(c);
            lemma_parse_cost_text(c);
            assert(kw_value(es, "cost"@) == Some(cost_file_text(c)));
        },
        None => {
            assert(kw_value(es, "cost"@) is None);
        },
    }
    lemma_first_value_entries(es, rest, "cost"@);
    lemma_inert_reads(rest, "cost"@, "focus"@);
    assert(cost_of_value(first_value(ls, "cost"@)) == n.cost);
    assert(kw_value(es, "bypass_if_unavailable"@) == if n.bypass_if_unavailable {
        Some("yes"@)
    } else {
        None::<Seq<char>>
    });
    lemma_first_value_entries(es, rest, "bypass_if_unavailable"@);
    lemma_inert_reads(rest, "bypass_if_unavailable"@, "focus"@);
    assert(bypass_flag(first_value(ls, "bypass_if_unavailable"@)) == n.bypass_if_unavailable);
    lemma_node_lists(content, n, rest);
    lemma_node_filters(content, n, rest);
    lemma_node_raws(content, n, rest);
}

/// The entries before the list lines.
pub open spec fn node_head_entries(n: NodeView) -> Seq<Entry> {
    seq![head_entry()] + single("id"@, n.id) + opt_entry("icon"@, n.icon) + single(
        "x"@,
        int_text(n.x as int),
    ) + single("y"@, int_text(n.y as int)) + opt_entry(
        "relative_position_id"@,
        n.relative_position_id,
    ) + cost_entry(n.cost)
}

/// The entries after the list lines.
pub open spec fn node_tail_entries(n: NodeView) -> Seq<Entry> {
    flag_entry(n.bypass_if_unavailable) + filters_entry(n.search_filters)
}

#[verifier::spinoff_prover]
#[verifier::rlimit(50)]
pub proof fn lemma_node_parts(n: NodeView)
    ensures
        node_entries(n) =~= node_head_entries(n) + list_entries(
            tab2(),
            "prerequisite"@,
            n.prerequisites,
        ) + list_entries(tab2(), "mutually_exclusive"@, n.mutually_exclusive) + node_tail_entries(
            n,
        ),
{
}

proof fn lemma_no_kw_concat_l(a: Seq<Entry>, b: Seq<Entry>, key: Seq<char>)
    requires
        no_kw(a, key),
        no_kw(b, key),
    ensures
        no_kw(a + b, key),
{
    lemma_no_kw_concat(a, b, key);
}

proof fn lemma_no_kw_single(kw: Seq<char>, v: Seq<char>, key: Seq<char>)
    requires
        kw != key,
    ensures
        no_kw(single(kw, v), key),
{
    assert(single(kw, v)[0].1 == kw);
}

proof fn lemma_no_kw_opt(kw: Seq<char>, o: Option<Seq<char>>, key: Seq<char>)
    requires
        kw != key,
    ensures
        no_kw(opt_entry(kw, o), key),
{
    if o is Some {
        lemma_no_kw_single(kw, o->0, key);
    }
}

/// No entry before the list lines has the key `key`.
proof fn lemma_no_kw_head(n: NodeView, key: Seq<char>)
    requires
        key != "focus"@,
        key != "id"@,
        key != "icon"@,
        key != "x"@,
        key != "y"@,
        key != "relative_position_id"@,
        key != "cost"@,
    ensures
        no_kw(node_head_entries(n), key),
{
    assert(seq![head_entry()][0].1 == "focus"@);
    assert(no_kw(seq![head_entry()], key));
    lemma_no_kw_single("id"@, n.id, key);
    lemma_no_kw_opt("icon"@, n.icon, key);
    lemma_no_kw_single("x"@, int_text(n.x as int), key);
    lemma_no_kw_single("y"@, int_text(n.y as int), key);
    lemma_no_kw_opt("relative_position_id"@, n.relative_position_id, key);
    if n.cost is Some {
        lemma_no_kw_single("cost"@, cost_file_text(n.cost->0), key);
    }
    let a1 = seq![head_entry()] + single("id"@, n.id);
    lemma_no_kw_concat_l(seq![head_entry()], single("id"@, n.id), key);
    let a2 = a1 + opt_entry("icon"@, n.icon);
    lemma_no_kw_concat_l(a1, opt_entry("icon"@, n.icon), key);
    let a3 = a2 + single("x"@, int_text(n.x as int));
    lemma_no_kw_concat_l(a2, single("x"@, int_text(n.x as int)), key);
    let a4 = a3 + single("y"@, int_text(n.y as int));
    lemma_no_kw_concat_l(a3, single("y"@, int_text(n.y as int)), key);
    let a5 = a4 + opt_entry("relative_position_id"@, n.relative_position_id);
    lemma_no_kw_concat_l(a4, opt_entry("relative_position_id"@, n.relative_position_id), key);
    lemma_no_kw_concat_l(a5, cost_entry(n.cost), key);
}

/// No entry after the list lines has the key `key`.
proof fn lemma_no_kw_tail(n: NodeView, key: Seq<char>)
    requires
        key != "bypass_if_unavailable"@,
        key != "search_filters"@,
    ensures
        no_kw(node_tail_entries(n), key),
{
    if n.bypass_if_unavailable {
        lemma_no_kw_single("bypass_if_unavailable"@, "yes"@, key);
    }
    if n.search_filters.len() > 0 {
        lemma_no_kw_single("search_filters"@, filters_value(n.search_filters), key);
    }
    lemma_no_kw_concat_l(flag_entry(n.bypass_if_unavailable), filters_entry(n.search_filters), key);
}

proof fn lemma_entries_ok_parts(n: NodeView)
    requires
        node_ok(n),
    ensures
        entries_ok(node_head_entries(n)),
        entries_ok(node_tail_entries(n)),
{
    lemma_node_entries_ok(n);
    lemma_entries_ok_concat(seq![head_entry()], single("id"@, n.id));
    let a1 = seq![head_entry()] + single("id"@, n.id);
    lemma_entries_ok_concat(a1, opt_entry("icon"@, n.icon));
    let a2 = a1 + opt_entry("icon"@, n.icon);
    lemma_entries_ok_concat(a2, single("x"@, int_text(n.x as int)));
    let a3 = a2 + single("x"@, int_text(n.x as int));
    lemma_entries_ok_concat(a3, single("y"@, int_text(n.y as int)));
    let a4 = a3 + single("y"@, int_text(n.y as int));
    lemma_entries_ok_concat(a4, opt_entry("relative_position_id"@, n.relative_position_id));
    let a5 = a4 + opt_entry("relative_position_id"@, n.relative_position_id);
    lemma_entries_ok_concat(a5, cost_entry(n.cost));
    lemma_entries_ok_concat(flag_entry(n.bypass_if_unavailable), filters_entry(n.search_filters));
}

#[verifier::spinoff_prover]
#[verifier::rlimit(40)]
proof fn lemma_list_field(n: NodeView, rest: Seq<Seq<char>>, bk: Seq<char>, other: Seq<char>)
    requires
        node_ok(n),
        inert(rest),
        word(bk),
        word(other),
        bk != other,
        bk == "prerequisite"@ || bk == "mutually_exclusive"@,
        other == "prerequisite"@ || other == "mutually_exclusive"@,
    ensures
        list_items(entry_lines(node_entries(n)) + rest, bk, "focus"@) == if bk
            == "prerequisite"@ {
            n.prerequisites
        } else {
            n.mutually_exclusive
        },
{
    lemma_keywords();
    reveal_strlit("focus");
    reveal_strlit("id");
    reveal_strlit("icon");
    reveal_strlit("x");
    reveal_strlit("y");
    reveal_strlit("relative_position_id");
    reveal_strlit("cost");
    reveal_strlit("prerequisite");
    reveal_strlit("mutually_exclusive");
    reveal_strlit("bypass_if_unavailable");
    reveal_strlit("search_filters");
    lemma_node_parts(n);
    lemma_entries_ok_parts(n);
    lemma_node_entries_ok(n);
    let f = "focus"@;
    let h = node_head_entries(n);
    let l1 = list_entries(tab2(), "prerequisite"@, n.prerequisites);
    let l2 = list_entries(tab2(), "mutually_exclusive"@, n.mutually_exclusive);
    let t = node_tail_entries(n);
    lemma_no_kw_head(n, bk);
    lemma_no_kw_tail(n, bk);
    lemma_list_items_none(h, bk, f);
    lemma_list_items_none(t, bk, f);
    assert(all_ws(tab2())) by {
        assert(tab2()[0] == '\t' && tab2()[1] == '\t');
    }
    if bk == "prerequisite"@ {
        lemma_list_items_entries(tab2(), bk, n.prerequisites);
        lemma_no_kw_list(tab2(), "mutually_exclusive"@, n.mutually_exclusive, bk);
        lemma_list_items_none(l2, bk, f);
    } else {
        lemma_list_items_entries(tab2(), bk, n.mutually_exclusive);
        lemma_no_kw_list(tab2(), "prerequisite"@, n.prerequisites, bk);
        lemma_list_items_none(l1, bk, f);
    }
    lemma_inert_reads(rest, bk, f);
    lemma_entry_lines_concat(h + l1 + l2, t);
    lemma_entry_lines_concat(h + l1, l2);
    lemma_entry_lines_concat(h, l1);
    let ls = entry_lines(h) + entry_lines(l1) + entry_lines(l2) + entry_lines(t) + rest;
    assert(entry_lines(node_entries(n)) + rest == ls);
    lemma_list_items_concat(entry_lines(h) + entry_lines(l1) + entry_lines(l2) + entry_lines(t), rest, bk, f);
    lemma_list_items_concat(entry_lines(h) + entry_lines(l1) + entry_lines(l2), entry_lines(t), bk, f);
    lemma_list_items_concat(entry_lines(h) + entry_lines(l1), entry_lines(l2), bk, f);
    lemma_list_items_concat(entry_lines(h), entry_lines(l1), bk, f);
    if bk == "prerequisite"@ {
        assert(list_items(ls, bk, f) =~= n.prerequisites);
    } else {
        assert(list_items(ls, bk, f) =~= n.mutually_exclusive);
    }
}

proof fn lemma_node_lists(content: Seq<char>, n: NodeView, rest: Seq<Seq<char>>)
    requires
        node_ok(n),
        inert(rest),
        lines(content) == entry_lines(node_entries(n)) + rest,
    ensures
        list_items(lines(content), "prerequisite"@, "focus"@) == n.prerequisites,
        list_items(lines(content), "mutually_exclusive"@, "focus"@) == n.mutually_exclusive,
{
    lemma_keywords();
    reveal_strlit("prerequisite");
    reveal_strlit("mutually_exclusive");
    lemma_list_field(n, rest, "prerequisite"@, "mutually_exclusive"@);
    lemma_list_field(n, rest, "mutually_exclusive"@, "prerequisite"@);
}

#[verifier::spinoff_prover]
#[verifier::rlimit(40)]
proof fn lemma_node_filters(content: Seq<char>, n: NodeView, rest: Seq<Seq<char>>)
    requires
        node_ok(n),
        inert(rest),
        lines(content) == entry_lines(node_entries(n)) + rest,
    ensures
        search_filters_in(lines(content)) == n.search_filters,
{
    broadcast use lemma_entry_lines_concat, lemma_no_filter_kw_concat, lemma_no_filter_kw_list;

    lemma_keywords();
    reveal_strlit("focus");
    reveal_strlit("id");
    reveal_strlit("icon");
    reveal_strlit("x");
    reveal_strlit("y");
    reveal_strlit("relative_position_id");
    reveal_strlit("cost");
    reveal_strlit("prerequisite");
    reveal_strlit("mutually_exclusive");
    reveal_strlit("bypass_if_unavailable");
    reveal_strlit("search_filters");
    lemma_node_entries_ok(n);
    let sf = "search_filters"@;
    assert(!starts_with("relative_position_id"@, sf)) by {
        assert("relative_position_id"@.take(14)[0] != sf[0]);
    }
    assert(!starts_with("mutually_exclusive"@, sf)) by {
        assert("mutually_exclusive"@.take(14)[0] != sf[0]);
    }
    assert(!starts_with("bypass_if_unavailable"@, sf)) by {
        assert("bypass_if_unavailable"@.take(14)[0] != sf[0]);
    }
    let pre = node_prefix(n);
    let fe = filters_entry(n.search_filters);
    assert(no_filter_kw(pre));
    assert(lines(content) =~= entry_lines(pre) + (entry_lines(fe) + rest));
    lemma_filters_skip(pre, entry_lines(fe) + rest);
    if n.search_filters.len() > 0 {
        assert(entry_lines(fe) =~= seq![tab2() + kv(sf, filters_value(n.search_filters))]);
        assert(all_ws(tab2())) by {
            assert(tab2()[0] == '\t' && tab2()[1] == '\t');
        }
        lemma_filters_line(tab2(), n.search_filters, rest);
    } else {
        assert(entry_lines(fe) + rest =~= rest);
        lemma_inert_reads(rest, sf, sf);
    }
}

#[verifier::spinoff_prover]
#[verifier::rlimit(40)]
proof fn lemma_node_raw(content: Seq<char>, n: NodeView, rest: Seq<Seq<char>>, key: Seq<char>)
    requires
        node_ok(n),
        lines(content) == entry_lines(node_entries(n)) + rest,
        word(key),
        key != "focus"@,
        key != "id"@,
        key != "icon"@,
        key != "x"@,
        key != "y"@,
        key != "relative_position_id"@,
        key != "cost"@,
        key != "prerequisite"@,
        key != "mutually_exclusive"@,
        key != "bypass_if_unavailable"@,
        key != "search_filters"@,
    ensures
        block_as_text(lines(content), key) == block_as_text(rest, key),
        block_text_ok(lines(content), key) == block_text_ok(rest, key),
{
    lemma_node_parts(n);
    lemma_node_entries_ok(n);
    let h = node_head_entries(n);
    let l1 = list_entries(tab2(), "prerequisite"@, n.prerequisites);
    let l2 = list_entries(tab2(), "mutually_exclusive"@, n.mutually_exclusive);
    let t = node_tail_entries(n);
    lemma_no_kw_head(n, key);
    lemma_no_kw_tail(n, key);
    lemma_no_kw_list(tab2(), "prerequisite"@, n.prerequisites, key);
    lemma_no_kw_list(tab2(), "mutually_exclusive"@, n.mutually_exclusive, key);
    lemma_no_kw_concat_l(h, l1, key);
    lemma_no_kw_concat_l(h + l1, l2, key);
    lemma_no_kw_concat_l(h + l1 + l2, t, key);
    lemma_first_key_line_none(node_entries(n), rest, key);
    lemma_block_as_text_shift(entry_lines(node_entries(n)), rest, key);
}

/// The raw blocks of a written focus read as those of the lines after its
/// entries.
proof fn lemma_node_raws(content: Seq<char>, n: NodeView, rest: Seq<Seq<char>>)
    requires
        node_ok(n),
        lines(content) == entry_lines(node_entries(n)) + rest,
    ensures
        block_as_text(lines(content), "available"@) == block_as_text(rest, "available"@),
        block_as_text(lines(content), "completion_reward"@) == block_as_text(
            rest,
            "completion_reward"@,
        ),
        block_as_text(lines(content), "immediate"@) == block_as_text(rest, "immediate"@),
        block_as_text(lines(content), "ai_will_do"@) == block_as_text(rest, "ai_will_do"@),
        block_as_text(lines(content), "bypass"@) == block_as_text(rest, "bypass"@),
        block_text_ok(lines(content), "available"@) == block_text_ok(rest, "available"@),
        block_text_ok(lines(content), "completion_reward"@) == block_text_ok(
            rest,
            "completion_reward"@,
        ),
        block_text_ok(lines(content), "immediate"@) == block_text_ok(rest, "immediate"@),
        block_text_ok(lines(content), "ai_will_do"@) == block_text_ok(rest, "ai_will_do"@),
        block_text_ok(lines(content), "bypass"@) == block_text_ok(rest, "bypass"@),
{
    lemma_keywords();
    reveal_strlit("focus");
    reveal_strlit("id");
    reveal_strlit("icon");
    reveal_strlit("x");
    reveal_strlit("y");
    reveal_strlit("relative_position_id");
    reveal_strlit("cost");
    reveal_strlit("prerequisite");
    reveal_strlit("mutually_exclusive");
    reveal_strlit("bypass_if_unavailable");
    reveal_strlit("search_filters");
    reveal_strlit("available");
    reveal_strlit("completion_reward");
    reveal_strlit("immediate");
    reveal_strlit("ai_will_do");
    reveal_strlit("bypass");
    lemma_node_raw(content, n, rest, "available"@);
    lemma_node_raw(content, n, rest, "completion_reward"@);
    lemma_node_raw(content, n, rest, "immediate"@);
    lemma_node_raw(content, n, rest, "ai_will_do"@);
    lemma_node_raw(content, n, rest, "bypass"@);
}

// ------------------------------------------------------------------------
// The written text of a focus as lines
// ------------------------------------------------------------------------

/// The closing line of a focus block.
pub open spec fn close_line() -> Seq<char> {
    seq!['\t', '}']
}

/// The lines of a written focus block.
pub open spec fn node_lines(n: NodeView) -> Seq<Seq<char>> {
    entry_lines(node_entries(n)) + raws_lines(n) + seq![close_line()]
}

proof fn lemma_newline_lit()
    ensures
        "\n"@ == seq!['\n'],
{
    reveal_strlit("\n");
}

/// A `kw = v` line written with its prefix literal.
proof fn lemma_line_text(p: Seq<char>, kw: Seq<char>, v: Seq<char>)
    requires
        p == tab2() + kw + seq![' ', '=', ' '],
    ensures
        p + v + "\n"@ == unlines(entry_lines(single(kw, v))),
{
    lemma_newline_lit();
    assert(entry_lines(single(kw, v)) =~= seq![tab2() + kv(kw, v)]);
    lemma_unlines_one(tab2() + kv(kw, v));
    assert(p + v + "\n"@ =~= tab2() + kv(kw, v) + seq!['\n']);
}

proof fn lemma_opt_line_text(p: Seq<char>, kw: Seq<char>, o: Option<Seq<char>>)
    requires
        p == tab2() + kw + seq![' ', '=', ' '],
    ensures
        opt_line(p, o) == unlines(entry_lines(opt_entry(kw, o))),
{
    match o {
        Some(v) => {
            lemma_line_text(p, kw, v);
        },
        None => {
            assert(entry_lines(opt_entry(kw, o)) =~= Seq::<Seq<char>>::empty());
        },
    }
}

proof fn lemma_list_lines_text(p: Seq<char>, bk: Seq<char>, ps: Seq<Seq<char>>)
    requires
        p == tab2() + bk + seq![' ', '=', ' '] + seq!['{', ' '] + "focus"@ + seq![' ', '=', ' '],
    ensures
        list_lines(p, ps) == unlines(entry_lines(list_entries(tab2(), bk, ps))),
    decreases ps.len(),
{
    if ps.len() == 0 {
        assert(entry_lines(list_entries(tab2(), bk, ps)) =~= Seq::<Seq<char>>::empty());
    } else {
        let init = ps.drop_last();
        let last = ps.last();
        lemma_list_lines_text(p, bk, init);
        reveal_strlit(" }\n");
        assert(list_entries(tab2(), bk, ps) =~= list_entries(tab2(), bk, init) + list_entries(
            tab2(),
            bk,
            seq![last],
        ));
        lemma_entry_lines_concat(list_entries(tab2(), bk, init), list_entries(tab2(), bk, seq![last]));
        lemma_unlines_concat(
            entry_lines(list_entries(tab2(), bk, init)),
            entry_lines(list_entries(tab2(), bk, seq![last])),
        );
        let l = tab2() + kv(bk, list_value(last));
        assert(entry_lines(list_entries(tab2(), bk, seq![last])) =~= seq![l]);
        lemma_unlines_one(l);
        assert(p + last + " }\n"@ =~= l + seq!['\n']);
    }
}

proof fn lemma_filters_text(fs: Seq<Seq<char>>)
    ensures
        filters_text(fs) == unlines(entry_lines(filters_entry(fs))),
{
    if fs.len() == 0 {
        assert(entry_lines(filters_entry(fs)) =~= Seq::<Seq<char>>::empty());
    } else {
        reveal_strlit("\t\tsearch_filters = { ");
        reveal_strlit("\t\tsearch_filters = {");
        reveal_strlit("search_filters");
        reveal_strlit(" }\n");
        reveal_strlit(" ");
        let l = tab2() + kv("search_filters"@, filters_value(fs));
        assert(entry_lines(filters_entry(fs)) =~= seq![l]);
        lemma_unlines_one(l);
        if fs.len() == 1 {
            assert(fs.drop_last() =~= Seq::<Seq<char>>::empty());
            assert(spaced(fs.drop_last()) == Seq::<char>::empty());
            assert(fs.last() == fs[0]);
            assert(" "@ =~= seq![' ']);
            assert(spaced(fs) =~= seq![' '] + fs[0]);
        }
        assert(filters_text(fs) =~= l + seq!['\n']);
    }
}

proof fn lemma_head_lits()
    ensures
        "\t\tid = "@ == tab2() + "id"@ + seq![' ', '=', ' '],
        "\t\ticon = "@ == tab2() + "icon"@ + seq![' ', '=', ' '],
        "\t\tx = "@ == tab2() + "x"@ + seq![' ', '=', ' '],
        "\t\ty = "@ == tab2() + "y"@ + seq![' ', '=', ' '],
        "\t\trelative_position_id = "@ == tab2() + "relative_position_id"@ + seq![' ', '=', ' '],
        "\t\tcost = "@ == tab2() + "cost"@ + seq![' ', '=', ' '],
{
    reveal_strlit("id");
    reveal_strlit("icon");
    reveal_strlit("x");
    reveal_strlit("y");
    reveal_strlit("relative_position_id");
    reveal_strlit("cost");
    reveal_strlit("\t\tid = ");
    reveal_strlit("\t\ticon = ");
    reveal_strlit("\t\tx = ");
    reveal_strlit("\t\ty = ");
    reveal_strlit("\t\trelative_position_id = ");
    reveal_strlit("\t\tcost = ");
    assert("\t\tid = "@ =~= tab2() + "id"@ + seq![' ', '=', ' ']);
    assert("\t\ticon = "@ =~= tab2() + "icon"@ + seq![' ', '=', ' ']);
    assert("\t\tx = "@ =~= tab2() + "x"@ + seq![' ', '=', ' ']);
    assert("\t\ty = "@ =~= tab2() + "y"@ + seq![' ', '=', ' ']);
    assert("\t\trelative_position_id = "@ =~= tab2() + "relative_position_id"@ + seq![' ', '=', ' ']);
    assert("\t\tcost = "@ =~= tab2() + "cost"@ + seq![' ', '=', ' ']);
}

proof fn lemma_list_lits()
    ensures
        "\t\tprerequisite = { focus = "@ == tab2() + "prerequisite"@ + seq![' ', '=', ' '] + seq![
            '{',
            ' ',
        ] + "focus"@ + seq![' ', '=', ' '],
        "\t\tmutually_exclusive = { focus = "@ == tab2() + "mutually_exclusive"@ + seq![
            ' ',
            '=',
            ' ',
        ] + seq!['{', ' '] + "focus"@ + seq![' ', '=', ' '],
        "\t\tbypass_if_unavailable = yes\n"@ == tab2() + "bypass_if_unavailable"@ + seq![
            ' ',
            '=',
            ' ',
        ] + "yes"@ + "\n"@,
        "\tfocus = {\n"@ == seq!['\t'] + kv("focus"@, seq!['{']) + seq!['\n'],
        "\t}\n"@ == close_line() + seq!['\n'],
{
    reveal_strlit("focus");
    reveal_strlit("prerequisite");
    reveal_strlit("mutually_exclusive");
    reveal_strlit("bypass_if_unavailable");
    reveal_strlit("yes");
    reveal_strlit("\n");
    reveal_strlit("\t\tprerequisite = { focus = ");
    reveal_strlit("\t\tmutually_exclusive = { focus = ");
    reveal_strlit("\t\tbypass_if_unavailable = yes\n");
    reveal_strlit("\tfocus = {\n");
    reveal_strlit("\t}\n");
    assert("\t\tprerequisite = { focus = "@ =~= tab2() + "prerequisite"@ + seq![' ', '=', ' '] + seq![
        '{',
        ' ',
    ] + "focus"@ + seq![' ', '=', ' ']);
    assert("\t\tmutually_exclusive = { focus = "@ =~= tab2() + "mutually_exclusive"@ + seq![
        ' ',
        '=',
        ' ',
    ] + seq!['{', ' '] + "focus"@ + seq![' ', '=', ' ']);
    assert("\t\tbypass_if_unavailable = yes\n"@ =~= tab2() + "bypass_if_unavailable"@ + seq![
        ' ',
        '=',
        ' ',
    ] + "yes"@ + "\n"@);
    assert("\tfocus = {\n"@ =~= seq!['\t'] + kv("focus"@, seq!['{']) + seq!['\n']);
    assert("\t}\n"@ =~= close_line() + seq!['\n']);
}

proof fn lemma_unlines_entries_concat(a: Seq<Entry>, b: Seq<Entry>)
    ensures
        unlines(entry_lines(a + b)) == unlines(entry_lines(a)) + unlines(entry_lines(b)),
{
    lemma_entry_lines_concat(a, b);
    lemma_unlines_concat(entry_lines(a), entry_lines(b));
}

/// The first lines of a written focus: id, icon, position, relative position, cost.
#[verifier::spinoff_prover]
#[verifier::rlimit(50)]
proof fn lemma_node_head_text(n: NodeView)
    ensures
        node_head_text(n) == unlines(entry_lines(node_head_entries(n))),
{
    lemma_head_lits();
    lemma_list_lits();
    lemma_newline_lit();
    let h = seq![head_entry()];
    let hl = seq!['\t'] + kv("focus"@, seq!['{']);
    assert(entry_lines(h) =~= seq![hl]);
    lemma_unlines_one(hl);
    lemma_line_text("\t\tid = "@, "id"@, n.id);
    lemma_opt_line_text("\t\ticon = "@, "icon"@, n.icon);
    lemma_line_text("\t\tx = "@, "x"@, int_text(n.x as int));
    lemma_line_text("\t\ty = "@, "y"@, int_text(n.y as int));
    lemma_opt_line_text("\t\trelative_position_id = "@, "relative_position_id"@, n.relative_position_id);
    match n.cost {
        Some(c) => {
            lemma_line_text("\t\tcost = "@, "cost"@, cost_file_text(c));
        },
        None => {
            assert(entry_lines(cost_entry(n.cost)) =~= Seq::<Seq<char>>::empty());
        },
    }
    let a1 = h + single("id"@, n.id);
    let a2 = a1 + opt_entry("icon"@, n.icon);
    let a3 = a2 + single("x"@, int_text(n.x as int));
    let a4 = a3 + single("y"@, int_text(n.y as int));
    let a5 = a4 + opt_entry("relative_position_id"@, n.relative_position_id);
    lemma_unlines_entries_concat(h, single("id"@, n.id));
    lemma_unlines_entries_concat(a1, opt_entry("icon"@, n.icon));
    lemma_unlines_entries_concat(a2, single("x"@, int_text(n.x as int)));
    lemma_unlines_entries_concat(a3, single("y"@, int_text(n.y as int)));
    lemma_unlines_entries_concat(a4, opt_entry("relative_position_id"@, n.relative_position_id));
    lemma_unlines_entries_concat(a5, cost_entry(n.cost));
    let t1 = "\tfocus = {\n"@ + "\t\tid = "@ + n.id + "\n"@;
    assert(unlines(entry_lines(a1)) =~= t1);
    let t2 = t1 + opt_line("\t\ticon = "@, n.icon);
    assert(unlines(entry_lines(a2)) =~= t2);
    let t3 = t2 + "\t\tx = "@ + int_text(n.x as int) + "\n"@;
    assert(unlines(entry_lines(a3)) =~= t3);
    let t4 = t3 + "\t\ty = "@ + int_text(n.y as int) + "\n"@;
    assert(unlines(entry_lines(a4)) =~= t4);
    let t5 = t4 + opt_line("\t\trelative_position_id = "@, n.relative_position_id);
    assert(unlines(entry_lines(a5)) =~= t5);
    assert(unlines(entry_lines(node_head_entries(n))) =~= t5 + cost_line(n.cost));
}

/// The list lines of a written focus: prerequisites, exclusions, flag, filters.
#[verifier::spinoff_prover]
#[verifier::rlimit(40)]
proof fn lemma_node_lists_text(n: NodeView)
    ensures
        node_lists_text(n) == unlines(
            entry_lines(
                list_entries(tab2(), "prerequisite"@, n.prerequisites) + list_entries(
                    tab2(),
                    "mutually_exclusive"@,
                    n.mutually_exclusive,
                ) + node_tail_entries(n),
            ),
        ),
{
    lemma_list_lits();
    lemma_newline_lit();
    lemma_list_lines_text("\t\tprerequisite = { focus = "@, "prerequisite"@, n.prerequisites);
    lemma_list_lines_text(
        "\t\tmutually_exclusive = { focus = "@,
        "mutually_exclusive"@,
        n.mutually_exclusive,
    );
    if n.bypass_if_unavailable {
        lemma_line_text(
            tab2() + "bypass_if_unavailable"@ + seq![' ', '=', ' '],
            "bypass_if_unavailable"@,
            "yes"@,
        );
    } else {
        assert(entry_lines(flag_entry(false)) =~= Seq::<Seq<char>>::empty());
    }
    lemma_filters_text(n.search_filters);
    let l1 = list_entries(tab2(), "prerequisite"@, n.prerequisites);
    let l2 = list_entries(tab2(), "mutually_exclusive"@, n.mutually_exclusive);
    lemma_unlines_entries_concat(flag_entry(n.bypass_if_unavailable), filters_entry(n.search_filters));
    lemma_unlines_entries_concat(l1, l2);
    lemma_unlines_entries_concat(l1 + l2, node_tail_entries(n));
    assert(node_lists_text(n) =~= unlines(entry_lines(l1 + l2 + node_tail_entries(n))));
}

/// The written text of a focus is its lines.
pub proof fn lemma_node_text(n: NodeView)
    requires
        node_ok(n),
    ensures
        node_text(n) == unlines(node_lines(n)),
{
    lemma_list_lits();
    lemma_node_head_text(n);
    lemma_node_lists_text(n);
    lemma_blocks_text(n, close_line());
    lemma_node_parts(n);
    let h = node_head_entries(n);
    let l1 = list_entries(tab2(), "prerequisite"@, n.prerequisites);
    let l2 = list_entries(tab2(), "mutually_exclusive"@, n.mutually_exclusive);
    let t = node_tail_entries(n);
    assert(node_entries(n) =~= h + (l1 + l2 + t));
    lemma_unlines_entries_concat(h, l1 + l2 + t);
    lemma_unlines_concat(entry_lines(node_entries(n)), raws_lines(n) + seq![close_line()]);
    assert(node_lines(n) =~= entry_lines(node_entries(n)) + (raws_lines(n) + seq![close_line()]));
    assert(node_text(n) =~= unlines(node_lines(n)));
}

pub proof fn lemma_entry_lines_plain(es: Seq<Entry>)
    requires
        entries_ok(es),
    ensures
        plain_lines(entry_lines(es)),
{
    let ls = entry_lines(es);
    assert forall|i: int| 0 <= i < ls.len() implies plain_line(#[trigger] ls[i]) by {
        let e = es[i];
        assert(entry_ok(e));
        let l = entry_line(e);
        assert(ls[i] == l);
        assert forall|j: int| 0 <= j < l.len() implies #[trigger] l[j] != '\n' by {
            let a = e.0.len();
            let b = a + e.1.len();
            if j < a {
                assert(l[j] == e.0[j]);
            } else if j < b {
                assert(l[j] == e.1[j - a]);
                assert(is_word_char(e.1[j - a]));
            } else if j >= b + 3 {
                assert(l[j] == e.2[j - b - 3]);
            }
        }
        assert(l.last() == e.2.last());
    }
}

pub proof fn lemma_close_line()
    ensures
        trim(close_line()) == seq!['}'],
        plain_line(close_line()),
{
    assert(all_ws(seq!['\t'])) by {
        assert(seq!['\t'][0] == '\t');
    }
    assert(solid(seq!['}']));
    assert(close_line() =~= seq!['\t'] + seq!['}']);
    lemma_trim_ws_solid(seq!['\t'], seq!['}']);
}

/// The lines of a written focus.
pub proof fn lemma_node_lines(n: NodeView)
    requires
        node_ok(n),
    ensures
        lines(node_text(n)) == node_lines(n),
        plain_lines(node_lines(n)),
        node_lines(n) == entry_lines(node_entries(n)) + (raws_lines(n) + seq![close_line()]),
{
    lemma_node_text(n);
    lemma_node_entries_ok(n);
    lemma_entry_lines_plain(node_entries(n));
    lemma_close_line();
    assert(seq![close_line()][0] == close_line());
    lemma_raws_reads(n, seq![close_line()]);
    let ls = node_lines(n);
    let el = entry_lines(node_entries(n));
    let rl = raws_lines(n);
    assert(ls =~= el + (rl + seq![close_line()]));
    assert forall|i: int| 0 <= i < ls.len() implies plain_line(#[trigger] ls[i]) by {
        if i < el.len() {
            assert(ls[i] == el[i]);
        } else if i < el.len() + rl.len() {
            assert(ls[i] == rl[i - el.len()]);
        } else {
            assert(ls[i] == close_line());
        }
    }
    lemma_lines_unlines(ls, Seq::empty());
    assert(unlines(ls) + Seq::<char>::empty() =~= unlines(ls));
    assert(lines(Seq::<char>::empty()) =~= Seq::<Seq<char>>::empty());
    assert(ls + Seq::<Seq<char>>::empty() =~= ls);
}

/// A focus written on its own reads back as [`reread_node`]: itself, with each
/// raw block as it reads back, when it can be written and read back (see
/// [`node_ok`]).
pub proof fn lemma_focus_roundtrip(n: NodeView)
    requires
        node_ok(n),
    ensures
        single_focus(node_text(n)) == Some(reread_node(n)),
{
    lemma_node_lines(n);
    lemma_close_line();
    assert(seq![close_line()][0] == close_line());
    let rest = raws_lines(n) + seq![close_line()];
    lemma_raws_reads(n, seq![close_line()]);
    lemma_single_focus_lines(node_text(n), n, rest);
    assert(raws_read(n, rest) == reread_node(n));
}

// ------------------------------------------------------------------------
// Line endings
// ------------------------------------------------------------------------

proof fn lemma_crlf_no_newline(s: Seq<char>)
    requires
        no_newline_in(s),
    ensures
        replace_crlf(s) == s,
    decreases s.len(),
{
    if s.len() > 0 {
        if s.len() >= 2 {
            assert(s[1] != '\n');
        }
        assert(s.skip(1) =~= s.drop_first());
        assert forall|i: int| 0 <= i < s.skip(1).len() implies #[trigger] s.skip(1)[i] != '\n' by {
            assert(s.skip(1)[i] == s[i + 1]);
        }
        lemma_crlf_no_newline(s.skip(1));
        assert(seq![s[0]] + s.skip(1) =~= s);
    }
}

/// No `\n` in `s`.
pub open spec fn no_newline_in(s: Seq<char>) -> bool {
    forall|i: int| 0 <= i < s.len() ==> #[trigger] s[i] != '\n'
}

proof fn lemma_crlf_concat(a: Seq<char>, b: Seq<char>)
    requires
        a.len() == 0 || a.last() != '\r',
    ensures
        replace_crlf(a + b) == replace_crlf(a) + replace_crlf(b),
    decreases a.len(),
{
    if a.len() == 0 {
        assert(a + b =~= b);
        assert(replace_crlf(a) + replace_crlf(b) =~= replace_crlf(b));
    } else if a.len() >= 2 && a[0] == '\r' && a[1] == '\n' {
        assert((a + b)[0] == '\r' && (a + b)[1] == '\n');
        assert((a + b).skip(2) =~= a.skip(2) + b);
        if a.len() > 2 {
            assert(a.skip(2).last() == a.last());
        }
        lemma_crlf_concat(a.skip(2), b);
        assert(replace_crlf(a + b) =~= replace_crlf(a) + replace_crlf(b));
    } else {
        assert((a + b)[0] == a[0]);
        if a.len() == 1 {
            assert(a[0] != '\r');
        } else {
            assert((a + b)[1] == a[1]);
        }
        assert((a + b).skip(1) =~= a.skip(1) + b);
        if a.len() > 1 {
            assert(a.skip(1).last() == a.last());
        }
        lemma_crlf_concat(a.skip(1), b);
        assert(replace_crlf(a + b) =~= replace_crlf(a) + replace_crlf(b));
    }
}

/// Written lines hold no `\r\n`.
pub proof fn lemma_crlf_unlines(ls: Seq<Seq<char>>)
    requires
        plain_lines(ls),
    ensures
        replace_crlf(unlines(ls)) == unlines(ls),
    decreases ls.len(),
{
    if ls.len() > 0 {
        let l = ls[0];
        assert(plain_line(l));
        let rest = ls.drop_first();
        assert forall|i: int| 0 <= i < rest.len() implies plain_line(#[trigger] rest[i]) by {
            assert(rest[i] == ls[i + 1]);
        }
        lemma_crlf_unlines(rest);
        let nl = seq!['\n'] + unlines(rest);
        assert(unlines(ls) =~= l + nl);
        lemma_crlf_concat(l, nl);
        lemma_crlf_no_newline(l);
        assert(nl[0] == '\n');
        assert(nl.skip(1) =~= unlines(rest));
        assert(replace_crlf(nl) =~= seq!['\n'] + replace_crlf(unlines(rest)));
    }
}

// ------------------------------------------------------------------------
// Brace depth
// ------------------------------------------------------------------------

pub open spec fn brace_delta(c: char) -> int {
    if c == '{' {
        1
    } else if c == '}' {
        -1
    } else {
        0
    }
}

/// The number of `{` minus the number of `}`.
pub open spec fn brace_balance(s: Seq<char>) -> int
    decreases s.len(),
{
    if s.len() == 0 {
        0
    } else {
        brace_balance(s.drop_last()) + brace_delta(s.last())
    }
}

pub proof fn lemma_balance_concat(a: Seq<char>, b: Seq<char>)
    ensures
        brace_balance(a + b) == brace_balance(a) + brace_balance(b),
    decreases b.len(),
{
    if b.len() == 0 {
        assert(a + b =~= a);
    } else {
        lemma_balance_concat(a, b.drop_last());
        assert((a + b).drop_last() =~= a + b.drop_last());
        assert((a + b).last() == b.last());
    }
}

pub proof fn lemma_balance_first(s: Seq<char>)
    requires
        s.len() > 0,
    ensures
        brace_balance(s) == brace_delta(s[0]) + brace_balance(s.drop_first()),
{
    assert(s =~= seq![s[0]] + s.drop_first());
    lemma_balance_concat(seq![s[0]], s.drop_first());
    assert(seq![s[0]].drop_last() =~= Seq::<char>::empty());
    assert(brace_balance(Seq::<char>::empty()) == 0);
    assert(seq![s[0]].last() == s[0]);
    assert(brace_balance(seq![s[0]]) == brace_delta(s[0]));
}

/// Scanning `seg` from depth `d`, the depth stays positive before each
/// character, and no comment or string starts.
pub open spec fn scan_ok(seg: Seq<char>, d: int) -> bool {
    forall|k: int|
        #![trigger seg[k]]
        0 <= k < seg.len() ==> seg[k] != '#' && seg[k] != '"' && d + brace_balance(seg.take(k))
            >= 1
}

pub proof fn lemma_scan_concat(a: Seq<char>, b: Seq<char>, d: int)
    requires
        scan_ok(a, d),
        scan_ok(b, d + brace_balance(a)),
    ensures
        scan_ok(a + b, d),
{
    assert forall|k: int| 0 <= k < (a + b).len() implies #[trigger] (a + b)[k] != '#' && (a
        + b)[k] != '"' && d + brace_balance((a + b).take(k)) >= 1 by {
        if k < a.len() {
            assert((a + b)[k] == a[k]);
            assert((a + b).take(k) =~= a.take(k));
        } else {
            assert((a + b)[k] == b[k - a.len()]);
            assert((a + b).take(k) =~= a + b.take(k - a.len()));
            lemma_balance_concat(a, b.take(k - a.len()));
        }
    }
}

/// Text without braces, `#` or `"`.
pub open spec fn brace_free(s: Seq<char>) -> bool {
    forall|i: int|
        0 <= i < s.len() ==> {
            let c = #[trigger] s[i];
            c != '{' && c != '}' && c != '#' && c != '"'
        }
}

pub proof fn lemma_brace_free_balance(s: Seq<char>)
    requires
        brace_free(s),
    ensures
        brace_balance(s) == 0,
    decreases s.len(),
{
    if s.len() > 0 {
        let init = s.drop_last();
        assert(brace_free(init)) by {
            assert forall|i: int| 0 <= i < init.len() implies {
                let c = #[trigger] init[i];
                c != '{' && c != '}' && c != '#' && c != '"'
            } by {
                assert(init[i] == s[i]);
            }
        }
        lemma_brace_free_balance(init);
        assert(s[s.len() - 1] == s.last());
    }
}

pub proof fn lemma_brace_free(s: Seq<char>, d: int)
    requires
        brace_free(s),
        d >= 1,
    ensures
        brace_balance(s) == 0,
        scan_ok(s, d),
{
    lemma_brace_free_balance(s);
    assert forall|k: int| 0 <= k < s.len() implies #[trigger] s[k] != '#' && s[k] != '"' && d
        + brace_balance(s.take(k)) >= 1 by {
        let p = s.take(k);
        assert(brace_free(p)) by {
            assert forall|i: int| 0 <= i < p.len() implies {
                let c = #[trigger] p[i];
                c != '{' && c != '}' && c != '#' && c != '"'
            } by {
                assert(p[i] == s[i]);
            }
        }
        lemma_brace_free_balance(p);
    }
}

/// Every prefix of `v` opens at least as many braces as it closes, and no
/// comment or string starts in it.
pub open spec fn value_scan(v: Seq<char>) -> bool {
    &&& forall|i: int| 0 <= i < v.len() ==> #[trigger] v[i] != '#' && v[i] != '"'
    &&& forall|k: int| 0 <= k <= v.len() ==> brace_balance(#[trigger] v.take(k)) >= 0
}

proof fn lemma_value_scan_free(v: Seq<char>)
    requires
        brace_free(v),
    ensures
        value_scan(v),
        brace_balance(v) == 0,
{
    lemma_brace_free(v, 1);
    assert forall|k: int| 0 <= k <= v.len() implies brace_balance(#[trigger] v.take(k)) >= 0 by {
        let p = v.take(k);
        assert(brace_free(p)) by {
            assert forall|i: int| 0 <= i < p.len() implies {
                let c = #[trigger] p[i];
                c != '{' && c != '}' && c != '#' && c != '"'
            } by {
                assert(p[i] == v[i]);
            }
        }
        lemma_brace_free_balance(p);
    }
}

pub proof fn lemma_balance_one(c: char)
    ensures
        brace_balance(seq![c]) == brace_delta(c),
{
    assert(seq![c].drop_last() =~= Seq::<char>::empty());
    assert(seq![c].last() == c);
    assert(brace_balance(Seq::<char>::empty()) == 0);
}

/// A value `{ ... }` with a brace-free inside.
proof fn lemma_value_scan_nested(mid: Seq<char>)
    requires
        brace_free(mid),
    ensures
        value_scan(seq!['{'] + mid + seq!['}']),
        brace_balance(seq!['{'] + mid + seq!['}']) == 0,
{
    let v = seq!['{'] + mid + seq!['}'];
    lemma_brace_free_balance(mid);
    lemma_balance_one('{');
    lemma_balance_one('}');
    lemma_balance_concat(seq!['{'], mid);
    lemma_balance_concat(seq!['{'] + mid, seq!['}']);
    assert forall|i: int| 0 <= i < v.len() implies #[trigger] v[i] != '#' && v[i] != '"' by {
        if 1 <= i < 1 + mid.len() {
            assert(v[i] == mid[i - 1]);
        }
    }
    assert forall|k: int| 0 <= k <= v.len() implies brace_balance(#[trigger] v.take(k)) >= 0 by {
        if k == 0 {
            assert(v.take(k) =~= Seq::<char>::empty());
        } else if k <= 1 + mid.len() {
            let m = mid.take(k - 1);
            assert(v.take(k) =~= seq!['{'] + m);
            lemma_balance_concat(seq!['{'], m);
            assert(brace_free(m)) by {
                assert forall|i: int| 0 <= i < m.len() implies {
                    let c = #[trigger] m[i];
                    c != '{' && c != '}' && c != '#' && c != '"'
                } by {
                    assert(m[i] == mid[i]);
                }
            }
            lemma_brace_free_balance(m);
        } else {
            assert(v.take(k) =~= v);
        }
    }
}

/// The key part `ind kw = ` of a line is brace free.
proof fn lemma_line_head_free(ind: Seq<char>, kw: Seq<char>)
    requires
        all_ws(ind),
        word(kw),
    ensures
        brace_free(ind + kw + seq![' ', '=', ' ']),
{
    let h = ind + kw + seq![' ', '=', ' '];
    assert forall|i: int| 0 <= i < h.len() implies {
        let c = #[trigger] h[i];
        c != '{' && c != '}' && c != '#' && c != '"'
    } by {
        if i < ind.len() {
            assert(h[i] == ind[i]);
            assert(is_ws(ind[i]));
        } else if i < ind.len() + kw.len() {
            assert(h[i] == kw[i - ind.len()]);
            assert(is_word_char(kw[i - ind.len()]));
        }
    }
}

/// Scanning an entry line and its line break.
pub proof fn lemma_entry_scan(e: Entry, d: int)
    requires
        entry_ok(e),
        value_scan(e.2),
        d >= 1,
    ensures
        scan_ok(entry_line(e) + seq!['\n'], d),
        brace_balance(entry_line(e) + seq!['\n']) == brace_balance(e.2),
        brace_balance(entry_line(e)) == brace_balance(e.2),
{
    let h = e.0 + e.1 + seq![' ', '=', ' '];
    lemma_line_head_free(e.0, e.1);
    lemma_brace_free(h, d);
    assert(entry_line(e) =~= h + e.2);
    let v = e.2 + seq!['\n'];
    assert(brace_free(seq!['\n'])) by {
        assert(seq!['\n'][0] == '\n');
    }
    lemma_brace_free_balance(seq!['\n']);
    lemma_balance_concat(e.2, seq!['\n']);
    assert(scan_ok(v, d)) by {
        assert forall|k: int| #![trigger v[k]] 0 <= k < v.len() implies v[k] != '#' && v[k] != '"' && d
            + brace_balance(v.take(k)) >= 1 by {
            if k < e.2.len() {
                assert(v[k] == e.2[k]);
                assert(v.take(k) =~= e.2.take(k));
                assert(brace_balance(e.2.take(k)) >= 0);
            } else {
                assert(v.take(k) =~= e.2);
                assert(e.2.take(e.2.len() as int) =~= e.2);
                assert(brace_balance(e.2.take(e.2.len() as int)) >= 0);
            }
        }
    }
    lemma_scan_concat(h, v, d);
    assert(entry_line(e) + seq!['\n'] =~= h + v);
    lemma_balance_concat(h, v);
    lemma_balance_concat(h, e.2);
}

/// Scanning the closing line `\t}` and its line break.
pub proof fn lemma_close_scan(d: int)
    requires
        d >= 2,
    ensures
        scan_ok(close_line() + seq!['\n'], d),
        brace_balance(close_line() + seq!['\n']) == -1,
        brace_balance(close_line()) == -1,
{
    let v = close_line() + seq!['\n'];
    assert(v =~= seq!['\t', '}', '\n']);
    assert(v.take(0) =~= Seq::<char>::empty());
    assert(v.take(1) =~= seq!['\t']);
    assert(v.take(2) =~= seq!['\t', '}']);
    assert(seq!['\t', '}'].drop_last() =~= seq!['\t']);
    assert(v.drop_last() =~= seq!['\t', '}']);
    lemma_balance_one('\t');
    assert(brace_balance(seq!['\t']) == 0);
    assert(brace_balance(seq!['\t', '}']) == -1);
    assert(brace_balance(v) == -1);
    assert(close_line() =~= seq!['\t', '}']);
}

/// A line followed by `\n`, for each line.
pub proof fn lemma_unlines_cons(l: Seq<char>, ls: Seq<Seq<char>>)
    ensures
        unlines(seq![l] + ls) == (l + seq!['\n']) + unlines(ls),
{
    assert((seq![l] + ls)[0] == l);
    assert((seq![l] + ls).drop_first() =~= ls);
}

/// Entries whose values keep every prefix balanced and are balanced.
pub open spec fn flat(es: Seq<Entry>) -> bool {
    forall|i: int| 0 <= i < es.len() ==> flat_value(#[trigger] es[i].2)
}

/// A balanced value: every prefix keeps the braces balanced and no comment or
/// string starts; or it holds no brace and no line break, and its comments and
/// strings close (see [`tok_ok`]).
pub open spec fn flat_value(v: Seq<char>) -> bool {
    ||| value_scan(v) && brace_balance(v) == 0
    ||| no_brace(v) && tok_ok(v) && no_newline(v)
}

/// The scan over an entry line whose value is balanced.
pub proof fn lemma_entry_tscan(e: Entry, d: int)
    requires
        entry_ok(e),
        flat_value(e.2),
        d >= 1,
    ensures
        tscan(entry_line(e) + seq!['\n'], d),
        brace_balance(entry_line(e) + seq!['\n']) == 0,
        brace_balance(entry_line(e)) == 0,
{
    if value_scan(e.2) && brace_balance(e.2) == 0 {
        lemma_entry_scan(e, d);
        lemma_scan_tscan(entry_line(e) + seq!['\n'], d);
    } else {
        let h = e.0 + e.1 + seq![' ', '=', ' '];
        lemma_line_head_free(e.0, e.1);
        lemma_brace_free(h, d);
        lemma_scan_tscan(h, d);
        assert(entry_line(e) =~= h + e.2);
        lemma_no_brace_balance(e.2);
        assert(brace_free(seq!['\n'])) by {
            assert(seq!['\n'][0] == '\n');
        }
        lemma_brace_free(seq!['\n'], d);
        lemma_scan_tscan(seq!['\n'], d);
        assert forall|k: int| 0 <= k <= e.2.len() implies d + brace_balance(#[trigger] e.2.take(k))
            >= 1 by {
            assert(no_brace(e.2.take(k))) by {
                assert forall|i: int| 0 <= i < e.2.take(k).len() implies #[trigger] e.2.take(k)[i]
                    != '{' && e.2.take(k)[i] != '}' by {
                    assert(e.2.take(k)[i] == e.2[i]);
                }
            }
            lemma_no_brace_balance(e.2.take(k));
        }
        lemma_tok_tscan(e.2, d, seq!['\n']);
        lemma_tscan_concat(h, e.2 + seq!['\n'], d);
        assert(entry_line(e) + seq!['\n'] =~= h + (e.2 + seq!['\n']));
        lemma_balance_concat(h, e.2);
        lemma_balance_concat(h + e.2, seq!['\n']);
        lemma_brace_free_balance(seq!['\n']);
    }
}

/// Scanning the lines of flat entries.
pub proof fn lemma_flat_scan(es: Seq<Entry>, d: int)
    requires
        entries_ok(es),
        flat(es),
        d >= 1,
    ensures
        tscan(unlines(entry_lines(es)), d),
        brace_balance(unlines(entry_lines(es))) == 0,
    decreases es.len(),
{
    if es.len() == 0 {
        assert(entry_lines(es) =~= Seq::<Seq<char>>::empty());
        assert(unlines(entry_lines(es)) =~= Seq::<char>::empty());
        assert(brace_balance(Seq::<char>::empty()) == 0);
    } else {
        lemma_entries_drop_first(es);
        let rest = es.drop_first();
        assert(flat(rest)) by {
            assert forall|i: int| 0 <= i < rest.len() implies flat_value(#[trigger] rest[i].2) by {
                assert(rest[i] == es[i + 1]);
            }
        }
        lemma_flat_scan(rest, d);
        assert(entry_ok(es[0]) && flat_value(es[0].2));
        lemma_entry_tscan(es[0], d);
        lemma_unlines_cons(entry_line(es[0]), entry_lines(rest));
        lemma_tscan_concat(entry_line(es[0]) + seq!['\n'], unlines(entry_lines(rest)), d);
        lemma_balance_concat(entry_line(es[0]) + seq!['\n'], unlines(entry_lines(rest)));
    }
}

pub broadcast proof fn lemma_flat_concat(a: Seq<Entry>, b: Seq<Entry>)
    ensures
        (flat(a) && flat(b)) ==> #[trigger] flat(a + b),
{
    if flat(a) && flat(b) {
        assert forall|i: int| 0 <= i < (a + b).len() implies flat_value(#[trigger] (a + b)[i].2) by {
            if i < a.len() {
                assert((a + b)[i] == a[i]);
            } else {
                assert((a + b)[i] == b[i - a.len()]);
            }
        }
    }
}

proof fn lemma_flat_single(kw: Seq<char>, v: Seq<char>)
    requires
        brace_free(v),
    ensures
        flat(single(kw, v)),
{
    lemma_value_scan_free(v);
    assert(single(kw, v)[0].2 == v);
}

proof fn lemma_flat_list(bk: Seq<char>, ps: Seq<Seq<char>>)
    requires
        forall|i: int| 0 <= i < ps.len() ==> text_ok(#[trigger] ps[i]),
    ensures
        flat(list_entries(tab2(), bk, ps)),
{
    lemma_focus_word();
    let es = list_entries(tab2(), bk, ps);
    assert forall|i: int| 0 <= i < es.len() implies value_scan((#[trigger] es[i]).2)
        && brace_balance(es[i].2) == 0 by {
        let p = ps[i];
        assert(text_ok(p));
        let mid = seq![' '] + kv("focus"@, p) + seq![' '];
        assert(list_value(p) =~= seq!['{'] + mid + seq!['}']);
        assert(brace_free(mid)) by {
            assert forall|j: int| 0 <= j < mid.len() implies {
                let c = #[trigger] mid[j];
                c != '{' && c != '}' && c != '#' && c != '"'
            } by {
                if 1 <= j < 6 {
                    assert(mid[j] == "focus"@[j - 1]);
                    assert(is_word_char("focus"@[j - 1]));
                } else if 9 <= j < 9 + p.len() {
                    assert(mid[j] == p[j - 9]);
                }
            }
        }
        lemma_value_scan_nested(mid);
        assert(es[i].2 == list_value(p));
    }
}

pub proof fn lemma_spaced_free(fs: Seq<Seq<char>>)
    requires
        filters_ok(fs),
    ensures
        brace_free(spaced(fs) + seq![' ']),
    decreases fs.len(),
{
    reveal_strlit(" ");
    assert(" "@ =~= seq![' ']);
    let t = spaced(fs) + seq![' '];
    if fs.len() == 0 {
        assert(t =~= seq![' ']);
    } else {
        let init = fs.drop_last();
        assert forall|i: int| 0 <= i < init.len() implies filter_ok(#[trigger] init[i]) by {
            assert(init[i] == fs[i]);
        }
        lemma_spaced_free(init);
        let a = spaced(init) + seq![' '];
        let f = fs.last();
        assert(filter_ok(f));
        assert(t =~= a + f + seq![' ']);
        assert forall|j: int| 0 <= j < t.len() implies {
            let c = #[trigger] t[j];
            c != '{' && c != '}' && c != '#' && c != '"'
        } by {
            if j < a.len() {
                assert(t[j] == a[j]);
            } else if j < a.len() + f.len() {
                assert(t[j] == f[j - a.len()]);
            }
        }
    }
}

proof fn lemma_flat_filters(fs: Seq<Seq<char>>)
    requires
        filters_ok(fs),
    ensures
        flat(filters_entry(fs)),
{
    if fs.len() > 0 {
        lemma_spaced_free(fs);
        let mid = spaced(fs) + seq![' '];
        assert(filters_value(fs) =~= seq!['{'] + mid + seq!['}']);
        lemma_value_scan_nested(mid);
        assert(filters_entry(fs)[0].2 == filters_value(fs));
    }
}

/// The entries of a focus after its opening line.
pub open spec fn node_body_entries(n: NodeView) -> Seq<Entry> {
    single("id"@, n.id) + (opt_entry("icon"@, n.icon) + (single("x"@, int_text(n.x as int)) + (
    single("y"@, int_text(n.y as int)) + (opt_entry(
        "relative_position_id"@,
        n.relative_position_id,
    ) + (cost_entry(n.cost) + (list_entries(tab2(), "prerequisite"@, n.prerequisites) + (
    list_entries(tab2(), "mutually_exclusive"@, n.mutually_exclusive) + flag_entry(
        n.bypass_if_unavailable,
    )))))))) + filters_entry(n.search_filters)
}

#[verifier::spinoff_prover]
#[verifier::rlimit(40)]
proof fn lemma_node_body(n: NodeView)
    requires
        node_ok(n),
    ensures
        node_entries(n) =~= seq![head_entry()] + node_body_entries(n),
        flat(node_body_entries(n)),
        entries_ok(node_body_entries(n)),
{
    broadcast use lemma_flat_concat;

    lemma_node_entries_ok(n);
    let es = node_entries(n);
    assert(es =~= seq![head_entry()] + node_body_entries(n));
    assert(entries_ok(node_body_entries(n))) by {
        let b = node_body_entries(n);
        assert forall|i: int| 0 <= i < b.len() implies entry_ok(#[trigger] b[i]) by {
            assert(b[i] == es[i + 1]);
        }
    }
    lemma_name_ok_value(n.id);
    lemma_flat_name("id"@, n.id);
    if n.icon is Some {
        lemma_flat_name("icon"@, n.icon->0);
    }
    lemma_int_text_chars(n.x as int);
    lemma_int_text_chars(n.y as int);
    lemma_flat_single("x"@, int_text(n.x as int));
    lemma_flat_single("y"@, int_text(n.y as int));
    if n.relative_position_id is Some {
        lemma_flat_name("relative_position_id"@, n.relative_position_id->0);
    }
    if n.cost is Some {
        lemma_cost_text_chars(n.cost->0);
        lemma_flat_single("cost"@, cost_file_text(n.cost->0));
    }
    lemma_flat_list("prerequisite"@, n.prerequisites);
    lemma_flat_list("mutually_exclusive"@, n.mutually_exclusive);
    if n.bypass_if_unavailable {
        assert(brace_free("yes"@)) by {
            reveal_strlit("yes");
        }
        lemma_flat_single("bypass_if_unavailable"@, "yes"@);
    }
    lemma_flat_filters(n.search_filters);
}

proof fn lemma_head_scan(d: int)
    requires
        d >= 1,
    ensures
        scan_ok(entry_line(head_entry()) + seq!['\n'], d),
        brace_balance(entry_line(head_entry()) + seq!['\n']) == 1,
{
    lemma_focus_word();
    let e = head_entry();
    assert(entry_ok(e)) by {
        assert(seq!['\t'][0] == '\t');
        assert(seq!['{'][0] == '{');
    }
    lemma_balance_one('{');
    assert(value_scan(seq!['{'])) by {
        assert(seq!['{'].take(0) =~= Seq::<char>::empty());
        assert(seq!['{'].take(1) =~= seq!['{']);
    }
    lemma_entry_scan(e, d);
}

/// Scanning a written focus block.
#[verifier::spinoff_prover]
#[verifier::rlimit(40)]
pub proof fn lemma_node_scan(n: NodeView, d: int)
    requires
        node_ok(n),
        d >= 1,
    ensures
        tscan(unlines(node_lines(n)), d),
        brace_balance(unlines(node_lines(n))) == 0,
{
    lemma_node_body(n);
    let b = node_body_entries(n);
    lemma_head_scan(d);
    lemma_flat_scan(b, d + 1);
    lemma_raws_scan(n, d + 1);
    lemma_close_scan(d + 1);
    lemma_entry_lines_concat(seq![head_entry()], b);
    assert(entry_lines(seq![head_entry()]) =~= seq![entry_line(head_entry())]);
    let hl = entry_line(head_entry()) + seq!['\n'];
    let bl = unlines(entry_lines(b));
    let rl = unlines(raws_lines(n));
    let cl = close_line() + seq!['\n'];
    lemma_scan_tscan(hl, d);
    lemma_scan_tscan(cl, d + 1);
    assert(node_lines(n) =~= seq![entry_line(head_entry())] + (entry_lines(b) + (raws_lines(n)
        + seq![close_line()])));
    lemma_unlines_cons(entry_line(head_entry()), entry_lines(b) + (raws_lines(n) + seq![close_line()]));
    lemma_unlines_concat(entry_lines(b), raws_lines(n) + seq![close_line()]);
    lemma_unlines_concat(raws_lines(n), seq![close_line()]);
    lemma_unlines_one(close_line());
    assert(unlines(node_lines(n)) =~= hl + (bl + (rl + cl)));
    lemma_tscan_concat(rl, cl, d + 1);
    lemma_balance_concat(rl, cl);
    lemma_tscan_concat(bl, rl + cl, d + 1);
    lemma_balance_concat(bl, rl + cl);
    lemma_tscan_concat(hl, bl + (rl + cl), d);
    lemma_balance_concat(hl, bl + (rl + cl));
}

// ------------------------------------------------------------------------
// Finding the focus blocks of written lines
// ------------------------------------------------------------------------

proof fn lemma_line_close_flat(l: Seq<char>, k: int)
    requires
        0 <= k <= l.len(),
        forall|j: int| k <= j < l.len() ==> 1 + brace_balance(#[trigger] l.take(j + 1)) >= 1,
    ensures
        line_close(l, k, 1 + brace_balance(l.take(k)), true) == (
            None::<int>,
            1 + brace_balance(l),
            true,
        ),
    decreases l.len() - k,
{
    if k == l.len() {
        assert(l.take(k) =~= l);
    } else {
        let d = 1 + brace_balance(l.take(k));
        assert(l.take(k + 1).drop_last() =~= l.take(k));
        assert(l.take(k + 1).last() == l[k]);
        assert(1 + brace_balance(l.take(k + 1)) >= 1);
        assert(brace_step(l[k], d, true) == (1 + brace_balance(l.take(k + 1)), true));
        lemma_line_close_flat(l, k + 1);
    }
}

/// A line of flat entries does not close the focus block.
proof fn lemma_line_close_entry(e: Entry)
    requires
        entry_ok(e),
        flat_value(e.2),
    ensures
        line_close(entry_line(e), 0, 1, true) == (None::<int>, 1int, true),
{
    let l = entry_line(e);
    if value_scan(e.2) && brace_balance(e.2) == 0 {
        lemma_entry_scan(e, 1);
        let v = l + seq!['\n'];
        assert forall|j: int| 0 <= j < l.len() implies 1 + brace_balance(#[trigger] l.take(j + 1))
            >= 1 by {
            assert(v.take(j + 1) =~= l.take(j + 1));
            if j + 1 < l.len() {
                assert(v[j + 1] == l[j + 1]);
            } else {
                assert(v[j + 1] == '\n');
            }
        }
    } else {
        let h = e.0 + e.1 + seq![' ', '=', ' '];
        lemma_line_head_free(e.0, e.1);
        assert(l =~= h + e.2);
        assert forall|j: int| 0 <= j < l.len() implies 1 + brace_balance(#[trigger] l.take(j + 1))
            >= 1 by {
            assert(no_brace(l.take(j + 1))) by {
                assert forall|i: int| 0 <= i < l.take(j + 1).len() implies #[trigger] l.take(j + 1)[i]
                    != '{' && l.take(j + 1)[i] != '}' by {
                    assert(l.take(j + 1)[i] == l[i]);
                    if i >= h.len() {
                        assert(l[i] == e.2[i - h.len()]);
                    }
                }
            }
            lemma_no_brace_balance(l.take(j + 1));
        }
        assert(l.take(l.len() as int) =~= l);
        assert(l.len() > 0);
        assert(1 + brace_balance(l.take((l.len() - 1) + 1)) >= 1);
        assert(no_brace(l)) by {
            assert forall|i: int| 0 <= i < l.len() implies #[trigger] l[i] != '{' && l[i] != '}' by {
                if i >= h.len() {
                    assert(l[i] == e.2[i - h.len()]);
                }
            }
        }
        lemma_no_brace_balance(l);
    }
    assert(l.take(0) =~= Seq::<char>::empty());
    assert(brace_balance(l.take(0)) == 0);
    lemma_line_close_flat(l, 0);
}

proof fn lemma_line_close_head_from(l: Seq<char>, k: int)
    requires
        0 <= k < l.len(),
        l.last() == '{',
        forall|j: int| k <= j < l.len() - 1 ==> #[trigger] l[j] != '{' && l[j] != '}',
    ensures
        line_close(l, k, 0, false) == (None::<int>, 1int, true),
    decreases l.len() - k,
{
    if k == l.len() - 1 {
        assert(l[k] == l.last());
        assert(brace_step(l[k], 0, false) == (1int, true));
        assert(line_close(l, k + 1, 1, true) == (None::<int>, 1int, true));
    } else {
        assert(l[k] != '{' && l[k] != '}');
        assert(brace_step(l[k], 0, false) == (0int, false));
        lemma_line_close_head_from(l, k + 1);
    }
}

proof fn lemma_line_close_head()
    ensures
        line_close(entry_line(head_entry()), 0, 0, false) == (None::<int>, 1int, true),
{
    lemma_focus_word();
    let l = entry_line(head_entry());
    assert(l.last() == '{');
    assert forall|j: int| 0 <= j < l.len() - 1 implies #[trigger] l[j] != '{' && l[j] != '}' by {
        if 1 <= j < 6 {
            assert(l[j] == "focus"@[j - 1]);
            assert(is_word_char("focus"@[j - 1]));
        }
    }
    lemma_line_close_head_from(l, 0);
}

proof fn lemma_line_close_close()
    ensures
        line_close(close_line(), 0, 1, true) == (Some(1int), 0int, true),
{
    let l = close_line();
    assert(l[0] == '\t' && l[1] == '}');
    assert(line_close(l, 1, 1, true) == (Some(1int), 0int, true));
}

/// Lines `i..j`, each followed by `\n`, are the written lines of that range.
pub proof fn lemma_joined(ls: Seq<Seq<char>>, i: int, j: int)
    requires
        0 <= i <= j <= ls.len(),
    ensures
        joined(ls, i, j) == unlines(ls.subrange(i, j)),
    decreases j - i,
{
    if j == i {
        assert(ls.subrange(i, j) =~= Seq::<Seq<char>>::empty());
    } else {
        lemma_joined(ls, i, j - 1);
        assert(ls.subrange(i, j) =~= ls.subrange(i, j - 1) + seq![ls[j - 1]]);
        lemma_unlines_concat(ls.subrange(i, j - 1), seq![ls[j - 1]]);
        lemma_unlines_one(ls[j - 1]);
        assert(joined(ls, i, j) =~= unlines(ls.subrange(i, j)));
    }
}

proof fn lemma_close_from_body(ls: Seq<Seq<char>>, j: int, c: int, b: Seq<Entry>, s: int)
    requires
        0 <= s <= j <= c <= ls.len(),
        c - s == b.len(),
        ls.subrange(s, c) == entry_lines(b),
        entries_ok(b),
        flat(b),
    ensures
        close_from(ls, j, 1, true) == close_from(ls, c, 1, true),
    decreases c - j,
{
    if j < c {
        let e = b[j - s];
        assert(entry_ok(e));
        assert(flat_value(e.2));
        assert(ls[j] == ls.subrange(s, c)[j - s]);
        assert(ls[j] == entry_line(e));
        lemma_line_close_entry(e);
        lemma_close_from_body(ls, j + 1, c, b, s);
    }
}

/// The written lines of a focus, standing at `i` in `ls`, end with the line
/// that closes the block.
#[verifier::spinoff_prover]
#[verifier::rlimit(40)]
proof fn lemma_close_from_node(ls: Seq<Seq<char>>, i: int, n: NodeView)
    requires
        node_ok(n),
        0 <= i,
        i + node_lines(n).len() <= ls.len(),
        ls.subrange(i, i + node_lines(n).len()) == node_lines(n),
    ensures
        close_from(ls, i, 0, false) == Some((i + node_lines(n).len() - 1, 1int)),
{
    lemma_node_body(n);
    let b = node_body_entries(n);
    let rl = raws_lines(n);
    let m = node_lines(n).len() as int;
    lemma_entry_lines_concat(seq![head_entry()], b);
    assert(entry_lines(seq![head_entry()]) =~= seq![entry_line(head_entry())]);
    let nl = node_lines(n);
    assert(nl =~= seq![entry_line(head_entry())] + entry_lines(b) + rl + seq![close_line()]);
    assert(m == b.len() + rl.len() + 2);
    assert(ls[i] == nl[0]);
    assert(ls[i] == entry_line(head_entry()));
    lemma_line_close_head();
    let c = i + 1 + b.len();
    assert forall|t: int| 0 <= t < b.len() implies #[trigger] ls.subrange(i + 1, c)[t]
        == entry_lines(b)[t] by {
        assert(ls.subrange(i + 1, c)[t] == ls[i + 1 + t]);
        assert(ls[i + 1 + t] == ls.subrange(i, i + m)[t + 1]);
        assert(nl[t + 1] == entry_lines(b)[t]);
    }
    assert(ls.subrange(i + 1, c) =~= entry_lines(b));
    lemma_close_from_body(ls, i + 1, c, b, i + 1);
    assert forall|t: int| 0 <= t < rl.len() implies #[trigger] ls.subrange(c, c + rl.len())[t]
        == rl[t] by {
        assert(ls.subrange(c, c + rl.len())[t] == ls[c + t]);
        assert(ls[c + t] == ls.subrange(i, i + m)[1 + b.len() + t]);
        assert(nl[1 + b.len() + t] == rl[t]);
    }
    assert(ls.subrange(c, c + rl.len()) =~= rl);
    lemma_close_from_raws(ls, c, n);
    assert(ls[i + m - 1] == ls.subrange(i, i + m)[m - 1]);
    assert(ls[i + m - 1] == nl[m - 1]);
    assert(ls[i + m - 1] == close_line());
    lemma_line_close_close();
}

proof fn lemma_opens_head()
    ensures
        opens_focus(entry_line(head_entry())),
{
    lemma_focus_word();
    reveal_strlit("focus =");
    reveal_strlit("focus");
    let e = head_entry();
    assert(all_ws(seq!['\t'])) by {
        assert(seq!['\t'][0] == '\t');
    }
    lemma_trim_kv(seq!['\t'], "focus"@, seq!['{']);
    let t = kv("focus"@, seq!['{']);
    assert(t.take(7) =~= "focus ="@);
    assert(t[8] == '{');
}

/// The text of the block that `focus_blocks` takes for a written focus.
pub open spec fn node_block(n: NodeView) -> Seq<char> {
    unlines(entry_lines(node_entries(n)) + raws_lines(n)) + seq!['\t']
}

/// The lines of the block taken for a written focus.
proof fn lemma_node_block_lines(n: NodeView)
    requires
        node_ok(n),
    ensures
        lines(node_block(n)) == entry_lines(node_entries(n)) + (raws_lines(n) + seq![seq!['\t']]),
        inert(raws_lines(n) + seq![seq!['\t']]),
{
    let el = entry_lines(node_entries(n));
    let rl = raws_lines(n);
    lemma_node_entries_ok(n);
    lemma_entry_lines_plain(node_entries(n));
    assert(all_ws(seq!['\t'])) by {
        assert(seq!['\t'][0] == '\t');
    }
    lemma_trim_start_ws(seq!['\t'], Seq::empty());
    assert(seq!['\t'] + Seq::<char>::empty() =~= seq!['\t']);
    assert(trim(seq!['\t']).len() == 0);
    assert(seq![seq!['\t']][0] == seq!['\t']);
    lemma_raws_reads(n, seq![seq!['\t']]);
    assert forall|i: int| 0 <= i < (el + rl).len() implies plain_line(#[trigger] (el + rl)[i]) by {
        if i < el.len() {
            assert((el + rl)[i] == el[i]);
        } else {
            assert((el + rl)[i] == rl[i - el.len()]);
        }
    }
    lemma_lines_unlines(el + rl, seq!['\t']);
    lemma_lines_single(seq!['\t']);
    assert(el + rl + seq![seq!['\t']] =~= el + (rl + seq![seq!['\t']]));
}

/// The block taken for a written focus describes the focus as it reads back.
pub proof fn lemma_node_block(n: NodeView)
    requires
        node_ok(n),
    ensures
        single_focus(node_block(n)) == Some(reread_node(n)),
{
    lemma_node_block_lines(n);
    let rest = raws_lines(n) + seq![seq!['\t']];
    assert(trim(seq!['\t']).len() == 0) by {
        assert(all_ws(seq!['\t'])) by {
            assert(seq!['\t'][0] == '\t');
        }
        lemma_trim_start_ws(seq!['\t'], Seq::empty());
        assert(seq!['\t'] + Seq::<char>::empty() =~= seq!['\t']);
    }
    assert(seq![seq!['\t']][0] == seq!['\t']);
    lemma_raws_reads(n, seq![seq!['\t']]);
    lemma_single_focus_lines(node_block(n), n, rest);
    assert(raws_read(n, rest) == reread_node(n));
}

/// At a written focus, `focus_blocks` takes its block and goes on after it.
#[verifier::spinoff_prover]
#[verifier::rlimit(40)]
pub proof fn lemma_focus_blocks_node(ls: Seq<Seq<char>>, i: int, n: NodeView)
    requires
        node_ok(n),
        0 <= i,
        i + node_lines(n).len() <= ls.len(),
        ls.subrange(i, i + node_lines(n).len()) == node_lines(n),
    ensures
        focus_blocks(ls, i) == seq![node_block(n)] + focus_blocks(ls, i + node_lines(n).len()),
{
    let m = node_lines(n).len() as int;
    let pre = entry_lines(node_entries(n)) + raws_lines(n);
    assert(ls[i] == node_lines(n)[0]);
    assert(node_lines(n)[0] == entry_lines(node_entries(n))[0]);
    assert(node_entries(n)[0] == head_entry());
    lemma_opens_head();
    lemma_close_from_node(ls, i, n);
    lemma_joined(ls, i, i + m - 1);
    let nl = node_lines(n);
    assert(nl == pre + seq![close_line()]);
    assert forall|t: int| 0 <= t < m - 1 implies #[trigger] ls.subrange(i, i + m - 1)[t]
        == pre[t] by {
        assert(ls.subrange(i, i + m - 1)[t] == ls[i + t]);
        assert(ls[i + t] == ls.subrange(i, i + m)[t]);
        assert(nl[t] == pre[t]);
    }
    assert(ls.subrange(i, i + m - 1) =~= pre);
    assert(ls[i + m - 1] == ls.subrange(i, i + m)[m - 1]);
    assert(ls[i + m - 1] == close_line());
    assert(close_line().take(1) =~= seq!['\t']);
}

// ------------------------------------------------------------------------
// The written text of a tree as lines
// ------------------------------------------------------------------------

pub open spec fn tab1() -> Seq<char> {
    seq!['\t']
}

/// The lines of a written shortcut, but its closing line.
pub open spec fn shortcut_entries(sc: (Seq<char>, Seq<char>)) -> Seq<Entry> {
    seq![
        (tab1(), "shortcut"@, seq!['{']),
        (tab2(), "name"@, sc.0),
        (tab2(), "target"@, sc.1),
        (tab2(), "scroll_wheel_factor"@, "0.80"@),
    ]
}

pub open spec fn shortcut_lines(sc: (Seq<char>, Seq<char>)) -> Seq<Seq<char>> {
    entry_lines(shortcut_entries(sc)) + seq![close_line()]
}

pub open spec fn shortcuts_lines(ss: Seq<(Seq<char>, Seq<char>)>) -> Seq<Seq<char>>
    decreases ss.len(),
{
    if ss.len() == 0 {
        Seq::empty()
    } else {
        shortcuts_lines(ss.drop_last()) + shortcut_lines(ss.last())
    }
}

/// The lines of written focuses, an empty line between two.
pub open spec fn nodes_lines(ns: Seq<NodeView>) -> Seq<Seq<char>>
    decreases ns.len(),
{
    if ns.len() == 0 {
        Seq::empty()
    } else if ns.len() == 1 {
        node_lines(ns[0])
    } else {
        nodes_lines(ns.drop_last()) + seq![Seq::<char>::empty()] + node_lines(ns.last())
    }
}

/// The lines inside the tree's braces, after its opening line.
pub open spec fn tree_body_lines(t: TreeView) -> Seq<Seq<char>> {
    seq![tab1() + kv("id"@, t.id), Seq::<char>::empty()] + shortcuts_lines(t.shortcuts) + (if t.shortcuts.len()
        > 0 {
        seq![Seq::<char>::empty()]
    } else {
        Seq::<Seq<char>>::empty()
    }) + nodes_lines(t.focuses)
}

/// The lines of a written tree.
pub open spec fn tree_lines(t: TreeView) -> Seq<Seq<char>> {
    seq!["focus_tree = {"@] + tree_body_lines(t) + seq![seq!['}']]
}

/// A shortcut that is written: its name and target are [`name_ok`].
pub open spec fn shortcut_ok(sc: (Seq<char>, Seq<char>)) -> bool {
    name_ok(sc.0) && name_ok(sc.1)
}

/// A tree that is written and read back: its id, shortcuts and focuses can be
/// (see [`name_ok`], [`shortcut_ok`], [`node_ok`]), and it has a focus.
pub open spec fn tree_ok(t: TreeView) -> bool {
    &&& name_ok(t.id)
    &&& forall|i: int| 0 <= i < t.shortcuts.len() ==> shortcut_ok(#[trigger] t.shortcuts[i])
    &&& forall|i: int| 0 <= i < t.focuses.len() ==> node_ok(#[trigger] t.focuses[i])
    &&& t.focuses.len() > 0
}

#[verifier::spinoff_prover]
#[verifier::rlimit(40)]
proof fn lemma_shortcut_text(sc: (Seq<char>, Seq<char>))
    ensures
        shortcut_text(sc) == unlines(shortcut_lines(sc)),
{
    reveal_strlit("\tshortcut = {\n");
    reveal_strlit("\t\tname = ");
    reveal_strlit("\t\ttarget = ");
    reveal_strlit("\t\tscroll_wheel_factor = 0.80\n");
    reveal_strlit("\t}\n");
    reveal_strlit("\n");
    reveal_strlit("shortcut");
    reveal_strlit("name");
    reveal_strlit("target");
    reveal_strlit("scroll_wheel_factor");
    reveal_strlit("0.80");
    let es = shortcut_entries(sc);
    let ls = shortcut_lines(sc);
    assert(ls =~= seq![
        entry_line(es[0]),
        entry_line(es[1]),
        entry_line(es[2]),
        entry_line(es[3]),
        close_line(),
    ]);
    let l0 = entry_line(es[0]);
    let l1 = entry_line(es[1]);
    let l2 = entry_line(es[2]);
    let l3 = entry_line(es[3]);
    let l4 = close_line();
    assert(unlines(seq![l4]) =~= l4 + seq!['\n']) by {
        lemma_unlines_one(l4);
    }
    lemma_unlines_cons(l3, seq![l4]);
    assert(seq![l3, l4] =~= seq![l3] + seq![l4]);
    lemma_unlines_cons(l2, seq![l3, l4]);
    assert(seq![l2, l3, l4] =~= seq![l2] + seq![l3, l4]);
    lemma_unlines_cons(l1, seq![l2, l3, l4]);
    assert(seq![l1, l2, l3, l4] =~= seq![l1] + seq![l2, l3, l4]);
    lemma_unlines_cons(l0, seq![l1, l2, l3, l4]);
    assert(ls =~= seq![l0] + seq![l1, l2, l3, l4]);
    assert(shortcut_text(sc) =~= unlines(ls));
}

proof fn lemma_shortcuts_text(ss: Seq<(Seq<char>, Seq<char>)>)
    ensures
        shortcuts_text(ss) == unlines(shortcuts_lines(ss)),
    decreases ss.len(),
{
    if ss.len() > 0 {
        lemma_shortcuts_text(ss.drop_last());
        lemma_shortcut_text(ss.last());
        lemma_unlines_concat(shortcuts_lines(ss.drop_last()), shortcut_lines(ss.last()));
    }
}

proof fn lemma_nodes_text(ns: Seq<NodeView>)
    requires
        forall|i: int| 0 <= i < ns.len() ==> node_ok(#[trigger] ns[i]),
    ensures
        nodes_text(ns) == unlines(nodes_lines(ns)),
    decreases ns.len(),
{
    if ns.len() == 1 {
        lemma_node_text(ns[0]);
    } else if ns.len() > 1 {
        let init = ns.drop_last();
        assert forall|i: int| 0 <= i < init.len() implies node_ok(#[trigger] init[i]) by {
            assert(init[i] == ns[i]);
        }
        lemma_nodes_text(init);
        assert(node_ok(ns[ns.len() - 1]));
        lemma_node_text(ns.last());
        lemma_newline_lit();
        lemma_unlines_concat(nodes_lines(init) + seq![Seq::<char>::empty()], node_lines(ns.last()));
        lemma_unlines_concat(nodes_lines(init), seq![Seq::<char>::empty()]);
        lemma_unlines_one(Seq::<char>::empty());
        assert(Seq::<char>::empty() + seq!['\n'] =~= "\n"@);
        assert(nodes_text(ns) =~= unlines(nodes_lines(ns)));
    }
}

/// The written text of a tree is its lines.
#[verifier::spinoff_prover]
#[verifier::rlimit(90)]
pub proof fn lemma_tree_text(t: TreeView)
    requires
        tree_ok(t),
    ensures
        tree_text(t) == unlines(tree_lines(t)),
{
    reveal_strlit("focus_tree = {\n");
    reveal_strlit("focus_tree = {");
    reveal_strlit("\tid = ");
    reveal_strlit("id");
    reveal_strlit("}\n");
    lemma_newline_lit();
    lemma_shortcuts_text(t.shortcuts);
    lemma_nodes_text(t.focuses);
    let l0 = "focus_tree = {"@;
    let l1 = tab1() + kv("id"@, t.id);
    let e = Seq::<char>::empty();
    let sc = shortcuts_lines(t.shortcuts);
    let sep = if t.shortcuts.len() > 0 {
        seq![e]
    } else {
        Seq::<Seq<char>>::empty()
    };
    let nl = nodes_lines(t.focuses);
    let last = seq!['}'];
    assert(tree_lines(t) =~= seq![l0, l1, e] + (sc + (sep + (nl + seq![last]))));
    lemma_unlines_concat(seq![l0, l1, e], sc + (sep + (nl + seq![last])));
    lemma_unlines_concat(sc, sep + (nl + seq![last]));
    lemma_unlines_concat(sep, nl + seq![last]);
    lemma_unlines_concat(nl, seq![last]);
    lemma_unlines_one(last);
    lemma_unlines_cons(l0, seq![l1, e]);
    assert(seq![l0, l1, e] =~= seq![l0] + seq![l1, e]);
    lemma_unlines_cons(l1, seq![e]);
    assert(seq![l1, e] =~= seq![l1] + seq![e]);
    lemma_unlines_one(e);
    if t.shortcuts.len() > 0 {
        lemma_unlines_one(e);
    } else {
        assert(sep =~= Seq::<Seq<char>>::empty());
    }
    assert(tree_text(t) =~= unlines(tree_lines(t)));
}

// ------------------------------------------------------------------------
// The brace depth over a written tree
// ------------------------------------------------------------------------

/// Written lines that keep the depth positive from `d` and end where they began.
pub open spec fn lines_scan(ls: Seq<Seq<char>>, d: int) -> bool {
    tscan(unlines(ls), d) && brace_balance(unlines(ls)) == 0
}

pub proof fn lemma_lines_scan_concat(a: Seq<Seq<char>>, b: Seq<Seq<char>>, d: int)
    requires
        lines_scan(a, d),
        lines_scan(b, d),
    ensures
        lines_scan(a + b, d),
{
    lemma_unlines_concat(a, b);
    lemma_tscan_concat(unlines(a), unlines(b), d);
    lemma_balance_concat(unlines(a), unlines(b));
}

proof fn lemma_empty_line_scan(d: int)
    requires
        d >= 1,
    ensures
        lines_scan(seq![Seq::<char>::empty()], d),
{
    lemma_unlines_one(Seq::<char>::empty());
    assert(Seq::<char>::empty() + seq!['\n'] =~= seq!['\n']);
    assert(brace_free(seq!['\n'])) by {
        assert(seq!['\n'][0] == '\n');
    }
    lemma_brace_free(seq!['\n'], d);
    lemma_scan_tscan(seq!['\n'], d);
}

#[verifier::spinoff_prover]
#[verifier::rlimit(40)]
pub proof fn lemma_shortcut_entries_ok(sc: (Seq<char>, Seq<char>))
    requires
        shortcut_ok(sc),
    ensures
        entries_ok(shortcut_entries(sc)),
        entries_ok(shortcut_entries(sc).drop_first()),
        flat(shortcut_entries(sc).drop_first()),
        shortcut_entries(sc)[0] == (tab1(), "shortcut"@, seq!['{']),
{
    reveal_strlit("shortcut");
    reveal_strlit("name");
    reveal_strlit("target");
    reveal_strlit("scroll_wheel_factor");
    reveal_strlit("0.80");
    let es = shortcut_entries(sc);
    assert(all_ws(tab1()) && no_newline(tab1())) by {
        assert(tab1()[0] == '\t');
    }
    assert(all_ws(tab2()) && no_newline(tab2())) by {
        assert(tab2()[0] == '\t' && tab2()[1] == '\t');
    }
    assert(no_newline(seq!['{'])) by {
        assert(seq!['{'][0] == '{');
    }
    assert(es[0] == (tab1(), "shortcut"@, seq!['{']));
    assert(es[1] == (tab2(), "name"@, sc.0));
    assert(es[2] == (tab2(), "target"@, sc.1));
    assert(es[3] == (tab2(), "scroll_wheel_factor"@, "0.80"@));
    assert(brace_free("0.80"@));
    assert(flat_value(sc.0));
    assert(flat_value(sc.1));
    lemma_value_scan_free("0.80"@);
    assert(entries_ok(es)) by {
        assert forall|i: int| 0 <= i < es.len() implies entry_ok(#[trigger] es[i]) by {
            if i == 1 {
                assert(es[i] == (tab2(), "name"@, sc.0));
            } else if i == 2 {
                assert(es[i] == (tab2(), "target"@, sc.1));
            } else if i == 3 {
                assert(es[i] == (tab2(), "scroll_wheel_factor"@, "0.80"@));
            } else {
                assert(es[i] == (tab1(), "shortcut"@, seq!['{']));
            }
        }
    }
    let b = es.drop_first();
    assert(entries_ok(b)) by {
        assert forall|i: int| 0 <= i < b.len() implies entry_ok(#[trigger] b[i]) by {
            assert(b[i] == es[i + 1]);
        }
    }
    assert(flat(b)) by {
        assert forall|i: int| 0 <= i < b.len() implies flat_value(#[trigger] b[i].2) by {
            assert(b[i] == es[i + 1]);
        }
    }
}

/// Scanning an opening line, flat entries and the closing line.
proof fn lemma_block_scan(h: Entry, b: Seq<Entry>, d: int)
    requires
        entry_ok(h),
        h.2 == seq!['{'],
        entries_ok(b),
        flat(b),
        d >= 1,
    ensures
        lines_scan(seq![entry_line(h)] + entry_lines(b) + seq![close_line()], d),
{
    lemma_balance_one('{');
    assert(value_scan(seq!['{'])) by {
        assert(seq!['{'].take(0) =~= Seq::<char>::empty());
        assert(seq!['{'].take(1) =~= seq!['{']);
    }
    lemma_entry_scan(h, d);
    lemma_flat_scan(b, d + 1);
    lemma_close_scan(d + 1);
    let hl = entry_line(h) + seq!['\n'];
    let bl = unlines(entry_lines(b));
    let cl = close_line() + seq!['\n'];
    lemma_unlines_cons(entry_line(h), entry_lines(b) + seq![close_line()]);
    lemma_unlines_concat(entry_lines(b), seq![close_line()]);
    lemma_unlines_one(close_line());
    assert(seq![entry_line(h)] + entry_lines(b) + seq![close_line()] =~= seq![entry_line(h)] + (
    entry_lines(b) + seq![close_line()]));
    lemma_scan_tscan(hl, d);
    lemma_scan_tscan(cl, d + 1);
    lemma_tscan_concat(bl, cl, d + 1);
    lemma_balance_concat(bl, cl);
    lemma_tscan_concat(hl, bl + cl, d);
    lemma_balance_concat(hl, bl + cl);
}

proof fn lemma_shortcut_scan(sc: (Seq<char>, Seq<char>), d: int)
    requires
        shortcut_ok(sc),
        d >= 1,
    ensures
        lines_scan(shortcut_lines(sc), d),
        plain_lines(shortcut_lines(sc)),
{
    lemma_shortcut_entries_ok(sc);
    let es = shortcut_entries(sc);
    let b = es.drop_first();
    assert(es =~= seq![es[0]] + b);
    lemma_entry_lines_concat(seq![es[0]], b);
    assert(entry_lines(seq![es[0]]) =~= seq![entry_line(es[0])]);
    lemma_block_scan(es[0], b, d);
    assert(shortcut_lines(sc) =~= seq![entry_line(es[0])] + entry_lines(b) + seq![close_line()]);
    lemma_entry_lines_plain(es);
    lemma_close_line();
    let ls = shortcut_lines(sc);
    assert forall|i: int| 0 <= i < ls.len() implies plain_line(#[trigger] ls[i]) by {
        if i < entry_lines(es).len() {
            assert(ls[i] == entry_lines(es)[i]);
        }
    }
}

proof fn lemma_shortcuts_scan(ss: Seq<(Seq<char>, Seq<char>)>, d: int)
    requires
        forall|i: int| 0 <= i < ss.len() ==> shortcut_ok(#[trigger] ss[i]),
        d >= 1,
    ensures
        lines_scan(shortcuts_lines(ss), d),
        plain_lines(shortcuts_lines(ss)),
    decreases ss.len(),
{
    if ss.len() == 0 {
        assert(unlines(Seq::<Seq<char>>::empty()) =~= Seq::<char>::empty());
        assert(scan_ok(Seq::<char>::empty(), d));
    } else {
        let init = ss.drop_last();
        assert forall|i: int| 0 <= i < init.len() implies shortcut_ok(#[trigger] init[i]) by {
            assert(init[i] == ss[i]);
        }
        lemma_shortcuts_scan(init, d);
        assert(shortcut_ok(ss[ss.len() - 1]));
        lemma_shortcut_scan(ss.last(), d);
        lemma_lines_scan_concat(shortcuts_lines(init), shortcut_lines(ss.last()), d);
        lemma_plain_concat(shortcuts_lines(init), shortcut_lines(ss.last()));
    }
}

pub proof fn lemma_plain_concat(a: Seq<Seq<char>>, b: Seq<Seq<char>>)
    requires
        plain_lines(a),
        plain_lines(b),
    ensures
        plain_lines(a + b),
{
    assert forall|i: int| 0 <= i < (a + b).len() implies plain_line(#[trigger] (a + b)[i]) by {
        if i < a.len() {
            assert((a + b)[i] == a[i]);
        } else {
            assert((a + b)[i] == b[i - a.len()]);
        }
    }
}

pub proof fn lemma_empty_plain()
    ensures
        plain_lines(seq![Seq::<char>::empty()]),
{
    assert(seq![Seq::<char>::empty()][0] == Seq::<char>::empty());
}

#[verifier::spinoff_prover]
#[verifier::rlimit(40)]
proof fn lemma_nodes_scan(ns: Seq<NodeView>, d: int)
    requires
        forall|i: int| 0 <= i < ns.len() ==> node_ok(#[trigger] ns[i]),
        d >= 1,
    ensures
        lines_scan(nodes_lines(ns), d),
        plain_lines(nodes_lines(ns)),
    decreases ns.len(),
{
    if ns.len() == 0 {
        assert(unlines(Seq::<Seq<char>>::empty()) =~= Seq::<char>::empty());
        assert(scan_ok(Seq::<char>::empty(), d));
    } else if ns.len() == 1 {
        assert(node_ok(ns[0]));
        lemma_node_scan(ns[0], d);
        lemma_node_lines(ns[0]);
    } else {
        let init = ns.drop_last();
        assert forall|i: int| 0 <= i < init.len() implies node_ok(#[trigger] init[i]) by {
            assert(init[i] == ns[i]);
        }
        lemma_nodes_scan(init, d);
        assert(node_ok(ns[ns.len() - 1]));
        lemma_node_scan(ns.last(), d);
        lemma_node_lines(ns.last());
        lemma_empty_line_scan(d);
        lemma_empty_plain();
        lemma_lines_scan_concat(nodes_lines(init), seq![Seq::<char>::empty()], d);
        lemma_lines_scan_concat(nodes_lines(init) + seq![Seq::<char>::empty()], node_lines(ns.last()), d);
        lemma_plain_concat(nodes_lines(init), seq![Seq::<char>::empty()]);
        lemma_plain_concat(nodes_lines(init) + seq![Seq::<char>::empty()], node_lines(ns.last()));
    }
}

proof fn lemma_entry_line_alone(e: Entry)
    requires
        entry_ok(e),
        flat_value(e.2),
    ensures
        lines_scan(seq![entry_line(e)], 1),
        plain_lines(seq![entry_line(e)]),
{
    lemma_entry_tscan(e, 1);
    lemma_unlines_one(entry_line(e));
    lemma_entry_lines_plain(seq![e]);
    assert(entry_lines(seq![e]) =~= seq![entry_line(e)]);
}

#[verifier::spinoff_prover]
#[verifier::rlimit(40)]
proof fn lemma_id_lines_scan(id: Seq<char>)
    requires
        name_ok(id),
    ensures
        lines_scan(seq![tab1() + kv("id"@, id), Seq::<char>::empty()], 1),
        plain_lines(seq![tab1() + kv("id"@, id), Seq::<char>::empty()]),
{
    assert(word("id"@)) by {
        reveal_strlit("id");
    }
    let e = (tab1(), "id"@, id);
    assert(all_ws(tab1()) && no_newline(tab1())) by {
        assert(tab1()[0] == '\t');
    }
    assert(entry_ok(e));
    assert(flat_value(id));
    lemma_entry_line_alone(e);
    lemma_empty_line_scan(1);
    lemma_empty_plain();
    let l = entry_line(e);
    lemma_lines_scan_concat(seq![l], seq![Seq::<char>::empty()], 1);
    lemma_plain_concat(seq![l], seq![Seq::<char>::empty()]);
    assert(seq![l] + seq![Seq::<char>::empty()] =~= seq![l, Seq::<char>::empty()]);
}

proof fn lemma_sep_scan(b: bool)
    ensures
        lines_scan(
            if b {
                seq![Seq::<char>::empty()]
            } else {
                Seq::<Seq<char>>::empty()
            },
            1,
        ),
        plain_lines(
            if b {
                seq![Seq::<char>::empty()]
            } else {
                Seq::<Seq<char>>::empty()
            },
        ),
{
    if b {
        lemma_empty_line_scan(1);
        lemma_empty_plain();
    } else {
        assert(unlines(Seq::<Seq<char>>::empty()) =~= Seq::<char>::empty());
        assert(scan_ok(Seq::<char>::empty(), 1));
    }
}

/// Scanning the inside of a written tree.
#[verifier::spinoff_prover]
#[verifier::rlimit(60)]
proof fn lemma_body_scan(t: TreeView)
    requires
        tree_ok(t),
    ensures
        lines_scan(tree_body_lines(t), 1),
        plain_lines(tree_body_lines(t)),
{
    let a = seq![tab1() + kv("id"@, t.id), Seq::<char>::empty()];
    let sc = shortcuts_lines(t.shortcuts);
    let sep = if t.shortcuts.len() > 0 {
        seq![Seq::<char>::empty()]
    } else {
        Seq::<Seq<char>>::empty()
    };
    let nl = nodes_lines(t.focuses);
    lemma_id_lines_scan(t.id);
    lemma_shortcuts_scan(t.shortcuts, 1);
    lemma_sep_scan(t.shortcuts.len() > 0);
    lemma_nodes_scan(t.focuses, 1);
    lemma_lines_scan_concat(a, sc, 1);
    lemma_plain_concat(a, sc);
    lemma_lines_scan_concat(a + sc, sep, 1);
    lemma_plain_concat(a + sc, sep);
    lemma_lines_scan_concat(a + sc + sep, nl, 1);
    lemma_plain_concat(a + sc + sep, nl);
    assert(tree_body_lines(t) == a + sc + sep + nl);
}

// ------------------------------------------------------------------------
// Reading a written tree
// ------------------------------------------------------------------------

/// No line opens a focus block.
pub open spec fn quiet(ls: Seq<Seq<char>>) -> bool {
    forall|k: int| 0 <= k < ls.len() ==> !opens_focus(#[trigger] ls[k])
}

proof fn lemma_quiet_concat(a: Seq<Seq<char>>, b: Seq<Seq<char>>)
    requires
        quiet(a),
        quiet(b),
    ensures
        quiet(a + b),
{
    assert forall|k: int| 0 <= k < (a + b).len() implies !opens_focus(#[trigger] (a + b)[k]) by {
        if k < a.len() {
            assert((a + b)[k] == a[k]);
        } else {
            assert((a + b)[k] == b[k - a.len()]);
        }
    }
}

proof fn lemma_focus_lits()
    ensures
        "focus ="@ == "focus"@ + seq![' ', '='],
        "focus="@ == "focus"@ + seq!['='],
        "focus"@.len() == 5,
{
    reveal_strlit("focus =");
    reveal_strlit("focus=");
    reveal_strlit("focus");
    assert("focus ="@ =~= "focus"@ + seq![' ', '=']);
    assert("focus="@ =~= "focus"@ + seq!['=']);
}

/// An entry line with another key than `focus` opens no focus block.
proof fn lemma_quiet_entry(e: Entry)
    requires
        entry_ok(e),
        e.1 != "focus"@,
    ensures
        !opens_focus(entry_line(e)),
{
    lemma_focus_lits();
    lemma_focus_word();
    lemma_trim_kv(e.0, e.1, e.2);
    lemma_has_key_kv(e.1, e.2, "focus"@);
}

proof fn lemma_quiet_short(l: Seq<char>)
    requires
        trim(l).len() <= 1,
    ensures
        !opens_focus(l),
{
    lemma_focus_lits();
}

proof fn lemma_quiet_empty()
    ensures
        quiet(seq![Seq::<char>::empty()]),
{
    let e = Seq::<char>::empty();
    assert(trim(e) =~= e);
    lemma_quiet_short(e);
    assert(seq![e][0] == e);
}

#[verifier::spinoff_prover]
#[verifier::rlimit(40)]
proof fn lemma_quiet_shortcuts(ss: Seq<(Seq<char>, Seq<char>)>)
    requires
        forall|i: int| 0 <= i < ss.len() ==> shortcut_ok(#[trigger] ss[i]),
    ensures
        quiet(shortcuts_lines(ss)),
    decreases ss.len(),
{
    if ss.len() > 0 {
        let init = ss.drop_last();
        assert forall|i: int| 0 <= i < init.len() implies shortcut_ok(#[trigger] init[i]) by {
            assert(init[i] == ss[i]);
        }
        lemma_quiet_shortcuts(init);
        let sc = ss.last();
        assert(shortcut_ok(ss[ss.len() - 1]));
        lemma_shortcut_entries_ok(sc);
        reveal_strlit("shortcut");
        reveal_strlit("name");
        reveal_strlit("target");
        reveal_strlit("scroll_wheel_factor");
        reveal_strlit("focus");
        let es = shortcut_entries(sc);
        let ls = shortcut_lines(sc);
        lemma_close_line();
        assert(quiet(ls)) by {
            assert forall|k: int| 0 <= k < ls.len() implies !opens_focus(#[trigger] ls[k]) by {
                if k < 4 {
                    assert(ls[k] == entry_line(es[k]));
                    assert(entry_ok(es[k]));
                    lemma_quiet_entry(es[k]);
                } else {
                    assert(ls[k] == close_line());
                    lemma_quiet_short(close_line());
                }
            }
        }
        lemma_quiet_concat(shortcuts_lines(init), ls);
    }
}

proof fn lemma_skip_quiet(ls: Seq<Seq<char>>, i: int, j: int)
    requires
        0 <= i <= j <= ls.len(),
        forall|k: int| i <= k < j ==> !opens_focus(#[trigger] ls[k]),
    ensures
        focus_blocks(ls, i) == focus_blocks(ls, j),
    decreases j - i,
{
    if i < j {
        lemma_skip_quiet(ls, i + 1, j);
    }
}

/// Focuses as they read back once written (see [`reread_node`]).
pub open spec fn reread_nodes(ns: Seq<NodeView>) -> Seq<NodeView> {
    ns.map_values(|n: NodeView| reread_node(n))
}

/// The blocks of written focuses.
pub open spec fn node_blocks(ns: Seq<NodeView>) -> Seq<Seq<char>> {
    ns.map_values(|n: NodeView| node_block(n))
}

#[verifier::spinoff_prover]
#[verifier::rlimit(80)]
proof fn lemma_focus_blocks_nodes(ls: Seq<Seq<char>>, k: int, ns: Seq<NodeView>)
    requires
        forall|i: int| 0 <= i < ns.len() ==> node_ok(#[trigger] ns[i]),
        0 <= k,
        k + nodes_lines(ns).len() <= ls.len(),
        ls.subrange(k, k + nodes_lines(ns).len()) == nodes_lines(ns),
    ensures
        focus_blocks(ls, k) == node_blocks(ns) + focus_blocks(ls, k + nodes_lines(ns).len()),
    decreases ns.len(),
{
    if ns.len() == 0 {
        assert(node_blocks(ns) =~= Seq::<Seq<char>>::empty());
        assert(node_blocks(ns) + focus_blocks(ls, k) =~= focus_blocks(ls, k));
    } else if ns.len() == 1 {
        assert(node_ok(ns[0]));
        lemma_focus_blocks_node(ls, k, ns[0]);
        assert(node_blocks(ns) =~= seq![node_block(ns[0])]);
    } else {
        let init = ns.drop_last();
        let last = ns.last();
        assert forall|i: int| 0 <= i < init.len() implies node_ok(#[trigger] init[i]) by {
            assert(init[i] == ns[i]);
        }
        assert(node_ok(ns[ns.len() - 1]));
        let a = nodes_lines(init);
        let m = node_lines(last);
        let e = Seq::<char>::empty();
        let nl = nodes_lines(ns);
        assert(nl == a + seq![e] + m);
        assert(ls.subrange(k, k + a.len()) =~= a) by {
            assert forall|t: int| 0 <= t < a.len() implies #[trigger] ls.subrange(k, k + a.len())[t]
                == a[t] by {
                assert(ls.subrange(k, k + nl.len())[t] == nl[t]);
            }
        }
        lemma_focus_blocks_nodes(ls, k, init);
        let k1 = k + a.len();
        assert(ls[k1] == nl[a.len() as int]);
        assert(ls[k1] == e);
        lemma_quiet_empty();
        assert(!opens_focus(ls[k1]));
        let k2 = k1 + 1;
        assert(ls.subrange(k2, k2 + m.len()) =~= m) by {
            assert forall|t: int| 0 <= t < m.len() implies #[trigger] ls.subrange(k2, k2 + m.len())[t]
                == m[t] by {
                assert(ls.subrange(k, k + nl.len())[a.len() + 1 + t] == nl[a.len() + 1 + t]);
            }
        }
        lemma_focus_blocks_node(ls, k2, last);
        assert(node_blocks(ns) =~= node_blocks(init) + seq![node_block(last)]);
    }
}

proof fn lemma_focuses_of_blocks(ns: Seq<NodeView>)
    requires
        forall|i: int| 0 <= i < ns.len() ==> node_ok(#[trigger] ns[i]),
    ensures
        focuses_of(node_blocks(ns)) == reread_nodes(ns),
    decreases ns.len(),
{
    if ns.len() > 0 {
        let rest = ns.drop_first();
        assert forall|i: int| 0 <= i < rest.len() implies node_ok(#[trigger] rest[i]) by {
            assert(rest[i] == ns[i + 1]);
        }
        lemma_focuses_of_blocks(rest);
        assert(node_ok(ns[0]));
        lemma_node_block(ns[0]);
        let bs = node_blocks(ns);
        assert(bs[0] == node_block(ns[0]));
        assert(bs.drop_first() =~= node_blocks(rest));
        assert(reread_nodes(rest) =~= reread_nodes(ns).drop_first());
        assert(focuses_of(bs) =~= seq![reread_node(ns[0])] + reread_nodes(rest));
        assert(seq![reread_node(ns[0])] + reread_nodes(rest) =~= reread_nodes(ns));
    } else {
        assert(node_blocks(ns) =~= Seq::<Seq<char>>::empty());
        assert(reread_nodes(ns) =~= Seq::<NodeView>::empty());
    }
}

/// The written text of a tree around its inside.
#[verifier::spinoff_prover]
#[verifier::rlimit(60)]
proof fn lemma_tree_layout(t: TreeView)
    requires
        tree_ok(t),
    ensures
        replace_crlf(tree_text(t)) == tree_text(t),
        tree_text(t) == "focus_tree = {"@ + seq!['\n'] + unlines(tree_body_lines(t)) + seq![
            '}',
            '\n',
        ],
{
    lemma_tree_text(t);
    lemma_body_scan(t);
    let l0 = "focus_tree = {"@;
    let body = tree_body_lines(t);
    let last = seq!['}'];
    let tl = tree_lines(t);
    assert(plain_line(l0)) by {
        reveal_strlit("focus_tree = {");
    }
    assert(plain_line(last));
    assert(plain_lines(seq![l0])) by {
        assert(seq![l0][0] == l0);
    }
    assert(plain_lines(seq![last])) by {
        assert(seq![last][0] == last);
    }
    lemma_plain_concat(seq![l0], body);
    lemma_plain_concat(seq![l0] + body, seq![last]);
    lemma_crlf_unlines(tl);
    lemma_unlines_cons(l0, body + seq![last]);
    assert(tl =~= seq![l0] + (body + seq![last]));
    lemma_unlines_concat(body, seq![last]);
    lemma_unlines_one(last);
    assert(tree_text(t) =~= l0 + seq!['\n'] + unlines(body) + seq!['}', '\n']);
}

/// The first `focus_tree` of a written tree is at its start, and its `{` at 13.
proof fn lemma_tree_find(c: Seq<char>, rest: Seq<char>)
    requires
        c == "focus_tree = {"@ + rest,
    ensures
        tree_brace(c) == Ok::<int, crate::parser::ParseError>(13),
{
    reveal_strlit("focus_tree = {");
    reveal_strlit("focus_tree");
    let l0 = "focus_tree = {"@;
    let pat = "focus_tree"@;
    assert(c.subrange(0, 10) =~= pat);
    lemma_find_seq_at(c, pat, 0);
    assert(c.skip(0) =~= c);
    assert(c[13] == '{');
    assert forall|j: int| 0 <= j < 13 implies c[j] != '{' by {
        assert(c[j] == l0[j]);
    }
    lemma_find_char_at(c, '{', 13);
}

/// The brace block of a written tree is its inside.
#[verifier::spinoff_prover]
#[verifier::rlimit(60)]
proof fn lemma_tree_block(c: Seq<char>, ub: Seq<char>)
    requires
        c == "focus_tree = {"@ + seq!['\n'] + ub + seq!['}', '\n'],
        tscan(ub, 1),
        brace_balance(ub) == 0,
    ensures
        brace_block(c, 13) == seq!['\n'] + ub,
        brace_end(c, 14, 1) == c.len() - 1,
        brace_closes(c, 13),
{
    reveal_strlit("focus_tree = {");
    let seg = seq!['\n'] + ub;
    assert(brace_free(seq!['\n'])) by {
        assert(seq!['\n'][0] == '\n');
    }
    lemma_brace_free(seq!['\n'], 1);
    lemma_scan_tscan(seq!['\n'], 1);
    lemma_brace_free_balance(seq!['\n']);
    lemma_tscan_concat(seq!['\n'], ub, 1);
    lemma_balance_concat(seq!['\n'], ub);
    assert(c.subrange(14, 14 + seg.len() as int) =~= seg);
    lemma_brace_end_tseg(c, 14, 1, seg);
    let p = 14 + seg.len() as int;
    assert(c[p] == '}');
    assert(brace_scan(c, p, 1) == brace_scan(c, p + 1, 0));
    assert(brace_scan(c, p + 1, 0) == (p + 1, 0int));
    assert(c.subrange(14, p) =~= seg);
}

/// Where the tree's braces stand in its written text.
proof fn lemma_tree_inner(t: TreeView)
    requires
        tree_ok(t),
    ensures
        replace_crlf(tree_text(t)) == tree_text(t),
        tree_brace(tree_text(t)) == Ok::<int, crate::parser::ParseError>(13),
        brace_block(tree_text(t), 13) == unlines(seq![Seq::<char>::empty()] + tree_body_lines(t)),
        brace_end(tree_text(t), 14, 1) == tree_text(t).len() - 1,
        brace_closes(tree_text(t), 13),
        tscan(unlines(tree_body_lines(t)), 1),
{
    lemma_tree_layout(t);
    lemma_body_scan(t);
    let ub = unlines(tree_body_lines(t));
    let c = tree_text(t);
    assert(c =~= "focus_tree = {"@ + (seq!['\n'] + ub + seq!['}', '\n']));
    lemma_tree_find(c, seq!['\n'] + ub + seq!['}', '\n']);
    lemma_tree_block(c, ub);
    lemma_unlines_cons(Seq::<char>::empty(), tree_body_lines(t));
    assert(Seq::<char>::empty() + seq!['\n'] =~= seq!['\n']);
}

/// What the inside of a written tree gives: its id and its focuses.
#[verifier::spinoff_prover]
#[verifier::rlimit(40)]
proof fn lemma_inner_reads(t: TreeView)
    requires
        tree_ok(t),
    ensures
        lines(unlines(seq![Seq::<char>::empty()] + tree_body_lines(t))) == seq![
            Seq::<char>::empty(),
        ] + tree_body_lines(t),
        first_value(seq![Seq::<char>::empty()] + tree_body_lines(t), "id"@) == Some(t.id),
        focuses_of(focus_blocks(seq![Seq::<char>::empty()] + tree_body_lines(t), 0)) == reread_nodes(
            t.focuses,
        ),
        focus_blocks(seq![Seq::<char>::empty()] + tree_body_lines(t), 0) == node_blocks(t.focuses),
{
    reveal_strlit("id");
    let e = Seq::<char>::empty();
    let body = tree_body_lines(t);
    let il = seq![e] + body;
    lemma_body_scan(t);
    lemma_empty_plain();
    lemma_plain_concat(seq![e], body);
    lemma_lines_unlines(il, Seq::empty());
    assert(unlines(il) + Seq::<char>::empty() =~= unlines(il));
    assert(il + lines(Seq::<char>::empty()) =~= il);
    // The id line.
    let idl = tab1() + kv("id"@, t.id);
    assert(il[0] == e);
    assert(il[1] == idl);
    assert(trim(e) =~= e);
    assert(line_value(e, "id"@) is None);
    assert(all_ws(tab1())) by {
        assert(tab1()[0] == '\t');
    }
    lemma_name_ok_value(t.id);
    lemma_line_value_kv(tab1(), "id"@, t.id, "id"@);
    assert(il.drop_first()[0] == idl);
    assert(first_value(il.drop_first(), "id"@) == Some(t.id));
    // The focus blocks.
    let sc = shortcuts_lines(t.shortcuts);
    let sep = if t.shortcuts.len() > 0 {
        seq![e]
    } else {
        Seq::<Seq<char>>::empty()
    };
    let nl = nodes_lines(t.focuses);
    let pre = seq![e, idl, e] + sc + sep;
    assert(il =~= pre + nl);
    lemma_quiet_empty();
    let ide = (tab1(), "id"@, t.id);
    assert(entry_ok(ide)) by {
        assert(tab1()[0] == '\t');
    }
    reveal_strlit("focus");
    lemma_quiet_entry(ide);
    let s3 = seq![e, idl, e];
    assert(quiet(s3)) by {
        assert forall|k: int| 0 <= k < 3 implies !opens_focus(#[trigger] s3[k]) by {
            if k == 1 {
                assert(s3[k] == idl);
            } else {
                assert(s3[k] == e);
                assert(seq![e][0] == e);
            }
        }
    }
    lemma_quiet_shortcuts(t.shortcuts);
    lemma_quiet_concat(seq![e, idl, e], sc);
    if t.shortcuts.len() > 0 {
    } else {
        assert(quiet(sep));
    }
    lemma_quiet_concat(seq![e, idl, e] + sc, sep);
    assert forall|k: int| 0 <= k < pre.len() implies !opens_focus(#[trigger] il[k]) by {
        assert(il[k] == pre[k]);
    }
    lemma_skip_quiet(il, 0, pre.len() as int);
    assert(il.subrange(pre.len() as int, pre.len() as int + nl.len() as int) =~= nl);
    lemma_focus_blocks_nodes(il, pre.len() as int, t.focuses);
    assert(pre.len() + nl.len() == il.len());
    assert(focus_blocks(il, il.len() as int) == Seq::<Seq<char>>::empty());
    assert(node_blocks(t.focuses) + Seq::<Seq<char>>::empty() =~= node_blocks(t.focuses));
    lemma_focuses_of_blocks(t.focuses);
}

/// Reading a written tree succeeds and gives back its id, its focuses, each as
/// [`reread_node`] gives it (every field unchanged but the raw blocks, which
/// read back as [`raw_reread`](crate::rawblock::raw_reread) gives them), and,
/// when no raw block holds `shortcut = {`, its shortcuts; when its texts can
/// be written and read back (see [`tree_ok`]).
pub proof fn lemma_tree_roundtrip(t: TreeView)
    requires
        tree_ok(t),
    ensures
        parse_tree(tree_text(t)) matches Ok(r) && r.id == t.id && r.focuses == reread_nodes(t.focuses)
            && !r.modified && ((forall|i: int|
            0 <= i < t.focuses.len() ==> raws_pf(#[trigger] t.focuses[i])) ==> r.shortcuts
            == t.shortcuts),
{
    lemma_tree_reads_ok(t);
    lemma_tree_inner(t);
    lemma_inner_reads(t);
    let c = tree_text(t);
    let inner = brace_block(c, 13);
    assert(focuses_in(inner) == reread_nodes(t.focuses));
    assert(crate::parser::simple_string(inner, "id"@) == Some(t.id));
    if forall|i: int| 0 <= i < t.focuses.len() ==> raws_pf(#[trigger] t.focuses[i]) {
        lemma_tree_shortcuts(t);
    }
}

// ------------------------------------------------------------------------
// Reading a written tree takes only slices that exist
// ------------------------------------------------------------------------

pub open spec fn lists_ok(es: Seq<Entry>, bk: Seq<char>) -> bool {
    forall|i: int|
        0 <= i < es.len() && (#[trigger] es[i]).1 == bk ==> list_line_ok(entry_line(es[i]), bk)
}

proof fn lemma_lists_ok_concat(a: Seq<Entry>, b: Seq<Entry>, bk: Seq<char>)
    requires
        lists_ok(a, bk),
        lists_ok(b, bk),
    ensures
        lists_ok(a + b, bk),
{
    assert forall|i: int| 0 <= i < (a + b).len() && (#[trigger] (a + b)[i]).1 == bk implies list_line_ok(
        entry_line((a + b)[i]),
        bk,
    ) by {
        if i < a.len() {
            assert((a + b)[i] == a[i]);
        } else {
            assert((a + b)[i] == b[i - a.len()]);
        }
    }
}

proof fn lemma_lists_ok_list(bk: Seq<char>, key: Seq<char>, ps: Seq<Seq<char>>)
    requires
        word(bk),
        forall|i: int| 0 <= i < ps.len() ==> text_ok(#[trigger] ps[i]),
    ensures
        lists_ok(list_entries(tab2(), bk, ps), key),
{
    lemma_focus_word();
    let es = list_entries(tab2(), bk, ps);
    assert forall|i: int| 0 <= i < es.len() && (#[trigger] es[i]).1 == key implies list_line_ok(
        entry_line(es[i]),
        key,
    ) by {
        let p = ps[i];
        assert(text_ok(p));
        let lv = list_value(p);
        assert(es[i] == (tab2(), bk, lv));
        let t = kv(bk, lv);
        assert(all_ws(tab2())) by {
            assert(tab2()[0] == '\t' && tab2()[1] == '\t');
        }
        lemma_trim_kv(tab2(), bk, lv);
        let o = bk.len() as int + 3;
        assert(t[o] == '{');
        assert forall|j: int| 0 <= j < o implies t[j] != '{' by {
            if j < bk.len() {
                assert(t[j] == bk[j] && is_word_char(bk[j]));
            }
        }
        lemma_find_char_at(t, '{', o);
        crate::text::lemma_find_char(t, '}');
        assert(t[t.len() - 1] == '}');
        assert forall|j: int| 0 <= j <= o implies t[j] != '}' by {
            if j < bk.len() {
                assert(t[j] == bk[j] && is_word_char(bk[j]));
            }
        }
    }
}

proof fn lemma_lists_ok_none(es: Seq<Entry>, bk: Seq<char>)
    requires
        no_kw(es, bk),
    ensures
        lists_ok(es, bk),
{
}

proof fn lemma_list_field_ok_entries(es: Seq<Entry>, rest: Seq<Seq<char>>, bk: Seq<char>)
    requires
        entries_ok(es),
        word(bk),
        bk == "prerequisite"@ || bk == "mutually_exclusive"@,
        lists_ok(es, bk),
        inert(rest),
    ensures
        list_field_ok(entry_lines(es) + rest, bk),
{
    let ls = entry_lines(es) + rest;
    assert forall|i: int| 0 <= i < ls.len() implies list_line_ok(#[trigger] ls[i], bk) by {
        if i < es.len() {
            let e = es[i];
            assert(ls[i] == entry_line(e));
            assert(entry_ok(e));
            lemma_trim_kv(e.0, e.1, e.2);
            lemma_has_key_kv(e.1, e.2, bk);
        } else {
            assert(ls[i] == rest[i - es.len()]);
            assert(quiet_line(trim(rest[i - es.len()])));
        }
    }
}

proof fn lemma_filters_ok_skip(es: Seq<Entry>, rest: Seq<Seq<char>>)
    requires
        entries_ok(es),
        forall|i: int| 0 <= i < es.len() ==> !starts_with((#[trigger] es[i]).1, "search_filters"@),
    ensures
        search_filters_ok(entry_lines(es) + rest) == search_filters_ok(rest),
    decreases es.len(),
{
    lemma_search_filters_word();
    let sf = "search_filters"@;
    if es.len() == 0 {
        assert(entry_lines(es) + rest =~= rest);
    } else {
        lemma_entries_drop_first(es);
        let e = es[0];
        assert(entry_ok(e));
        lemma_trim_kv(e.0, e.1, e.2);
        let t = kv(e.1, e.2);
        assert(!starts_with(e.1, sf));
        if starts_with(t, sf) {
            if sf.len() <= e.1.len() {
                assert(e.1.take(14) =~= t.take(14));
            } else {
                assert(t[e.1.len() as int] == ' ');
                assert(t.take(14)[e.1.len() as int] == t[e.1.len() as int]);
                assert(is_word_char(sf[e.1.len() as int]));
            }
        }
        let ls = entry_lines(es) + rest;
        assert(ls[0] == entry_line(e));
        assert(ls.drop_first() =~= entry_lines(es.drop_first()) + rest);
        assert forall|i: int| 0 <= i < es.drop_first().len() implies !starts_with(
            (#[trigger] es.drop_first()[i]).1,
            sf,
        ) by {
            assert(es.drop_first()[i] == es[i + 1]);
        }
        lemma_filters_ok_skip(es.drop_first(), rest);
    }
}

proof fn lemma_inert_filters_ok(ls: Seq<Seq<char>>)
    requires
        inert(ls),
    ensures
        search_filters_ok(ls),
    decreases ls.len(),
{
    lemma_search_filters_word();
    if ls.len() > 0 {
        lemma_inert_drop_first(ls);
        assert(!starts_with(trim(ls[0]), "search_filters"@));
        lemma_inert_filters_ok(ls.drop_first());
    }
}

#[verifier::spinoff_prover]
#[verifier::rlimit(40)]
proof fn lemma_node_filters_ok(n: NodeView, rest: Seq<Seq<char>>)
    requires
        node_ok(n),
        inert(rest),
    ensures
        search_filters_ok(entry_lines(node_entries(n)) + rest),
{
    broadcast use lemma_entry_lines_concat, lemma_no_filter_kw_concat, lemma_no_filter_kw_list;

    lemma_keywords();
    reveal_strlit("focus");
    reveal_strlit("id");
    reveal_strlit("icon");
    reveal_strlit("x");
    reveal_strlit("y");
    reveal_strlit("relative_position_id");
    reveal_strlit("cost");
    reveal_strlit("prerequisite");
    reveal_strlit("mutually_exclusive");
    reveal_strlit("bypass_if_unavailable");
    reveal_strlit("search_filters");
    lemma_node_entries_ok(n);
    let sf = "search_filters"@;
    assert(!starts_with("relative_position_id"@, sf)) by {
        assert("relative_position_id"@.take(14)[0] != sf[0]);
    }
    assert(!starts_with("mutually_exclusive"@, sf)) by {
        assert("mutually_exclusive"@.take(14)[0] != sf[0]);
    }
    assert(!starts_with("bypass_if_unavailable"@, sf)) by {
        assert("bypass_if_unavailable"@.take(14)[0] != sf[0]);
    }
    let pre = node_prefix(n);
    let fe = filters_entry(n.search_filters);
    assert(no_filter_kw(pre));
    assert(entry_lines(node_entries(n)) + rest =~= entry_lines(pre) + (entry_lines(fe) + rest));
    lemma_filters_ok_skip(pre, entry_lines(fe) + rest);
    if n.search_filters.len() > 0 {
        let fs = n.search_filters;
        let t = kv(sf, filters_value(fs));
        let ls = seq![tab2() + t] + rest;
        assert(entry_lines(fe) =~= seq![tab2() + t]);
        assert(all_ws(tab2())) by {
            assert(tab2()[0] == '\t' && tab2()[1] == '\t');
        }
        lemma_trim_kv(tab2(), sf, filters_value(fs));
        assert(ls[0] == tab2() + t);
        assert(t[17] == '{');
        assert(t.take(14) =~= sf);
        assert(is_filter_line(t));
        assert forall|j: int| 0 <= j < 17 implies t[j] != '{' by {
            if j < 14 {
                assert(t[j] == sf[j] && is_word_char(sf[j]));
            }
        }
        lemma_find_char_at(t, '{', 17);
        crate::text::lemma_find_char(t, '}');
        assert(t[t.len() - 1] == '}');
        assert forall|j: int| 0 <= j <= 17 implies t[j] != '}' by {
            if j < 14 {
                assert(t[j] == sf[j] && is_word_char(sf[j]));
            }
        }
        assert(filter_line_ok(t));
    } else {
        assert(entry_lines(fe) + rest =~= rest);
        lemma_inert_filters_ok(rest);
    }
}

#[verifier::spinoff_prover]
#[verifier::rlimit(40)]
proof fn lemma_node_lists_ok(n: NodeView, rest: Seq<Seq<char>>, bk: Seq<char>)
    requires
        node_ok(n),
        inert(rest),
        bk == "prerequisite"@ || bk == "mutually_exclusive"@,
    ensures
        list_field_ok(entry_lines(node_entries(n)) + rest, bk),
{
    lemma_keywords();
    reveal_strlit("focus");
    reveal_strlit("id");
    reveal_strlit("icon");
    reveal_strlit("x");
    reveal_strlit("y");
    reveal_strlit("relative_position_id");
    reveal_strlit("cost");
    reveal_strlit("prerequisite");
    reveal_strlit("mutually_exclusive");
    reveal_strlit("bypass_if_unavailable");
    reveal_strlit("search_filters");
    lemma_node_parts(n);
    lemma_node_entries_ok(n);
    let h = node_head_entries(n);
    let l1 = list_entries(tab2(), "prerequisite"@, n.prerequisites);
    let l2 = list_entries(tab2(), "mutually_exclusive"@, n.mutually_exclusive);
    let t = node_tail_entries(n);
    lemma_no_kw_head(n, bk);
    lemma_no_kw_tail(n, bk);
    lemma_lists_ok_none(h, bk);
    lemma_lists_ok_none(t, bk);
    lemma_lists_ok_list("prerequisite"@, bk, n.prerequisites);
    lemma_lists_ok_list("mutually_exclusive"@, bk, n.mutually_exclusive);
    lemma_lists_ok_concat(h, l1, bk);
    lemma_lists_ok_concat(h + l1, l2, bk);
    lemma_lists_ok_concat(h + l1 + l2, t, bk);
    lemma_list_field_ok_entries(node_entries(n), rest, bk);
}

/// Reading the block of a written focus takes only slices that exist.
pub proof fn lemma_node_block_ok(n: NodeView)
    requires
        node_ok(n),
    ensures
        single_focus_ok(node_block(n)),
{
    reveal_strlit("prerequisite");
    reveal_strlit("mutually_exclusive");
    lemma_node_block_lines(n);
    let rest = raws_lines(n) + seq![seq!['\t']];
    assert(trim(seq!['\t']).len() == 0) by {
        assert(all_ws(seq!['\t'])) by {
            assert(seq!['\t'][0] == '\t');
        }
        lemma_trim_start_ws(seq!['\t'], Seq::empty());
        assert(seq!['\t'] + Seq::<char>::empty() =~= seq!['\t']);
    }
    assert(seq![seq!['\t']][0] == seq!['\t']);
    lemma_raws_reads(n, seq![seq!['\t']]);
    lemma_node_lists_ok(n, rest, "prerequisite"@);
    lemma_node_lists_ok(n, rest, "mutually_exclusive"@);
    lemma_node_filters_ok(n, rest);
    lemma_node_raws(node_block(n), n, rest);
}

proof fn lemma_blocks_ok_nodes(ns: Seq<NodeView>)
    requires
        forall|i: int| 0 <= i < ns.len() ==> node_ok(#[trigger] ns[i]),
    ensures
        blocks_ok(node_blocks(ns)),
    decreases ns.len(),
{
    if ns.len() > 0 {
        let rest = ns.drop_first();
        assert forall|i: int| 0 <= i < rest.len() implies node_ok(#[trigger] rest[i]) by {
            assert(rest[i] == ns[i + 1]);
        }
        lemma_blocks_ok_nodes(rest);
        assert(node_ok(ns[0]));
        lemma_node_block_ok(ns[0]);
        let bs = node_blocks(ns);
        assert(bs[0] == node_block(ns[0]));
        assert(bs.drop_first() =~= node_blocks(rest));
    }
}

/// Reading a written tree finds its block closed and its focus blocks well
/// formed.
#[verifier::spinoff_prover]
#[verifier::rlimit(80)]
pub proof fn lemma_tree_reads_ok(t: TreeView)
    requires
        tree_ok(t),
    ensures
        brace_closes(tree_text(t), 13),
        focuses_ok(brace_block(tree_text(t), 13)),
{
    lemma_tree_inner(t);
    lemma_tree_layout(t);
    lemma_inner_reads(t);
    let c = tree_text(t);
    let ub = unlines(tree_body_lines(t));
    let il = seq![Seq::<char>::empty()] + tree_body_lines(t);
    let inner = brace_block(c, 13);
    reveal_strlit("focus_tree = {");
    lemma_unlines_cons(Seq::<char>::empty(), tree_body_lines(t));
    assert(inner =~= seq!['\n'] + ub);
    lemma_blocks_ok_nodes(t.focuses);
    assert(lines(inner) == il);
}

} // verus!
