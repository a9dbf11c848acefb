//! Where reading finds the shortcuts of a written tree: the text
//! `shortcut = {` stands only on the lines that open the written shortcuts.
use vstd::prelude::*;
use crate::parser::{
    brace_block, brace_closes, brace_end, brace_scan, first_value, line_value, or_empty, shortcut_pattern, shortcuts_from,
    simple_string,
};
use crate::roundtrip::{
    shortcut_entries, shortcut_lines, shortcut_ok, shortcuts_lines, tab1, nodes_lines,
    lemma_shortcut_entries_ok, lemma_flat_scan, lemma_lines_unlines, lemma_lines_single,
    lemma_first_value_entries, lemma_name_ok_value, lemma_unlines_cons, lemma_unlines_concat,
    lemma_unlines_one, lemma_node_lines, lemma_plain_concat, lemma_empty_plain, brace_balance,
    lemma_balance_concat, brace_free, lemma_brace_free, lemma_brace_free_balance,
};
use crate::tokscan::{lemma_brace_end_tseg, lemma_scan_tscan, lemma_tscan_concat, tscan};
use crate::model::NodeView;
use crate::rawblock::{
    inner_line, inner_lines, lemma_inner_lines_plain, lemma_raw_key, opt_block_lines,
    raw_block_lines, raw_close, raw_key, raw_ok, raw_open, raw_pieces, raws_lines, raws_ok, tab3,
};
use crate::roundtrip::{
    node_ok, node_entries, node_prefix, head_entry, single, opt_entry, cost_entry, flag_entry,
    list_entries, filters_entry, list_value, filters_value, kv, tab2, text_ok, filters_ok,
    Entry, close_line, entries_ok, entry_line, entry_ok, is_word_char, lemma_entry_lines_plain,
    plain_line, plain_lines, unlines, word,
};
use crate::text::{lines, trim};
use crate::text::{find_seq, lemma_find_seq, lemma_find_seq_at, lemma_find_seq_none, occurs_at};

verus! {

/// The text `shortcut = {` occurs nowhere in `l`.
pub open spec fn pat_free(l: Seq<char>) -> bool {
    forall|j: int| !occurs_at(l, shortcut_pattern(), j)
}

/// No line holds `shortcut = {` or a line break.
pub open spec fn lines_pat_free(ls: Seq<Seq<char>>) -> bool {
    forall|i: int|
        0 <= i < ls.len() ==> pat_free(#[trigger] ls[i]) && forall|k: int|
            0 <= k < ls[i].len() ==> ls[i][k] != '\n'
}

pub proof fn lemma_pattern()
    ensures
        shortcut_pattern().len() == 12,
        shortcut_pattern()[0] == 's',
        shortcut_pattern()[7] == 't',
        shortcut_pattern()[11] == '{',
        forall|k: int| 0 <= k < 12 ==> #[trigger] shortcut_pattern()[k] != '\n',
{
    reveal_strlit("shortcut = {");
}

/// A text without `{` holds no `shortcut = {`.
pub proof fn lemma_no_open_free(l: Seq<char>)
    requires
        forall|k: int| 0 <= k < l.len() ==> #[trigger] l[k] != '{',
    ensures
        pat_free(l),
{
    lemma_pattern();
    let p = shortcut_pattern();
    assert forall|j: int| !occurs_at(l, p, j) by {
        if occurs_at(l, p, j) {
            assert(l.subrange(j, j + 12)[11] == l[j + 11]);
        }
    }
}

/// An occurrence in `a + b` that starts in `b` is one in `b`.
proof fn lemma_occurs_right(a: Seq<char>, b: Seq<char>, j: int)
    requires
        j >= a.len(),
    ensures
        occurs_at(a + b, shortcut_pattern(), j) == occurs_at(b, shortcut_pattern(), j - a.len()),
{
    lemma_pattern();
    let p = shortcut_pattern();
    if j + 12 <= (a + b).len() {
        assert((a + b).subrange(j, j + 12) =~= b.subrange(j - a.len(), j - a.len() + 12));
    }
}

/// The first `shortcut = {` after a line that holds none is found after it.
pub proof fn lemma_find_skip_line(l: Seq<char>, rest: Seq<char>)
    requires
        pat_free(l),
        forall|k: int| 0 <= k < l.len() ==> #[trigger] l[k] != '\n',
    ensures
        find_seq(l + seq!['\n'] + rest, shortcut_pattern()) == match find_seq(
            rest,
            shortcut_pattern(),
        ) {
            Some(i) => Some(i + l.len() + 1),
            None => None::<int>,
        },
{
    lemma_pattern();
    let p = shortcut_pattern();
    let a = l + seq!['\n'];
    let s = a + rest;
    assert(l + seq!['\n'] + rest == s);
    assert forall|j: int| 0 <= j < a.len() implies !occurs_at(s, p, j) by {
        if occurs_at(s, p, j) {
            if j + 12 <= l.len() {
                assert(l.subrange(j, j + 12) =~= s.subrange(j, j + 12));
                assert(occurs_at(l, p, j));
            } else {
                let k = l.len() - j;
                assert(s[l.len() as int] == '\n');
                assert(s.subrange(j, j + 12)[k] == s[l.len() as int]);
                assert(p[k] != '\n');
            }
        }
    }
    assert forall|j: int| j >= a.len() implies occurs_at(s, p, j) == occurs_at(rest, p, j - a.len())
        by {
        lemma_occurs_right(a, rest, j);
    }
    lemma_find_seq(rest, p);
    match find_seq(rest, p) {
        Some(i) => {
            assert(occurs_at(s, p, i + a.len()));
            assert forall|j: int| 0 <= j < i + a.len() implies !occurs_at(s, p, j) by {
                if j >= a.len() {
                    assert(!occurs_at(rest, p, j - a.len()));
                }
            }
            lemma_find_seq_at(s, p, i + a.len());
        },
        None => {
            assert forall|j: int| !occurs_at(s, p, j) by {
                if j >= a.len() {
                    assert(!occurs_at(rest, p, j - a.len()));
                } else if j < 0 {
                }
            }
            lemma_find_seq_none(s, p);
        },
    }
}

/// Lines that hold no `shortcut = {` are passed over.
pub proof fn lemma_find_skip_lines(q: Seq<Seq<char>>, rest: Seq<char>)
    requires
        lines_pat_free(q),
    ensures
        find_seq(unlines(q) + rest, shortcut_pattern()) == match find_seq(
            rest,
            shortcut_pattern(),
        ) {
            Some(i) => Some(i + unlines(q).len()),
            None => None::<int>,
        },
    decreases q.len(),
{
    if q.len() == 0 {
        assert(unlines(q) + rest =~= rest);
    } else {
        let l = q[0];
        let tail = q.drop_first();
        assert(lines_pat_free(tail)) by {
            assert forall|i: int| 0 <= i < tail.len() implies pat_free(#[trigger] tail[i]) && forall|
                k: int,
            | 0 <= k < tail[i].len() ==> tail[i][k] != '\n' by {
                assert(tail[i] == q[i + 1]);
            }
        }
        lemma_find_skip_lines(tail, rest);
        assert(pat_free(q[0]));
        assert forall|k: int| 0 <= k < l.len() implies #[trigger] l[k] != '\n' by {
            assert(q[0][k] != '\n');
        }
        assert(unlines(q) + rest =~= l + seq!['\n'] + (unlines(tail) + rest));
        lemma_find_skip_line(l, unlines(tail) + rest);
    }
}

/// No `shortcut = {` in lines without one.
pub proof fn lemma_lines_none(q: Seq<Seq<char>>)
    requires
        lines_pat_free(q),
    ensures
        find_seq(unlines(q), shortcut_pattern()) is None,
{
    lemma_find_skip_lines(q, Seq::empty());
    assert(unlines(q) + Seq::<char>::empty() =~= unlines(q));
    lemma_pattern();
    assert(find_seq(Seq::<char>::empty(), shortcut_pattern()) is None);
}

pub proof fn lemma_lines_pat_free_concat(a: Seq<Seq<char>>, b: Seq<Seq<char>>)
    requires
        lines_pat_free(a),
        lines_pat_free(b),
    ensures
        lines_pat_free(a + b),
{
    assert forall|i: int| 0 <= i < (a + b).len() implies pat_free(#[trigger] (a + b)[i]) && forall|
        k: int,
    | 0 <= k < (a + b)[i].len() ==> (a + b)[i][k] != '\n' by {
        if i < a.len() {
            assert((a + b)[i] == a[i]);
        } else {
            assert((a + b)[i] == b[i - a.len()]);
        }
    }
}

// ------------------------------------------------------------------------
// Written lines without `shortcut = {`
// ------------------------------------------------------------------------

/// An entry whose line holds no `shortcut = {`: its value holds no `{`, or
/// only a first one, after a key that does not end with `t`.
pub open spec fn entry_pf(e: Entry) -> bool {
    ||| forall|k: int| 0 <= k < e.2.len() ==> #[trigger] e.2[k] != '{'
    ||| {
        &&& e.2.len() > 0
        &&& e.2[0] == '{'
        &&& forall|k: int| 1 <= k < e.2.len() ==> #[trigger] e.2[k] != '{'
        &&& e.1.len() > 0
        &&& e.1.last() != 't'
    }
}

pub open spec fn entries_pf(es: Seq<Entry>) -> bool {
    forall|i: int| 0 <= i < es.len() ==> entry_pf(#[trigger] es[i])
}

pub broadcast proof fn lemma_entries_pf_concat(a: Seq<Entry>, b: Seq<Entry>)
    ensures
        (entries_pf(a) && entries_pf(b)) ==> #[trigger] entries_pf(a + b),
{
    if entries_pf(a) && entries_pf(b) {
        assert forall|i: int| 0 <= i < (a + b).len() implies entry_pf(#[trigger] (a + b)[i]) by {
            if i < a.len() {
                assert((a + b)[i] == a[i]);
            } else {
                assert((a + b)[i] == b[i - a.len()]);
            }
        }
    }
}

/// The line of such an entry holds no `shortcut = {`.
pub proof fn lemma_entry_pat_free(e: Entry)
    requires
        entry_ok(e),
        entry_pf(e),
    ensures
        pat_free(entry_line(e)),
{
    lemma_pattern();
    let l = entry_line(e);
    let h = e.0.len() + e.1.len() + 3;
    assert(l.len() == h + e.2.len());
    assert forall|k: int| 0 <= k < h implies #[trigger] l[k] != '{' by {
        if k < e.0.len() {
            assert(l[k] == e.0[k]);
            assert(crate::text::is_ws(e.0[k]));
        } else if k < e.0.len() + e.1.len() {
            assert(l[k] == e.1[k - e.0.len()]);
            assert(is_word_char(e.1[k - e.0.len()]));
        }
    }
    assert forall|j: int| !occurs_at(l, shortcut_pattern(), j) by {
        if occurs_at(l, shortcut_pattern(), j) {
            assert(l.subrange(j, j + 12)[11] == l[j + 11]);
            assert(l.subrange(j, j + 12)[7] == l[j + 7]);
            assert(l[j + 11] == '{');
            assert(l[j + 11] == e.2[j + 11 - h]);
            if j + 11 - h > 0 {
                assert(e.2[j + 11 - h] != '{');
            } else {
                assert(j + 7 == e.0.len() + e.1.len() - 1);
                assert(l[j + 7] == e.1[e.1.len() - 1]);
            }
        }
    }
}

/// The lines of such entries hold no `shortcut = {` and no line break.
pub proof fn lemma_entries_pat_free(es: Seq<Entry>)
    requires
        entries_ok(es),
        entries_pf(es),
    ensures
        lines_pat_free(crate::roundtrip::entry_lines(es)),
{
    lemma_entry_lines_plain(es);
    let ls = crate::roundtrip::entry_lines(es);
    assert forall|i: int| 0 <= i < ls.len() implies pat_free(#[trigger] ls[i]) && forall|k: int|
        0 <= k < ls[i].len() ==> ls[i][k] != '\n' by {
        assert(entry_ok(es[i]) && entry_pf(es[i]));
        lemma_entry_pat_free(es[i]);
        assert(plain_line(ls[i]));
    }
}

proof fn lemma_single_pf(kw: Seq<char>, v: Seq<char>)
    requires
        forall|k: int| 0 <= k < v.len() ==> #[trigger] v[k] != '{',
    ensures
        entries_pf(single(kw, v)),
{
    assert(single(kw, v)[0].2 == v);
}

proof fn lemma_opt_pf(kw: Seq<char>, o: Option<Seq<char>>)
    requires
        o matches Some(v) ==> forall|k: int| 0 <= k < v.len() ==> #[trigger] v[k] != '{',
    ensures
        entries_pf(opt_entry(kw, o)),
{
    if let Some(v) = o {
        lemma_single_pf(kw, v);
    }
}

proof fn lemma_list_pf(bk: Seq<char>, ps: Seq<Seq<char>>)
    requires
        bk.len() > 0,
        bk.last() != 't',
        forall|i: int| 0 <= i < ps.len() ==> text_ok(#[trigger] ps[i]),
    ensures
        entries_pf(list_entries(tab2(), bk, ps)),
{
    let es = list_entries(tab2(), bk, ps);
    assert forall|i: int| 0 <= i < es.len() implies entry_pf(#[trigger] es[i]) by {
        let p = ps[i];
        assert(text_ok(p));
        let v = list_value(p);
        assert(es[i] == (tab2(), bk, v));
        reveal_strlit("focus");
        assert forall|k: int| 1 <= k < v.len() implies #[trigger] v[k] != '{' by {
            if 2 <= k < 2 + 8 {
                assert(v[k] == kv("focus"@, p)[k - 2]);
            } else if 10 <= k < 10 + p.len() {
                assert(v[k] == p[k - 10]);
            }
        }
    }
}

proof fn lemma_filters_pf(fs: Seq<Seq<char>>)
    requires
        filters_ok(fs),
    ensures
        entries_pf(filters_entry(fs)),
{
    if fs.len() > 0 {
        crate::roundtrip::lemma_spaced_free(fs);
        reveal_strlit("search_filters");
        let v = filters_value(fs);
        let m = crate::writer::spaced(fs) + seq![' '];
        assert(v =~= seq!['{'] + m + seq!['}']);
        assert forall|k: int| 1 <= k < v.len() implies #[trigger] v[k] != '{' by {
            if k < 1 + m.len() {
                assert(v[k] == m[k - 1]);
            }
        }
        assert(filters_entry(fs)[0] == (tab2(), "search_filters"@, v));
    }
}

/// The entries of a written focus hold no `shortcut = {`.
#[verifier::spinoff_prover]
#[verifier::rlimit(40)]
pub proof fn lemma_node_entries_pf(n: NodeView)
    requires
        node_ok(n),
    ensures
        entries_pf(node_entries(n)),
{
    broadcast use lemma_entries_pf_concat;

    reveal_strlit("focus");
    reveal_strlit("prerequisite");
    reveal_strlit("mutually_exclusive");
    reveal_strlit("yes");
    assert(entries_pf(seq![head_entry()])) by {
        assert(seq![head_entry()][0] == head_entry());
    }
    lemma_single_pf("id"@, n.id);
    lemma_opt_pf("icon"@, n.icon);
    crate::roundtrip::lemma_int_text_chars(n.x as int);
    crate::roundtrip::lemma_int_text_chars(n.y as int);
    lemma_single_pf("x"@, crate::text::int_text(n.x as int));
    lemma_single_pf("y"@, crate::text::int_text(n.y as int));
    lemma_opt_pf("relative_position_id"@, n.relative_position_id);
    if let Some(c) = n.cost {
        crate::roundtrip::lemma_cost_text_chars(c);
        lemma_single_pf("cost"@, crate::cost::cost_file_text(c));
    }
    assert(entries_pf(cost_entry(n.cost)));
    lemma_list_pf("prerequisite"@, n.prerequisites);
    lemma_list_pf("mutually_exclusive"@, n.mutually_exclusive);
    if n.bypass_if_unavailable {
        lemma_single_pf("bypass_if_unavailable"@, "yes"@);
    }
    assert(entries_pf(flag_entry(n.bypass_if_unavailable)));
    lemma_filters_pf(n.search_filters);
    assert(entries_pf(node_prefix(n)));
}

// ------------------------------------------------------------------------
// Raw blocks without `shortcut = {`
// ------------------------------------------------------------------------

/// No line of the raw block's inside holds `shortcut = {`.
pub open spec fn raw_pf(r: Seq<char>) -> bool {
    forall|i: int| 0 <= i < raw_pieces(r).len() ==> pat_free(trim(#[trigger] raw_pieces(r)[i]))
}

pub open spec fn opt_raw_pf(o: Option<Seq<char>>) -> bool {
    match o {
        Some(r) => raw_pf(r),
        None => true,
    }
}

/// No raw block of the focus holds `shortcut = {`.
pub open spec fn raws_pf(n: NodeView) -> bool {
    &&& opt_raw_pf(n.available_raw)
    &&& opt_raw_pf(n.bypass_raw)
    &&& opt_raw_pf(n.completion_reward_raw)
    &&& opt_raw_pf(n.immediate_raw)
    &&& opt_raw_pf(n.ai_will_do_raw)
}

proof fn lemma_block_pat_free(key: Seq<char>, r: Seq<char>)
    requires
        raw_key(key),
        raw_ok(r),
        raw_pf(r),
    ensures
        lines_pat_free(raw_block_lines(key, r)),
{
    lemma_raw_key(key);
    lemma_pattern();
    let e = raw_open(key);
    assert(entry_ok(e)) by {
        assert(tab2()[0] == '\t' && tab2()[1] == '\t');
        assert(seq!['{'][0] == '{');
    }
    reveal_strlit("available");
    reveal_strlit("bypass");
    reveal_strlit("completion_reward");
    reveal_strlit("immediate");
    reveal_strlit("ai_will_do");
    assert(entry_pf(e));
    lemma_entries_pat_free(seq![e]);
    assert(crate::roundtrip::entry_lines(seq![e]) =~= seq![entry_line(e)]);
    assert(seq![entry_line(e)][0] == entry_line(e));
    lemma_inner_lines_plain(r);
    let ps = raw_pieces(r);
    let il = inner_lines(ps);
    assert forall|i: int| 0 <= i < il.len() implies pat_free(#[trigger] il[i]) by {
        let t = trim(ps[i]);
        assert(il[i] == tab3() + t);
        assert(pat_free(t));
        assert forall|j: int| !occurs_at(il[i], shortcut_pattern(), j) by {
            if occurs_at(il[i], shortcut_pattern(), j) {
                if j < 3 {
                    assert(il[i].subrange(j, j + 12)[0] == il[i][j]);
                    assert(il[i][j] == '\t');
                } else {
                    lemma_occurs_right(tab3(), t, j);
                }
            }
        }
    }
    let b = raw_block_lines(key, r);
    assert forall|i: int| 0 <= i < b.len() implies pat_free(#[trigger] b[i]) && forall|k: int|
        0 <= k < b[i].len() ==> b[i][k] != '\n' by {
        if i == 0 {
            assert(b[i] == entry_line(e));
        } else if i < b.len() - 1 {
            assert(b[i] == il[i - 1]);
            assert(plain_line(il[i - 1]));
        } else {
            assert(b[i] == raw_close());
            assert forall|k: int| 0 <= k < raw_close().len() implies #[trigger] raw_close()[k] != '{'
                by {
                assert(raw_close()[0] == '\t' && raw_close()[1] == '\t' && raw_close()[2] == '}');
            }
            lemma_no_open_free(raw_close());
            assert(raw_close()[0] == '\t' && raw_close()[1] == '\t' && raw_close()[2] == '}');
        }
    }
}

proof fn lemma_opt_block_pat_free(key: Seq<char>, o: Option<Seq<char>>)
    requires
        raw_key(key),
        crate::rawblock::opt_raw_ok(o),
        opt_raw_pf(o),
    ensures
        lines_pat_free(opt_block_lines(key, o)),
{
    if let Some(r) = o {
        lemma_block_pat_free(key, r);
    }
}

/// The written lines of a focus hold no `shortcut = {` when its raw blocks
/// hold none.
pub proof fn lemma_node_lines_pat_free(n: NodeView)
    requires
        node_ok(n),
        raws_pf(n),
    ensures
        lines_pat_free(crate::roundtrip::node_lines(n)),
{
    crate::roundtrip::lemma_node_entries_ok(n);
    lemma_node_entries_pf(n);
    lemma_entries_pat_free(node_entries(n));
    reveal_strlit("available");
    reveal_strlit("bypass");
    reveal_strlit("completion_reward");
    reveal_strlit("immediate");
    reveal_strlit("ai_will_do");
    let a = opt_block_lines("available"@, n.available_raw);
    let b = opt_block_lines("bypass"@, n.bypass_raw);
    let c = opt_block_lines("completion_reward"@, n.completion_reward_raw);
    let i = opt_block_lines("immediate"@, n.immediate_raw);
    let d = opt_block_lines("ai_will_do"@, n.ai_will_do_raw);
    lemma_opt_block_pat_free("available"@, n.available_raw);
    lemma_opt_block_pat_free("bypass"@, n.bypass_raw);
    lemma_opt_block_pat_free("completion_reward"@, n.completion_reward_raw);
    lemma_opt_block_pat_free("immediate"@, n.immediate_raw);
    lemma_opt_block_pat_free("ai_will_do"@, n.ai_will_do_raw);
    lemma_lines_pat_free_concat(a, b);
    lemma_lines_pat_free_concat(a + b, c);
    lemma_lines_pat_free_concat(a + b + c, i);
    lemma_lines_pat_free_concat(a + b + c + i, d);
    crate::roundtrip::lemma_close_line();
    assert(lines_pat_free(seq![close_line()])) by {
        assert(seq![close_line()][0] == close_line());
        assert(close_line()[0] == '\t' && close_line()[1] == '}');
        assert forall|k: int| 0 <= k < close_line().len() implies #[trigger] close_line()[k] != '{'
            by {
        }
        lemma_no_open_free(close_line());
    }
    lemma_lines_pat_free_concat(crate::roundtrip::entry_lines(node_entries(n)), raws_lines(n));
    lemma_lines_pat_free_concat(
        crate::roundtrip::entry_lines(node_entries(n)) + raws_lines(n),
        seq![close_line()],
    );
}

proof fn lemma_nodes_lines_pat_free(ns: Seq<NodeView>)
    requires
        forall|i: int| 0 <= i < ns.len() ==> node_ok(#[trigger] ns[i]) && raws_pf(ns[i]),
    ensures
        lines_pat_free(nodes_lines(ns)),
    decreases ns.len(),
{
    if ns.len() == 1 {
        assert(node_ok(ns[0]) && raws_pf(ns[0]));
        lemma_node_lines_pat_free(ns[0]);
    } else if ns.len() > 1 {
        let init = ns.drop_last();
        assert forall|i: int| 0 <= i < init.len() implies node_ok(#[trigger] init[i]) && raws_pf(
            init[i],
        ) by {
            assert(init[i] == ns[i]);
        }
        lemma_nodes_lines_pat_free(init);
        assert(node_ok(ns[ns.len() - 1]) && raws_pf(ns[ns.len() - 1]));
        lemma_node_lines_pat_free(ns.last());
        let e = Seq::<char>::empty();
        assert(lines_pat_free(seq![e])) by {
            assert(seq![e][0] == e);
            lemma_no_open_free(e);
        }
        lemma_lines_pat_free_concat(nodes_lines(init), seq![e]);
        lemma_lines_pat_free_concat(nodes_lines(init) + seq![e], crate::roundtrip::node_lines(ns.last()));
    } else {
        assert(nodes_lines(ns) =~= Seq::<Seq<char>>::empty());
    }
}

/// The shortcut lines, first shortcut first.
proof fn lemma_shortcuts_lines_first(ss: Seq<(Seq<char>, Seq<char>)>)
    requires
        ss.len() > 0,
    ensures
        shortcuts_lines(ss) == shortcut_lines(ss[0]) + shortcuts_lines(ss.drop_first()),
    decreases ss.len(),
{
    if ss.len() == 1 {
        assert(ss.drop_last() =~= Seq::<(Seq<char>, Seq<char>)>::empty());
        assert(ss.drop_first() =~= Seq::<(Seq<char>, Seq<char>)>::empty());
        assert(shortcuts_lines(ss) =~= shortcut_lines(ss[0]) + shortcuts_lines(ss.drop_first()));
    } else {
        let init = ss.drop_last();
        lemma_shortcuts_lines_first(init);
        assert(init[0] == ss[0]);
        assert(init.drop_first() =~= ss.drop_first().drop_last());
        assert(ss.drop_first().last() == ss.last());
        assert(shortcuts_lines(ss) =~= shortcut_lines(ss[0]) + shortcuts_lines(ss.drop_first()));
    }
}

/// The lines of a written shortcut after its opening line.
pub open spec fn shortcut_tail(sc: (Seq<char>, Seq<char>)) -> Seq<Seq<char>> {
    crate::roundtrip::entry_lines(shortcut_entries(sc).drop_first()) + seq![close_line()]
}

/// The lines after the opening line of a written shortcut hold no
/// `shortcut = {`.
proof fn lemma_tail_pat_free(sc: (Seq<char>, Seq<char>))
    requires
        shortcut_ok(sc),
    ensures
        lines_pat_free(shortcut_tail(sc)),
        shortcut_lines(sc) == seq![entry_line(shortcut_entries(sc)[0])] + shortcut_tail(sc),
{
    lemma_shortcut_entries_ok(sc);
    let es = shortcut_entries(sc);
    let b = es.drop_first();
    reveal_strlit("0.80");
    assert(b[0].2 == sc.0 && b[1].2 == sc.1 && b[2].2 == "0.80"@);
    assert(entries_pf(b)) by {
        assert forall|i: int| 0 <= i < b.len() implies entry_pf(#[trigger] b[i]) by {
            assert(b.len() == 3);
        }
    }
    lemma_entries_pat_free(b);
    crate::roundtrip::lemma_close_line();
    assert(lines_pat_free(seq![close_line()])) by {
        assert(seq![close_line()][0] == close_line());
        assert(close_line()[0] == '\t' && close_line()[1] == '}');
        assert forall|k: int| 0 <= k < close_line().len() implies #[trigger] close_line()[k] != '{'
            by {
        }
        lemma_no_open_free(close_line());
    }
    lemma_lines_pat_free_concat(crate::roundtrip::entry_lines(b), seq![close_line()]);
    crate::roundtrip::lemma_entry_lines_concat(seq![es[0]], b);
    assert(es =~= seq![es[0]] + b);
    assert(crate::roundtrip::entry_lines(seq![es[0]]) =~= seq![entry_line(es[0])]);
}

/// The opening line of a written shortcut.
proof fn lemma_open_shortcut(sc: (Seq<char>, Seq<char>))
    ensures
        entry_line(shortcut_entries(sc)[0]) == seq!['\t'] + shortcut_pattern(),
        entry_line(shortcut_entries(sc)[0]).len() == 13,
{
    reveal_strlit("shortcut = {");
    reveal_strlit("shortcut");
    assert(entry_line(shortcut_entries(sc)[0]) =~= seq!['\t'] + shortcut_pattern());
}

/// The inside of the block of a written shortcut, as reading takes it.
pub open spec fn shortcut_inside(sc: (Seq<char>, Seq<char>)) -> Seq<char> {
    seq!['\n'] + unlines(crate::roundtrip::entry_lines(shortcut_entries(sc).drop_first())) + tab1()
}

/// Reading the name and target of a written shortcut from its inside.
proof fn lemma_inside_values(sc: (Seq<char>, Seq<char>))
    requires
        shortcut_ok(sc),
    ensures
        simple_string(shortcut_inside(sc), "name"@) == Some(sc.0),
        simple_string(shortcut_inside(sc), "target"@) == Some(sc.1),
{
    lemma_shortcut_entries_ok(sc);
    let b = shortcut_entries(sc).drop_first();
    let el = crate::roundtrip::entry_lines(b);
    let e = Seq::<char>::empty();
    lemma_entry_lines_plain(b);
    lemma_empty_plain();
    lemma_plain_concat(seq![e], el);
    lemma_lines_unlines(seq![e] + el, tab1());
    lemma_unlines_cons(e, el);
    assert(seq![e] + el =~= seq![e] + el);
    assert(shortcut_inside(sc) =~= unlines(seq![e] + el) + tab1());
    assert(tab1()[0] == '\t');
    lemma_lines_single(tab1());
    let ls = seq![e] + el + seq![tab1()];
    assert(lines(shortcut_inside(sc)) == ls);
    reveal_strlit("name");
    reveal_strlit("target");
    reveal_strlit("scroll_wheel_factor");
    assert(word("name"@) && word("target"@)) by {
        assert("name"@.len() > 0);
        assert("target"@.len() > 0);
    }
    assert(trim(e) =~= e);
    assert(line_value(e, "name"@) is None);
    assert(line_value(e, "target"@) is None);
    assert(ls[0] == e);
    assert(ls.drop_first() =~= el + seq![tab1()]);
    lemma_name_ok_value(sc.0);
    lemma_name_ok_value(sc.1);
    assert(b[0] == (tab2(), "name"@, sc.0));
    assert(b[1] == (tab2(), "target"@, sc.1));
    assert("name"@ != "target"@) by {
        assert("name"@[0] != "target"@[0]);
    }
    assert(crate::roundtrip::kw_value(b, "name"@) == Some(sc.0));
    assert(crate::roundtrip::kw_value(b.drop_first(), "target"@) == Some(sc.1));
    assert(crate::roundtrip::kw_value(b, "target"@) == Some(sc.1));
    lemma_first_value_entries(b, seq![tab1()], "name"@);
    lemma_first_value_entries(b, seq![tab1()], "target"@);
}

/// Reading a written shortcut that stands at `st`: the search finds its
/// opening line, its block gives its name and target, and the search goes on
/// after its `{`.
#[verifier::spinoff_prover]
#[verifier::rlimit(60)]
proof fn lemma_read_shortcut(s: Seq<char>, st: int, sc: (Seq<char>, Seq<char>), rest: Seq<Seq<char>>)
    requires
        shortcut_ok(sc),
        0 <= st <= s.len(),
        s.skip(st) == unlines(shortcut_lines(sc) + rest),
    ensures
        find_seq(s.skip(st), shortcut_pattern()) == Some(1int),
        st + 13 <= s.len(),
        s.skip(st + 13) == unlines(seq![Seq::<char>::empty()] + shortcut_tail(sc) + rest),
        or_empty(simple_string(brace_block(s, st + 12), "name"@)) == sc.0,
        or_empty(simple_string(brace_block(s, st + 12), "target"@)) == sc.1,
        brace_closes(s, st + 12),
{
    lemma_pattern();
    lemma_open_shortcut(sc);
    lemma_tail_pat_free(sc);
    let p = shortcut_pattern();
    let hdr = entry_line(shortcut_entries(sc)[0]);
    let tl = shortcut_tail(sc) + rest;
    let x = s.skip(st);
    assert(shortcut_lines(sc) + rest =~= seq![hdr] + tl);
    lemma_unlines_cons(hdr, tl);
    assert(x =~= hdr + seq!['\n'] + unlines(tl));
    // The search.
    assert(x.subrange(1, 13) =~= p);
    assert(occurs_at(x, p, 1));
    assert(!occurs_at(x, p, 0)) by {
        if occurs_at(x, p, 0) {
            assert(x.subrange(0, 12)[0] == x[0]);
        }
    }
    assert forall|j: int| 0 <= j < 1 implies !occurs_at(x, p, j) by {}
    lemma_find_seq_at(x, p, 1);
    // After the `{`.
    let e = Seq::<char>::empty();
    lemma_unlines_cons(e, tl);
    assert(s.skip(st + 13) =~= x.skip(13));
    assert(x.skip(13) =~= seq!['\n'] + unlines(tl));
    assert(seq![e] + shortcut_tail(sc) + rest =~= seq![e] + tl);
    assert(e + seq!['\n'] =~= seq!['\n']);
    // The block.
    lemma_shortcut_entries_ok(sc);
    let b = shortcut_entries(sc).drop_first();
    let el = crate::roundtrip::entry_lines(b);
    let seg = shortcut_inside(sc);
    lemma_flat_scan(b, 1);
    assert(brace_free(seq!['\n'])) by {
        assert(seq!['\n'][0] == '\n');
    }
    assert(brace_free(tab1())) by {
        assert(tab1()[0] == '\t');
    }
    lemma_brace_free(seq!['\n'], 1);
    lemma_brace_free(tab1(), 1);
    lemma_scan_tscan(seq!['\n'], 1);
    lemma_scan_tscan(tab1(), 1);
    lemma_tscan_concat(unlines(el), tab1(), 1);
    lemma_balance_concat(unlines(el), tab1());
    lemma_tscan_concat(seq!['\n'], unlines(el) + tab1(), 1);
    lemma_balance_concat(seq!['\n'], unlines(el) + tab1());
    assert(seg =~= seq!['\n'] + (unlines(el) + tab1()));
    // Where the block stands in `s`.
    crate::roundtrip::lemma_close_line();
    lemma_unlines_concat(el, seq![close_line()] + rest);
    lemma_unlines_cons(close_line(), rest);
    assert(shortcut_tail(sc) + rest =~= el + (seq![close_line()] + rest));
    assert(close_line() =~= tab1() + seq!['}']);
    assert(unlines(tl) =~= unlines(el) + tab1() + seq!['}'] + seq!['\n'] + unlines(rest));
    let a1 = st + 13;
    assert(x.skip(13) =~= seg + seq!['}'] + seq!['\n'] + unlines(rest));
    assert(s.subrange(a1, a1 + seg.len()) =~= seg) by {
        assert forall|k: int| 0 <= k < seg.len() implies #[trigger] s.subrange(a1, a1 + seg.len())[k]
            == seg[k] by {
            assert(s.subrange(a1, a1 + seg.len())[k] == s[a1 + k]);
            assert(s[a1 + k] == x[13 + k]);
            assert(x[13 + k] == x.skip(13)[k]);
        }
    }
    lemma_brace_end_tseg(s, a1, 1, seg);
    let q = a1 + seg.len();
    assert(s[q] == x.skip(13)[seg.len() as int]);
    assert(s[q] == '}');
    assert(brace_scan(s, q, 1) == brace_scan(s, q + 1, 0));
    assert(brace_scan(s, q + 1, 0) == (q + 1, 0int));
    assert(brace_block(s, st + 12) == s.subrange(a1, q));
    lemma_inside_values(sc);
}

/// Reading the shortcuts from lines that hold the written shortcuts between
/// lines without `shortcut = {` gives those shortcuts.
proof fn lemma_shortcuts_from_lines(
    s: Seq<char>,
    st: int,
    q: Seq<Seq<char>>,
    ss: Seq<(Seq<char>, Seq<char>)>,
    r: Seq<Seq<char>>,
)
    requires
        0 <= st <= s.len(),
        s.skip(st) == unlines(q + shortcuts_lines(ss) + r),
        lines_pat_free(q),
        lines_pat_free(r),
        forall|i: int| 0 <= i < ss.len() ==> shortcut_ok(#[trigger] ss[i]),
    ensures
        shortcuts_from(s, st) == ss,
    decreases ss.len(),
{
    lemma_pattern();
    let x = s.skip(st);
    if ss.len() == 0 {
        assert(shortcuts_lines(ss) =~= Seq::<Seq<char>>::empty());
        assert(q + shortcuts_lines(ss) + r =~= q + r);
        lemma_lines_pat_free_concat(q, r);
        lemma_lines_none(q + r);
        assert(shortcuts_from(s, st) =~= ss);
    } else {
        let sc = ss[0];
        let rest_ss = ss.drop_first();
        lemma_shortcuts_lines_first(ss);
        let more = shortcuts_lines(rest_ss) + r;
        let y = unlines(shortcut_lines(sc) + more);
        assert(q + shortcuts_lines(ss) + r =~= q + (shortcut_lines(sc) + more));
        lemma_unlines_concat(q, shortcut_lines(sc) + more);
        let st2 = st + unlines(q).len();
        assert(x =~= unlines(q) + y);
        let m = unlines(q).len() as int;
        assert(st2 <= s.len());
        assert forall|k: int| 0 <= k < s.skip(st2).len() implies #[trigger] s.skip(st2)[k] == y[k] by {
            assert(s.skip(st2)[k] == s[st2 + k]);
            assert(x[m + k] == s[st + m + k]);
            assert((unlines(q) + y)[m + k] == y[k]);
        }
        assert(s.skip(st2).len() == y.len());
        assert(s.skip(st2) =~= y);
        assert(shortcut_ok(ss[0]));
        lemma_read_shortcut(s, st2, sc, more);
        lemma_find_skip_lines(q, y);
        assert(find_seq(s.skip(st), shortcut_pattern()) == Some(1 + unlines(q).len() as int));
        // The shortcuts after this one.
        lemma_tail_pat_free(sc);
        let e = Seq::<char>::empty();
        let q2 = seq![e] + shortcut_tail(sc);
        assert(lines_pat_free(seq![e])) by {
            assert(seq![e][0] == e);
            lemma_no_open_free(e);
        }
        lemma_lines_pat_free_concat(seq![e], shortcut_tail(sc));
        assert(q2 + shortcuts_lines(rest_ss) + r =~= seq![e] + shortcut_tail(sc) + more);
        assert forall|i: int| 0 <= i < rest_ss.len() implies shortcut_ok(#[trigger] rest_ss[i]) by {
            assert(rest_ss[i] == ss[i + 1]);
        }
        lemma_shortcuts_from_lines(s, st2 + 13, q2, rest_ss, r);
        reveal_strlit("shortcut = {");
        assert(sc.1.len() > 0);
        assert(shortcuts_from(s, st) =~= seq![(sc.0, sc.1)] + rest_ss);
        assert(seq![(sc.0, sc.1)] + rest_ss =~= ss);
    }
}

/// Reading the inside of a written tree gives its shortcuts, when no raw block
/// of its focuses holds `shortcut = {`.
#[verifier::spinoff_prover]
#[verifier::rlimit(60)]
pub proof fn lemma_tree_shortcuts(t: crate::model::TreeView)
    requires
        crate::roundtrip::tree_ok(t),
        forall|i: int| 0 <= i < t.focuses.len() ==> raws_pf(#[trigger] t.focuses[i]),
    ensures
        shortcuts_from(
            unlines(seq![Seq::<char>::empty()] + crate::roundtrip::tree_body_lines(t)),
            0,
        ) == t.shortcuts,
{
    let e = Seq::<char>::empty();
    let idl = tab1() + kv("id"@, t.id);
    let q = seq![e, idl, e];
    let sep = if t.shortcuts.len() > 0 {
        seq![e]
    } else {
        Seq::<Seq<char>>::empty()
    };
    let nl = nodes_lines(t.focuses);
    let r = sep + nl;
    let s = unlines(seq![e] + crate::roundtrip::tree_body_lines(t));
    assert(seq![e] + crate::roundtrip::tree_body_lines(t) =~= q + shortcuts_lines(t.shortcuts) + r);
    assert(s.skip(0) =~= s);
    // The lines before the shortcuts.
    reveal_strlit("id");
    assert(lines_pat_free(q)) by {
        assert forall|i: int, k: int| 0 <= i < q.len() && 0 <= k < q[i].len() implies #[trigger] q[i][k]
            != '{' && q[i][k] != '\n' by {
            assert(i == 1);
            assert(q[1] == idl);
            if k >= 6 {
                assert(idl[k] == t.id[k - 6]);
            }
        }
        assert forall|i: int| 0 <= i < q.len() implies pat_free(#[trigger] q[i]) by {
            assert forall|k: int| 0 <= k < q[i].len() implies #[trigger] q[i][k] != '{' by {
                assert(q[i][k] != '{' && q[i][k] != '\n');
            }
            lemma_no_open_free(q[i]);
        }
    }
    // The lines after them.
    assert forall|i: int| 0 <= i < t.focuses.len() implies node_ok(#[trigger] t.focuses[i])
        && raws_pf(t.focuses[i]) by {
        assert(node_ok(t.focuses[i]));
        assert(raws_pf(t.focuses[i]));
    }
    lemma_nodes_lines_pat_free(t.focuses);
    assert(lines_pat_free(sep)) by {
        if t.shortcuts.len() > 0 {
            assert(sep[0] == e);
            lemma_no_open_free(e);
        }
    }
    lemma_lines_pat_free_concat(sep, nl);
    lemma_shortcuts_from_lines(s, 0, q, t.shortcuts, r);
}

} // verus!
