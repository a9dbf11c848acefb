//! Raw script blocks of a focus as they are written, and what reading them
//! back gives.
//!
//! A raw block is written as its key line `\t\tkey = {`, the lines of its
//! inside, each trimmed after three tabs, and the line `\t\t}`.
use vstd::prelude::*;
use crate::model::NodeView;
use crate::parser::{
    block_as_text, block_lines_from, block_text_ok, brace_step, close_from, cut_first_open,
    cut_last_close, first_key_line, has_key, join_lines, line_close, line_state, wrap_block,
};
use crate::roundtrip::{
    Entry, all_ws, brace_balance, brace_delta, brace_free, entry_line, inert, is_word_char, kv,
    lemma_balance_concat, lemma_balance_first, lemma_brace_free_balance, lemma_has_key_kv,
    lemma_keywords, lemma_search_filters_word, lemma_short_no_key, lemma_trim_kv,
    lemma_trim_ws_solid, lemma_unlines_concat, lemma_unlines_one, plain_key, plain_line,
    plain_lines, quiet_line, solid, tab2, unlines, word, scan_ok, lines_scan, entry_ok,
    value_scan, lemma_entry_scan, lemma_scan_concat, lemma_unlines_cons, lemma_lines_scan_concat,
    no_newline,
};
use crate::text::{
    find_char, is_ws, lemma_find_char, lemma_find_char_at, lemma_rfind_char, lines, rfind_char,
    starts_with, strip_cr, trim, trim_end, trim_start,
};
use crate::tokscan::{lemma_scan_tscan, lemma_tok_tscan, lemma_tscan_concat, tscan};
use crate::writer::{block_inner, block_text, indented_lines, node_blocks_text};

verus! {

// ------------------------------------------------------------------------
// Specifications
// ------------------------------------------------------------------------

pub open spec fn tab3() -> Seq<char> {
    seq!['\t', '\t', '\t']
}

/// The lines of a raw block's inside, as the writer splits it.
pub open spec fn raw_pieces(r: Seq<char>) -> Seq<Seq<char>> {
    lines(block_inner(trim(r)))
}

/// A line of a raw block's inside as written: trimmed, after three tabs.
pub open spec fn inner_line(l: Seq<char>) -> Seq<char> {
    tab3() + trim(l)
}

pub open spec fn inner_lines(ls: Seq<Seq<char>>) -> Seq<Seq<char>> {
    ls.map_values(|l: Seq<char>| inner_line(l))
}

/// The line that opens the raw block `key`: `\t\tkey = {`.
pub open spec fn raw_open(key: Seq<char>) -> Entry {
    (tab2(), key, seq!['{'])
}

/// The line that closes a raw block: `\t\t}`.
pub open spec fn raw_close() -> Seq<char> {
    seq!['\t', '\t', '}']
}

/// The written lines of the raw block `key`.
pub open spec fn raw_block_lines(key: Seq<char>, r: Seq<char>) -> Seq<Seq<char>> {
    seq![entry_line(raw_open(key))] + inner_lines(raw_pieces(r)) + seq![raw_close()]
}

pub open spec fn opt_block_lines(key: Seq<char>, o: Option<Seq<char>>) -> Seq<Seq<char>> {
    match o {
        Some(r) => raw_block_lines(key, r),
        None => Seq::empty(),
    }
}

/// The written lines of the raw blocks of a focus, in the order the writer
/// writes them.
pub open spec fn raws_lines(n: NodeView) -> Seq<Seq<char>> {
    opt_block_lines("available"@, n.available_raw) + opt_block_lines("bypass"@, n.bypass_raw)
        + opt_block_lines("completion_reward"@, n.completion_reward_raw) + opt_block_lines(
        "immediate"@,
        n.immediate_raw,
    ) + opt_block_lines("ai_will_do"@, n.ai_will_do_raw)
}

/// A raw block as it reads back once written: its written inside lines,
/// stored as the reader stores a block.
pub open spec fn raw_reread(r: Seq<char>) -> Seq<char> {
    wrap_block(seq!['\n'] + unlines(inner_lines(raw_pieces(r))) + tab2())
}

pub open spec fn opt_reread(o: Option<Seq<char>>) -> Option<Seq<char>> {
    match o {
        Some(r) => Some(raw_reread(r)),
        None => None,
    }
}

/// A focus as it reads back once written: each raw block as it reads back,
/// every other field unchanged.
pub open spec fn reread_node(n: NodeView) -> NodeView {
    NodeView {
        available_raw: opt_reread(n.available_raw),
        completion_reward_raw: opt_reread(n.completion_reward_raw),
        immediate_raw: opt_reread(n.immediate_raw),
        ai_will_do_raw: opt_reread(n.ai_will_do_raw),
        bypass_raw: opt_reread(n.bypass_raw),
        ..n
    }
}

/// A trimmed line of a raw block's inside that reads as nothing but a line of
/// the block: it gives no plain field and starts no raw block, and its
/// comments and strings are closed and hold no brace (see
/// [`tok_ok`](crate::tokscan::tok_ok)).
pub open spec fn raw_line_ok(t: Seq<char>) -> bool {
    &&& quiet_line(t)
    &&& !has_key(t, "available"@)
    &&& !has_key(t, "bypass"@)
    &&& !has_key(t, "completion_reward"@)
    &&& !has_key(t, "immediate"@)
    &&& !has_key(t, "ai_will_do"@)
    &&& crate::tokscan::tok_ok(t)
}

/// From depth `d`, the braces of the trimmed lines nest: no prefix of a line
/// closes more than is open, and the last line ends with all closed.
pub open spec fn nest_from(ls: Seq<Seq<char>>, d: int) -> bool
    decreases ls.len(),
{
    if ls.len() == 0 {
        d == 0
    } else {
        &&& forall|k: int|
            0 <= k <= trim(ls[0]).len() ==> d + crate::roundtrip::brace_balance(
                #[trigger] trim(ls[0]).take(k),
            ) >= 0
        &&& nest_from(ls.drop_first(), d + crate::roundtrip::brace_balance(trim(ls[0])))
    }
}

/// A raw block that is written and read back as one block: the lines of its
/// inside are [`raw_line_ok`] and their braces nest.
pub open spec fn raw_ok(r: Seq<char>) -> bool {
    &&& forall|i: int| 0 <= i < raw_pieces(r).len() ==> raw_line_ok(trim(#[trigger] raw_pieces(r)[i]))
    &&& nest_from(raw_pieces(r), 0)
}

pub open spec fn opt_raw_ok(o: Option<Seq<char>>) -> bool {
    match o {
        Some(r) => raw_ok(r),
        None => true,
    }
}

// ------------------------------------------------------------------------
// Trimming and lines
// ------------------------------------------------------------------------

proof fn lemma_trim_start_skip(s: Seq<char>) -> (a: int)
    ensures
        0 <= a <= s.len(),
        trim_start(s) == s.skip(a),
        a < s.len() ==> !is_ws(s[a]),
    decreases s.len(),
{
    if s.len() > 0 && is_ws(s[0]) {
        let a = lemma_trim_start_skip(s.drop_first());
        assert(s.drop_first().skip(a) =~= s.skip(a + 1));
        a + 1
    } else {
        assert(s.skip(0) =~= s);
        0
    }
}

proof fn lemma_trim_end_take(s: Seq<char>) -> (b: int)
    ensures
        0 <= b <= s.len(),
        trim_end(s) == s.take(b),
        b > 0 ==> !is_ws(s[b - 1]),
    decreases s.len(),
{
    if s.len() > 0 && is_ws(s.last()) {
        let b = lemma_trim_end_take(s.drop_last());
        assert(s.drop_last().take(b) =~= s.take(b));
        b
    } else {
        assert(s.take(s.len() as int) =~= s);
        s.len() as int
    }
}

/// A trimmed text is a slice of the text, empty or solid.
pub proof fn lemma_trim_sub(s: Seq<char>) -> (ab: (int, int))
    ensures
        0 <= ab.0 <= ab.1 <= s.len(),
        trim(s) == s.subrange(ab.0, ab.1),
        trim(s).len() == 0 || solid(trim(s)),
{
    let a = lemma_trim_start_skip(s);
    let b = lemma_trim_end_take(s.skip(a));
    assert(s.skip(a).take(b) =~= s.subrange(a, a + b));
    let t = trim(s);
    if t.len() > 0 {
        assert(t[0] == s.skip(a)[0]);
        assert(t.last() == s.skip(a)[b - 1]);
    }
    (a, a + b)
}

/// The pieces that `lines` gives hold no `\n`.
pub proof fn lemma_lines_no_newline(s: Seq<char>)
    ensures
        forall|i: int, k: int|
            0 <= i < lines(s).len() && 0 <= k < lines(s)[i].len() ==> #[trigger] lines(s)[i][k]
                != '\n',
    decreases s.len(),
{
    if s.len() > 0 {
        lemma_find_char(s, '\n');
        match find_char(s, '\n') {
            None => {
                assert(lines(s) == seq![strip_cr(s)]);
            },
            Some(i) => {
                let rest = s.skip(i + 1);
                lemma_lines_no_newline(rest);
                let h = strip_cr(s.take(i));
                assert(lines(s) == seq![h] + lines(rest));
                assert forall|j: int, k: int|
                    0 <= j < lines(s).len() && 0 <= k < lines(s)[j].len() implies #[trigger] lines(
                    s,
                )[j][k] != '\n' by {
                    if j == 0 {
                        assert(lines(s)[j] == h);
                        assert(h[k] == s[k]);
                    } else {
                        assert(lines(s)[j] == lines(rest)[j - 1]);
                    }
                }
            },
        }
    }
}

/// Trimming a line without `\n` keeps it without `\n`.
proof fn lemma_trim_no_newline(l: Seq<char>)
    requires
        forall|k: int| 0 <= k < l.len() ==> #[trigger] l[k] != '\n',
    ensures
        forall|k: int| 0 <= k < trim(l).len() ==> #[trigger] trim(l)[k] != '\n',
        trim(l).len() == 0 || solid(trim(l)),
{
    let (a, b) = lemma_trim_sub(l);
    assert forall|k: int| 0 <= k < trim(l).len() implies #[trigger] trim(l)[k] != '\n' by {
        assert(trim(l)[k] == l[a + k]);
    }
}

/// A written inside line is a plain line that trims to the trimmed piece.
pub proof fn lemma_inner_line(l: Seq<char>)
    requires
        forall|k: int| 0 <= k < l.len() ==> #[trigger] l[k] != '\n',
    ensures
        plain_line(inner_line(l)),
        trim(inner_line(l)) == trim(l),
{
    lemma_trim_no_newline(l);
    let t = trim(l);
    let w = inner_line(l);
    assert(all_ws(tab3())) by {
        assert(tab3()[0] == '\t' && tab3()[1] == '\t' && tab3()[2] == '\t');
    }
    assert forall|k: int| 0 <= k < w.len() implies #[trigger] w[k] != '\n' by {
        if k < 3 {
            assert(w[k] == '\t');
        } else {
            assert(w[k] == t[k - 3]);
        }
    }
    if t.len() > 0 {
        lemma_trim_ws_solid(tab3(), t);
        assert(w.last() == t.last());
    } else {
        assert(w =~= tab3());
        assert(w.last() == '\t');
        crate::roundtrip::lemma_trim_start_ws(tab3(), Seq::<char>::empty());
        assert(tab3() + Seq::<char>::empty() =~= tab3());
    }
}

/// The written inside lines of a raw block are plain lines.
pub proof fn lemma_inner_lines_plain(r: Seq<char>)
    ensures
        plain_lines(inner_lines(raw_pieces(r))),
        forall|i: int|
            0 <= i < raw_pieces(r).len() ==> trim(#[trigger] inner_lines(raw_pieces(r))[i]) == trim(
                raw_pieces(r)[i],
            ),
{
    let ps = raw_pieces(r);
    lemma_lines_no_newline(block_inner(trim(r)));
    assert forall|i: int| 0 <= i < ps.len() implies plain_line(
        #[trigger] inner_lines(ps)[i],
    ) && trim(inner_lines(ps)[i]) == trim(ps[i]) by {
        assert forall|k: int| 0 <= k < ps[i].len() implies #[trigger] ps[i][k] != '\n' by {
            assert(lines(block_inner(trim(r)))[i][k] != '\n');
        }
        lemma_inner_line(ps[i]);
    }
}

// ------------------------------------------------------------------------
// The written text of a raw block
// ------------------------------------------------------------------------

/// Indented lines are the written inside lines, each followed by `\n`.
proof fn lemma_indented(ls: Seq<Seq<char>>)
    ensures
        indented_lines(ls) == unlines(inner_lines(ls)),
    decreases ls.len(),
{
    if ls.len() > 0 {
        lemma_indented(ls.drop_last());
        assert(inner_lines(ls) =~= inner_lines(ls.drop_last()) + seq![inner_line(ls.last())]);
        lemma_unlines_concat(inner_lines(ls.drop_last()), seq![inner_line(ls.last())]);
        lemma_unlines_one(inner_line(ls.last()));
        reveal_strlit("\t\t\t");
        reveal_strlit("\n");
        assert(indented_lines(ls) =~= unlines(inner_lines(ls)));
    } else {
        assert(inner_lines(ls) =~= Seq::<Seq<char>>::empty());
    }
}

/// A written raw block is its lines.
pub proof fn lemma_block_text_lines(key: Seq<char>, r: Seq<char>)
    ensures
        block_text(key, Some(r)) == unlines(raw_block_lines(key, r)),
{
    let il = inner_lines(raw_pieces(r));
    lemma_indented(raw_pieces(r));
    let kl = entry_line(raw_open(key));
    lemma_unlines_concat(seq![kl] + il, seq![raw_close()]);
    lemma_unlines_concat(seq![kl], il);
    lemma_unlines_one(kl);
    lemma_unlines_one(raw_close());
    reveal_strlit("\t\t");
    reveal_strlit(" = {\n");
    reveal_strlit("\t\t}\n");
    assert(block_text(key, Some(r)) =~= unlines(raw_block_lines(key, r)));
}

// ------------------------------------------------------------------------
// Keys
// ------------------------------------------------------------------------

/// The keys of the raw blocks of a focus.
pub open spec fn raw_key(key: Seq<char>) -> bool {
    ||| key == "available"@
    ||| key == "bypass"@
    ||| key == "completion_reward"@
    ||| key == "immediate"@
    ||| key == "ai_will_do"@
}

pub proof fn lemma_raw_key(key: Seq<char>)
    requires
        raw_key(key),
    ensures
        word(key),
        key[0] != 's',
        !plain_key(key),
        key != "focus"@,
{
    lemma_keywords();
    reveal_strlit("focus");
    reveal_strlit("id");
    reveal_strlit("icon");
    reveal_strlit("x");
    reveal_strlit("y");
    reveal_strlit("relative_position_id");
    reveal_strlit("cost");
    reveal_strlit("prerequisite");
    reveal_strlit("mutually_exclusive");
    reveal_strlit("bypass_if_unavailable");
    reveal_strlit("search_filters");
    reveal_strlit("available");
    reveal_strlit("bypass");
    reveal_strlit("completion_reward");
    reveal_strlit("immediate");
    reveal_strlit("ai_will_do");
}

/// A key that a raw block can be written under and found again: not empty,
/// without whitespace, `=`, `{` or `}`.
pub open spec fn key_text_ok(key: Seq<char>) -> bool {
    &&& key.len() > 0
    &&& forall|i: int|
        0 <= i < key.len() ==> !is_ws(#[trigger] key[i]) && key[i] != '=' && key[i] != '{'
            && key[i] != '}'
}

/// A key of lowercase letters and `_` is such a key.
pub proof fn lemma_word_key_text(key: Seq<char>)
    requires
        word(key),
    ensures
        key_text_ok(key),
{
    assert forall|i: int| 0 <= i < key.len() implies !is_ws(#[trigger] key[i]) && key[i] != '='
        && key[i] != '{' && key[i] != '}' by {
        assert(is_word_char(key[i]));
    }
}

/// Facts about the line `\t\tkey = {`.
proof fn lemma_key_line(key: Seq<char>)
    requires
        key_text_ok(key),
    ensures
        trim(entry_line(raw_open(key))) == kv(key, seq!['{']),
        find_char(entry_line(raw_open(key)), '{') == Some(entry_line(raw_open(key)).len() - 1),
        line_state(entry_line(raw_open(key)), 0, false) == (1int, true),
        plain_line(entry_line(raw_open(key))),
        forall|k: int|
            0 <= k < kv(key, seq!['{']).len() ==> #[trigger] kv(key, seq!['{'])[k] != '}',
        has_key(kv(key, seq!['{']), key),
{
    let l = entry_line(raw_open(key));
    let t = kv(key, seq!['{']);
    assert(t.take(key.len() + 2int) =~= key + seq![' ', '=']);
    assert(all_ws(tab2())) by {
        assert(tab2()[0] == '\t' && tab2()[1] == '\t');
    }
    assert(t[0] == key[0]);
    assert(t.last() == '{');
    crate::roundtrip::lemma_trim_ws_solid(tab2(), t);
    assert(l =~= tab2() + t);
    let p = l.len() - 1;
    assert(l[p] == '{');
    assert forall|j: int| 0 <= j < p implies #[trigger] l[j] != '{' && l[j] != '}' && l[j] != '\n'
        by {
        if 2 <= j < 2 + key.len() {
            assert(l[j] == key[j - 2]);
        }
    }
    lemma_find_char_at(l, '{', p);
    let pre = l.take(p);
    assert(l =~= pre + seq!['{']);
    lemma_line_state_free(pre, 0, false);
    lemma_line_state_concat(pre, seq!['{'], 0, false);
    assert(line_state(seq!['{'], 0, false) == line_state(seq!['{'].drop_first(), 1, true));
    assert forall|k: int| 0 <= k < t.len() implies #[trigger] t[k] != '}' by {
        assert(t[k] == l[k + 2]);
    }
    assert(l.last() == '{');
    assert forall|k: int| 0 <= k < l.len() implies #[trigger] l[k] != '\n' by {
        if k < p {
            assert(l[k] != '\n');
        }
    }
}

/// Facts about the line `\t\tkey = {`.
proof fn lemma_open_line(key: Seq<char>)
    requires
        raw_key(key),
    ensures
        trim(entry_line(raw_open(key))) == kv(key, seq!['{']),
        find_char(entry_line(raw_open(key)), '{') == Some(entry_line(raw_open(key)).len() - 1),
        line_state(entry_line(raw_open(key)), 0, false) == (1int, true),
        plain_line(entry_line(raw_open(key))),
        forall|k: int|
            0 <= k < kv(key, seq!['{']).len() ==> #[trigger] kv(key, seq!['{'])[k] != '}',
        quiet_line(kv(key, seq!['{'])),
        forall|other: Seq<char>| #![trigger has_key(kv(key, seq!['{']), other)]
            raw_key(other) ==> (has_key(kv(key, seq!['{']), other) <==> other == key),
{
    lemma_raw_key(key);
    lemma_keywords();
    lemma_search_filters_word();
    lemma_word_key_text(key);
    lemma_key_line(key);
    let t = kv(key, seq!['{']);
    assert forall|other: Seq<char>| #![trigger has_key(t, other)] raw_key(other) implies (has_key(
        t,
        other,
    ) <==> other == key) by {
        lemma_raw_key(other);
        lemma_has_key_kv(key, seq!['{'], other);
    }
    assert(t[0] == key[0]);
    if starts_with(t, "search_filters"@) {
        assert(t.take(14)[0] == t[0]);
        reveal_strlit("search_filters");
        assert("search_filters"@[0] == 's');
    }
    lemma_has_key_kv(key, seq!['{'], "id"@);
    lemma_has_key_kv(key, seq!['{'], "icon"@);
    lemma_has_key_kv(key, seq!['{'], "x"@);
    lemma_has_key_kv(key, seq!['{'], "y"@);
    lemma_has_key_kv(key, seq!['{'], "relative_position_id"@);
    lemma_has_key_kv(key, seq!['{'], "cost"@);
    lemma_has_key_kv(key, seq!['{'], "prerequisite"@);
    lemma_has_key_kv(key, seq!['{'], "mutually_exclusive"@);
    lemma_has_key_kv(key, seq!['{'], "bypass_if_unavailable"@);
}

// ------------------------------------------------------------------------
// Brace states over lines
// ------------------------------------------------------------------------

pub proof fn lemma_line_state_concat(a: Seq<char>, b: Seq<char>, d: int, st: bool)
    ensures
        line_state(a + b, d, st) == line_state(b, line_state(a, d, st).0, line_state(a, d, st).1),
    decreases a.len(),
{
    if a.len() == 0 {
        assert(a + b =~= b);
    } else {
        assert((a + b)[0] == a[0]);
        assert((a + b).drop_first() =~= a.drop_first() + b);
        let (d1, s1) = brace_step(a[0], d, st);
        lemma_line_state_concat(a.drop_first(), b, d1, s1);
    }
}

pub proof fn lemma_line_state_free(a: Seq<char>, d: int, st: bool)
    requires
        forall|k: int| 0 <= k < a.len() ==> #[trigger] a[k] != '{' && a[k] != '}',
    ensures
        line_state(a, d, st) == (d, st),
    decreases a.len(),
{
    if a.len() > 0 {
        assert(a[0] != '{' && a[0] != '}');
        assert forall|k: int| 0 <= k < a.drop_first().len() implies #[trigger] a.drop_first()[k]
            != '{' && a.drop_first()[k] != '}' by {
            assert(a.drop_first()[k] == a[k + 1]);
        }
        lemma_line_state_free(a.drop_first(), d, st);
    }
}

/// Once a `{` was seen, the state after a line is its balance added.
pub proof fn lemma_line_state_started(l: Seq<char>, d: int)
    ensures
        line_state(l, d, true) == (d + brace_balance(l), true),
    decreases l.len(),
{
    if l.len() > 0 {
        lemma_balance_first(l);
        lemma_line_state_started(l.drop_first(), d + brace_delta(l[0]));
    } else {
        assert(brace_balance(l) == 0);
    }
}

proof fn lemma_tabs_free()
    ensures
        brace_free(tab3()),
        brace_free(tab2()),
        brace_balance(tab3()) == 0,
        brace_balance(tab2()) == 0,
{
    assert(brace_free(tab3())) by {
        assert(tab3()[0] == '\t' && tab3()[1] == '\t' && tab3()[2] == '\t');
    }
    assert(brace_free(tab2())) by {
        assert(tab2()[0] == '\t' && tab2()[1] == '\t');
    }
    lemma_brace_free_balance(tab3());
    lemma_brace_free_balance(tab2());
}

/// A written inside line has the balance of its trimmed piece.
proof fn lemma_inner_balance(l: Seq<char>)
    ensures
        brace_balance(inner_line(l)) == brace_balance(trim(l)),
{
    lemma_tabs_free();
    lemma_balance_concat(tab3(), trim(l));
}

proof fn lemma_close_state()
    ensures
        line_state(raw_close(), 1, true) == (0int, true),
        trim(raw_close()).len() <= 1,
        plain_line(raw_close()),
{
    lemma_line_state_started(raw_close(), 1);
    assert(raw_close() =~= tab2() + seq!['}']);
    lemma_tabs_free();
    lemma_balance_concat(tab2(), seq!['}']);
    crate::roundtrip::lemma_balance_one('}');
    crate::roundtrip::lemma_trim_start_ws(tab2(), seq!['}']);
    assert(all_ws(tab2())) by {
        assert(tab2()[0] == '\t' && tab2()[1] == '\t');
    }
    assert(trim_start(seq!['}']) == seq!['}']);
    assert(trim_end(seq!['}']) == seq!['}']);
    assert(raw_close().last() == '}');
}

/// Over the written inside lines of a block whose braces nest, the block goes
/// on to its closing line.
proof fn lemma_block_lines_inner(
    ls: Seq<Seq<char>>,
    j: int,
    ps: Seq<Seq<char>>,
    dn: int,
    acc: Seq<Seq<char>>,
)
    requires
        0 <= j,
        j + ps.len() < ls.len(),
        dn >= 0,
        forall|t: int| 0 <= t < ps.len() ==> ls[j + t] == inner_line(#[trigger] ps[t]),
        ls[j + ps.len()] == raw_close(),
        nest_from(ps, dn),
    ensures
        block_lines_from(ls, j, 1 + dn, true, acc) == Some(acc + ls.subrange(j, j + ps.len() + 1)),
    decreases ps.len(),
{
    if ps.len() == 0 {
        lemma_close_state();
        assert(acc.push(ls[j]) =~= acc + ls.subrange(j, j + 1));
    } else {
        let p0 = ps[0];
        assert(ls[j + 0] == inner_line(ps[0]));
        lemma_line_state_started(ls[j], 1 + dn);
        lemma_inner_balance(p0);
        assert(trim(p0).take(trim(p0).len() as int) =~= trim(p0));
        let dn2 = dn + brace_balance(trim(p0));
        assert(dn2 >= 0);
        let rest = ps.drop_first();
        assert forall|t: int| 0 <= t < rest.len() implies ls[(j + 1) + t] == inner_line(
            #[trigger] rest[t],
        ) by {
            assert(rest[t] == ps[t + 1]);
            assert(ls[j + (t + 1)] == inner_line(ps[t + 1]));
        }
        lemma_block_lines_inner(ls, j + 1, rest, dn2, acc.push(ls[j]));
        assert(acc.push(ls[j]) + ls.subrange(j + 1, j + 1 + rest.len() + 1) =~= acc + ls.subrange(
            j,
            j + ps.len() + 1,
        ));
    }
}

/// Joining `["", ls.., x]` puts a line break before each line of `ls` and
/// before `x`.
proof fn lemma_join_framed(ls: Seq<Seq<char>>, x: Seq<char>)
    ensures
        join_lines(seq![Seq::<char>::empty()] + ls + seq![x]) == seq!['\n'] + unlines(ls) + x,
    decreases ls.len(),
{
    let e = Seq::<char>::empty();
    let all = seq![e] + ls + seq![x];
    assert(all.drop_last() =~= seq![e] + ls);
    assert(all.last() == x);
    if ls.len() == 0 {
        assert(seq![e] + ls =~= seq![e]);
        assert(join_lines(seq![e]) == e);
        assert(unlines(ls) =~= Seq::<char>::empty());
        assert(join_lines(all) =~= seq!['\n'] + unlines(ls) + x);
    } else {
        let init = ls.drop_last();
        let y = ls.last();
        assert(seq![e] + ls =~= seq![e] + init + seq![y]);
        lemma_join_framed(init, y);
        assert(ls =~= init + seq![y]);
        lemma_unlines_concat(init, seq![y]);
        lemma_unlines_one(y);
        assert(join_lines(all) =~= seq!['\n'] + unlines(ls) + x);
    }
}

/// The written raw block `key`, at the head of the lines, reads back as
/// [`raw_reread`].
pub proof fn lemma_block_reads(key: Seq<char>, r: Seq<char>, tail: Seq<Seq<char>>)
    requires
        key_text_ok(key),
        nest_from(raw_pieces(r), 0),
    ensures
        block_as_text(raw_block_lines(key, r) + tail, key) == Some(raw_reread(r)),
        block_text_ok(raw_block_lines(key, r) + tail, key),
{
    lemma_key_line(key);
    let kl = entry_line(raw_open(key));
    let ps = raw_pieces(r);
    let il = inner_lines(ps);
    let b = raw_block_lines(key, r);
    let ls = b + tail;
    let m = ps.len() as int;
    assert(ls[0] == kl);
    assert(has_key(kv(key, seq!['{']), key));
    assert(first_key_line(ls, key) == Some(0int));
    let t = trim(ls[0]);
    assert(!t.contains('}'));
    // The block's lines.
    assert forall|i: int| 0 <= i < m implies ls[1 + i] == inner_line(#[trigger] ps[i]) by {
        assert(ls[1 + i] == b[1 + i]);
        assert(b[1 + i] == il[i]);
    }
    assert(ls[1 + m] == raw_close());
    lemma_block_lines_inner(ls, 1, ps, 0, seq![kl]);
    assert(block_lines_from(ls, 0, 0, false, Seq::empty()) == block_lines_from(
        ls,
        1,
        1,
        true,
        seq![kl],
    )) by {
        assert(Seq::<Seq<char>>::empty().push(kl) =~= seq![kl]);
    }
    assert(seq![kl] + ls.subrange(1, 1 + m + 1) =~= b);
    // Cutting the braces.
    let e = Seq::<char>::empty();
    assert(kl.skip(kl.len() as int) =~= e);
    let c1 = cut_first_open(b);
    assert(c1 =~= seq![e] + il + seq![raw_close()]);
    lemma_rfind_char(raw_close(), '}');
    assert(raw_close().last() == '}');
    assert(rfind_char(raw_close(), '}') == Some(2int));
    assert(raw_close().take(2) =~= tab2());
    let c2 = cut_last_close(c1);
    assert(c2 =~= seq![e] + il + seq![tab2()]);
    lemma_join_framed(il, tab2());
}

/// A raw block that `write_block` writes under a key without whitespace, `=`,
/// `{` or `}` ([`key_text_ok`]), with braces that nest, reads back through `extract_block_as_text` as
/// its inside lines re-indented ([`raw_reread`]).
pub proof fn lemma_written_block_reads(key: Seq<char>, r: Seq<char>)
    requires
        key_text_ok(key),
        nest_from(raw_pieces(r), 0),
    ensures
        block_text_ok(lines(block_text(key, Some(r))), key),
        block_as_text(lines(block_text(key, Some(r))), key) == Some(raw_reread(r)),
{
    let b = raw_block_lines(key, r);
    lemma_block_text_lines(key, r);
    lemma_key_line(key);
    lemma_close_state();
    lemma_inner_lines_plain(r);
    let il = inner_lines(raw_pieces(r));
    assert forall|i: int| 0 <= i < b.len() implies plain_line(#[trigger] b[i]) by {
        if i == 0 {
            assert(b[i] == entry_line(raw_open(key)));
        } else if i < b.len() - 1 {
            assert(b[i] == il[i - 1]);
        } else {
            assert(b[i] == raw_close());
        }
    }
    crate::roundtrip::lemma_lines_unlines(b, Seq::<char>::empty());
    assert(unlines(b) + Seq::<char>::empty() =~= unlines(b));
    assert(lines(Seq::<char>::empty()) =~= Seq::<Seq<char>>::empty());
    assert(b + Seq::<Seq<char>>::empty() =~= b);
    lemma_block_reads(key, r, Seq::<Seq<char>>::empty());
}

/// A raw block in the form that the writer writes: `{`, each line after three
/// tabs, and `\t\t}`.
pub open spec fn written_raw(ls: Seq<Seq<char>>) -> Seq<char> {
    seq!['{', '\n'] + unlines(inner_lines(ls)) + tab2() + seq!['}']
}

/// Lines that [`written_raw`] gives back unchanged once written and read:
/// at least one, none holding a line break, each its own trim, the first and
/// the last not empty.
pub open spec fn written_lines_ok(ls: Seq<Seq<char>>) -> bool {
    &&& ls.len() > 0
    &&& forall|i: int| 0 <= i < ls.len() ==> no_newline(#[trigger] ls[i]) && trim(ls[i]) == ls[i]
    &&& ls[0].len() > 0
    &&& ls.last().len() > 0
}

proof fn lemma_tab_trim()
    ensures
        trim(tab2()) == Seq::<char>::empty(),
        trim(Seq::<char>::empty()) == Seq::<char>::empty(),
        all_ws(tab2()),
        all_ws(tab3()),
{
    assert(all_ws(tab2())) by {
        assert(tab2()[0] == '\t' && tab2()[1] == '\t');
    }
    assert(all_ws(tab3())) by {
        assert(tab3()[0] == '\t' && tab3()[1] == '\t' && tab3()[2] == '\t');
    }
    crate::roundtrip::lemma_trim_start_ws(tab2(), Seq::<char>::empty());
    assert(tab2() + Seq::<char>::empty() =~= tab2());
}

/// A trimmed, non-empty line has no whitespace at its ends.
proof fn lemma_trimmed_solid(l: Seq<char>)
    requires
        l.len() > 0,
        trim(l) == l,
    ensures
        crate::roundtrip::solid(l),
{
    let (a, b) = lemma_trim_sub(l);
}

/// The written lines of trimmed lines are those lines after three tabs.
proof fn lemma_inner_lines_fixed(ls: Seq<Seq<char>>)
    requires
        forall|i: int| 0 <= i < ls.len() ==> no_newline(#[trigger] ls[i]) && trim(ls[i]) == ls[i],
    ensures
        inner_lines(inner_lines(ls)) == inner_lines(ls),
        plain_lines(inner_lines(ls)),
{
    assert forall|i: int| 0 <= i < ls.len() implies #[trigger] inner_lines(inner_lines(ls))[i]
        == inner_lines(ls)[i] && plain_line(inner_lines(ls)[i]) by {
        assert(no_newline(ls[i]));
        lemma_inner_line(ls[i]);
    }
    assert(inner_lines(inner_lines(ls)) =~= inner_lines(ls));
}

/// The written lines of lines that are not empty start with three tabs and
/// the first line, and end with the last line and a line break.
proof fn lemma_unlines_ends(ls: Seq<Seq<char>>)
    requires
        written_lines_ok(ls),
    ensures
        unlines(inner_lines(ls)).len() >= 5,
        unlines(inner_lines(ls)).take(3) == tab3(),
        unlines(inner_lines(ls))[3] == ls[0][0],
        unlines(inner_lines(ls)).last() == '\n',
        unlines(inner_lines(ls))[unlines(inner_lines(ls)).len() - 2] == ls.last().last(),
{
    let il = inner_lines(ls);
    assert(il[0] == tab3() + ls[0]);
    assert(il.last() == tab3() + ls.last());
    assert(il =~= seq![il[0]] + il.drop_first());
    lemma_unlines_cons(il[0], il.drop_first());
    assert(il =~= il.drop_last() + seq![il.last()]);
    lemma_unlines_concat(il.drop_last(), seq![il.last()]);
    lemma_unlines_one(il.last());
    let u = unlines(il);
    assert(u.take(3) =~= tab3());
}

/// A raw block already in its written form reads back as itself.
pub proof fn lemma_written_raw_reread(ls: Seq<Seq<char>>)
    requires
        written_lines_ok(ls),
    ensures
        raw_reread(written_raw(ls)) == written_raw(ls),
        raw_pieces(written_raw(ls)) == seq![Seq::<char>::empty()] + inner_lines(ls) + seq![tab2()],
{
    let e = Seq::<char>::empty();
    let il = inner_lines(ls);
    let s = written_raw(ls);
    lemma_tab_trim();
    lemma_inner_lines_fixed(ls);
    // The stored text is its own trim, and its inside is the written lines
    // after an empty line, followed by two tabs.
    assert(s[0] == '{');
    assert(s.last() == '}');
    crate::roundtrip::lemma_trim_solid(s);
    assert(block_inner(trim(s)) =~= seq!['\n'] + unlines(il) + tab2());
    lemma_unlines_cons(e, il);
    assert(seq!['\n'] + unlines(il) + tab2() =~= unlines(seq![e] + il) + tab2());
    assert(plain_lines(seq![e] + il)) by {
        assert forall|i: int| 0 <= i < (seq![e] + il).len() implies plain_line(
            #[trigger] (seq![e] + il)[i],
        ) by {
            if i > 0 {
                assert((seq![e] + il)[i] == il[i - 1]);
            }
        }
    }
    crate::roundtrip::lemma_lines_unlines(seq![e] + il, tab2());
    crate::text::lemma_find_char_none(tab2(), '\n');
    assert(lines(tab2()) =~= seq![tab2()]);
    let ps = raw_pieces(s);
    assert(ps =~= seq![e] + il + seq![tab2()]);
    // Written again, the pieces are the written lines between two lines of
    // three tabs.
    assert(inner_line(e) =~= tab3());
    assert(inner_line(tab2()) =~= tab3());
    assert(inner_lines(ps) =~= seq![tab3()] + il + seq![tab3()]) by {
        assert forall|i: int| 0 <= i < ps.len() implies #[trigger] inner_lines(ps)[i] == (seq![tab3()]
            + il + seq![tab3()])[i] by {
            if 0 < i < ps.len() - 1 {
                assert(ps[i] == il[i - 1]);
                assert(inner_lines(il)[i - 1] == il[i - 1]);
            }
        }
    }
    lemma_unlines_cons(tab3(), il + seq![tab3()]);
    lemma_unlines_concat(il, seq![tab3()]);
    lemma_unlines_one(tab3());
    assert(seq![tab3()] + il + seq![tab3()] =~= seq![tab3()] + (il + seq![tab3()]));
    // The written lines are three tabs, the text `m`, and a line break.
    let u = unlines(il);
    lemma_unlines_ends(ls);
    let m = u.subrange(3, u.len() - 1);
    assert(u =~= tab3() + m + seq!['\n']);
    lemma_trimmed_solid(ls[0]);
    lemma_trimmed_solid(ls.last());
    assert(m[0] == ls[0][0]);
    assert(m.last() == ls.last().last());
    assert(crate::roundtrip::solid(m));
    let w1 = seq!['\n'] + tab3() + seq!['\n'] + tab3();
    let w2 = seq!['\n'] + tab3() + seq!['\n'] + tab2();
    assert(all_ws(w1));
    assert(all_ws(w2));
    assert(seq!['\n'] + unlines(inner_lines(ps)) + tab2() =~= w1 + m + w2);
    crate::roundtrip::lemma_trim_start_ws(w1, m + w2);
    assert(w1 + m + w2 =~= w1 + (m + w2));
    assert(trim_start(m + w2) =~= m + w2);
    crate::roundtrip::lemma_trim_end_ws(m, w2);
    assert(trim_end(m) =~= m);
    assert(trim(w1 + m + w2) =~= m);
    reveal_strlit("{\n\t\t\t");
    reveal_strlit("\n\t\t}");
    assert(s =~= "{\n\t\t\t"@ + m + "\n\t\t}"@);
}

/// Nesting reads only the trimmed lines.
proof fn lemma_nest_trim_eq(x: Seq<Seq<char>>, y: Seq<Seq<char>>, d: int)
    requires
        x.len() == y.len(),
        forall|i: int| 0 <= i < x.len() ==> trim(#[trigger] x[i]) == trim(y[i]),
    ensures
        nest_from(x, d) == nest_from(y, d),
    decreases x.len(),
{
    if x.len() > 0 {
        assert(trim(x[0]) == trim(y[0]));
        assert forall|i: int| 0 <= i < x.drop_first().len() implies trim(
            #[trigger] x.drop_first()[i],
        ) == trim(y.drop_first()[i]) by {
            assert(x.drop_first()[i] == x[i + 1]);
            assert(y.drop_first()[i] == y[i + 1]);
        }
        lemma_nest_trim_eq(x.drop_first(), y.drop_first(), d + crate::roundtrip::brace_balance(trim(x[0])));
    }
}

/// A blank line after nesting lines keeps them nesting.
proof fn lemma_nest_blank(a: Seq<Seq<char>>, z: Seq<char>, d: int)
    requires
        trim(z).len() == 0,
        nest_from(a, d),
    ensures
        nest_from(a + seq![z], d),
    decreases a.len(),
{
    if a.len() == 0 {
        assert(a + seq![z] =~= seq![z]);
        assert(seq![z].drop_first() =~= Seq::<Seq<char>>::empty());
        assert(trim(z) =~= Seq::<char>::empty());
        assert forall|k: int| 0 <= k <= trim(seq![z][0]).len() implies d
            + crate::roundtrip::brace_balance(#[trigger] trim(seq![z][0]).take(k)) >= 0 by {
            assert(trim(seq![z][0]).take(k) =~= Seq::<char>::empty());
        }
        assert(crate::roundtrip::brace_balance(trim(z)) == 0);
        assert(nest_from(seq![z].drop_first(), d + crate::roundtrip::brace_balance(trim(seq![z][0]))));
    } else {
        lemma_nest_blank(a.drop_first(), z, d + crate::roundtrip::brace_balance(trim(a[0])));
        assert((a + seq![z]).drop_first() =~= a.drop_first() + seq![z]);
        assert((a + seq![z])[0] == a[0]);
    }
}

/// Lines in written form whose braces nest, written by `write_block` under a
/// key without whitespace, `=`, `{` or `}`, read back through
/// `extract_block_as_text` as exactly the block that was written.
pub proof fn lemma_written_block_gives_back(key: Seq<char>, ls: Seq<Seq<char>>)
    requires
        key_text_ok(key),
        written_lines_ok(ls),
        nest_from(ls, 0),
    ensures
        block_text_ok(lines(block_text(key, Some(written_raw(ls)))), key),
        block_as_text(lines(block_text(key, Some(written_raw(ls)))), key) == Some(written_raw(ls)),
{
    let e = Seq::<char>::empty();
    let il = inner_lines(ls);
    lemma_written_raw_reread(ls);
    lemma_tab_trim();
    assert forall|i: int| 0 <= i < il.len() implies trim(#[trigger] il[i]) == trim(ls[i]) by {
        assert(no_newline(ls[i]));
        lemma_inner_line(ls[i]);
    }
    lemma_nest_trim_eq(il, ls, 0);
    lemma_nest_blank(il, tab2(), 0);
    let ps = seq![e] + il + seq![tab2()];
    assert(ps.drop_first() =~= il + seq![tab2()]);
    assert(ps[0] == e);
    assert forall|k: int| 0 <= k <= trim(ps[0]).len() implies 0 + crate::roundtrip::brace_balance(
        #[trigger] trim(ps[0]).take(k),
    ) >= 0 by {
        assert(trim(ps[0]).take(k) =~= e);
    }
    assert(crate::roundtrip::brace_balance(trim(ps[0])) == 0);
    assert(nest_from(ps, 0));
    lemma_written_block_reads(key, written_raw(ls));
}

// ------------------------------------------------------------------------
// Lines that start no raw block
// ------------------------------------------------------------------------

/// No line, trimmed, starts with `key`.
pub open spec fn no_key_lines(ls: Seq<Seq<char>>, key: Seq<char>) -> bool {
    forall|i: int| 0 <= i < ls.len() ==> !has_key(trim(#[trigger] ls[i]), key)
}

pub proof fn lemma_first_key_line_skip(a: Seq<Seq<char>>, b: Seq<Seq<char>>, key: Seq<char>)
    requires
        no_key_lines(a, key),
    ensures
        first_key_line(a + b, key) == match first_key_line(b, key) {
            Some(i) => Some(i + a.len()),
            None => None::<int>,
        },
    decreases a.len(),
{
    if a.len() == 0 {
        assert(a + b =~= b);
    } else {
        assert((a + b)[0] == a[0]);
        assert((a + b).drop_first() =~= a.drop_first() + b);
        assert(no_key_lines(a.drop_first(), key)) by {
            assert forall|i: int| 0 <= i < a.drop_first().len() implies !has_key(
                trim(#[trigger] a.drop_first()[i]),
                key,
            ) by {
                assert(a.drop_first()[i] == a[i + 1]);
            }
        }
        lemma_first_key_line_skip(a.drop_first(), b, key);
    }
}

proof fn lemma_no_key_concat(a: Seq<Seq<char>>, b: Seq<Seq<char>>, key: Seq<char>)
    requires
        no_key_lines(a, key),
        no_key_lines(b, key),
    ensures
        no_key_lines(a + b, key),
{
    assert forall|i: int| 0 <= i < (a + b).len() implies !has_key(trim(#[trigger] (a + b)[i]), key)
        by {
        if i < a.len() {
            assert((a + b)[i] == a[i]);
        } else {
            assert((a + b)[i] == b[i - a.len()]);
        }
    }
}

proof fn lemma_inert_concat(a: Seq<Seq<char>>, b: Seq<Seq<char>>)
    requires
        inert(a),
        inert(b),
    ensures
        inert(a + b),
{
    assert forall|i: int| 0 <= i < (a + b).len() implies quiet_line(trim(#[trigger] (a + b)[i]))
        by {
        if i < a.len() {
            assert((a + b)[i] == a[i]);
        } else {
            assert((a + b)[i] == b[i - a.len()]);
        }
    }
}

proof fn lemma_plain_concat2(a: Seq<Seq<char>>, b: Seq<Seq<char>>)
    requires
        plain_lines(a),
        plain_lines(b),
    ensures
        plain_lines(a + b),
{
    assert forall|i: int| 0 <= i < (a + b).len() implies plain_line(#[trigger] (a + b)[i]) by {
        if i < a.len() {
            assert((a + b)[i] == a[i]);
        } else {
            assert((a + b)[i] == b[i - a.len()]);
        }
    }
}

/// The lines of a written raw block give no plain field, start no other raw
/// block, and are plain lines.
pub proof fn lemma_block_quiet(key: Seq<char>, r: Seq<char>, other: Seq<char>)
    requires
        raw_key(key),
        raw_key(other),
        other != key,
        raw_ok(r),
    ensures
        inert(raw_block_lines(key, r)),
        no_key_lines(raw_block_lines(key, r), other),
        plain_lines(raw_block_lines(key, r)),
{
    lemma_open_line(key);
    lemma_close_state();
    lemma_inner_lines_plain(r);
    lemma_raw_key(other);
    lemma_short_no_key(trim(raw_close()), other);
    let b = raw_block_lines(key, r);
    let ps = raw_pieces(r);
    let il = inner_lines(ps);
    assert forall|i: int| 0 <= i < b.len() implies quiet_line(trim(#[trigger] b[i])) && !has_key(
        trim(b[i]),
        other,
    ) && plain_line(b[i]) by {
        if i == 0 {
            assert(b[i] == entry_line(raw_open(key)));
        } else if i < b.len() - 1 {
            assert(b[i] == il[i - 1]);
            assert(raw_line_ok(trim(ps[i - 1])));
        } else {
            assert(b[i] == raw_close());
        }
    }
}

// ------------------------------------------------------------------------
// The raw blocks of a focus
// ------------------------------------------------------------------------

/// Each raw block of the focus is [`raw_ok`].
pub open spec fn raws_ok(n: NodeView) -> bool {
    &&& opt_raw_ok(n.available_raw)
    &&& opt_raw_ok(n.bypass_raw)
    &&& opt_raw_ok(n.completion_reward_raw)
    &&& opt_raw_ok(n.immediate_raw)
    &&& opt_raw_ok(n.ai_will_do_raw)
}

proof fn lemma_opt_block(key: Seq<char>, o: Option<Seq<char>>, other: Seq<char>)
    requires
        raw_key(key),
        raw_key(other),
        other != key,
        opt_raw_ok(o),
    ensures
        inert(opt_block_lines(key, o)),
        no_key_lines(opt_block_lines(key, o), other),
        plain_lines(opt_block_lines(key, o)),
{
    if let Some(r) = o {
        lemma_block_quiet(key, r, other);
    }
}

proof fn lemma_read_at(
    pre: Seq<Seq<char>>,
    key: Seq<char>,
    o: Option<Seq<char>>,
    post: Seq<Seq<char>>,
    tail: Seq<Seq<char>>,
)
    requires
        raw_key(key),
        opt_raw_ok(o),
        no_key_lines(pre, key),
        no_key_lines(post, key),
        forall|i: int| 0 <= i < tail.len() ==> trim(#[trigger] tail[i]).len() <= 1,
    ensures
        block_as_text(pre + opt_block_lines(key, o) + post + tail, key) == opt_reread(o),
        block_text_ok(pre + opt_block_lines(key, o) + post + tail, key),
{
    lemma_raw_key(key);
    crate::roundtrip::lemma_short_lines(tail, key);
    lemma_first_key_line_skip(post, tail, key);
    let ob = opt_block_lines(key, o);
    match o {
        Some(r) => {
            lemma_word_key_text(key);
            lemma_block_reads(key, r, post + tail);
        },
        None => {
            assert(ob + (post + tail) =~= post + tail);
        },
    }
    let x = ob + (post + tail);
    lemma_first_key_line_skip(pre, x, key);
    crate::roundtrip::lemma_block_as_text_shift(pre, x, key);
    assert(pre + ob + post + tail =~= pre + x);
}

/// The written raw blocks of a focus, followed by short lines, give no plain
/// field and read back as [`raw_reread`].
#[verifier::spinoff_prover]
#[verifier::rlimit(40)]
pub proof fn lemma_raws_reads(n: NodeView, tail: Seq<Seq<char>>)
    requires
        raws_ok(n),
        forall|i: int| 0 <= i < tail.len() ==> trim(#[trigger] tail[i]).len() <= 1,
    ensures
        inert(raws_lines(n) + tail),
        plain_lines(raws_lines(n)),
        block_as_text(raws_lines(n) + tail, "available"@) == opt_reread(n.available_raw),
        block_as_text(raws_lines(n) + tail, "bypass"@) == opt_reread(n.bypass_raw),
        block_as_text(raws_lines(n) + tail, "completion_reward"@) == opt_reread(
            n.completion_reward_raw,
        ),
        block_as_text(raws_lines(n) + tail, "immediate"@) == opt_reread(n.immediate_raw),
        block_as_text(raws_lines(n) + tail, "ai_will_do"@) == opt_reread(n.ai_will_do_raw),
        block_text_ok(raws_lines(n) + tail, "available"@),
        block_text_ok(raws_lines(n) + tail, "bypass"@),
        block_text_ok(raws_lines(n) + tail, "completion_reward"@),
        block_text_ok(raws_lines(n) + tail, "immediate"@),
        block_text_ok(raws_lines(n) + tail, "ai_will_do"@),
{
    let ka = "available"@;
    let kb = "bypass"@;
    let kc = "completion_reward"@;
    let ki = "immediate"@;
    let kd = "ai_will_do"@;
    reveal_strlit("available");
    reveal_strlit("bypass");
    reveal_strlit("completion_reward");
    reveal_strlit("immediate");
    reveal_strlit("ai_will_do");
    assert(ka != kb && ka != kc && ka != ki && ka != kd && kb != kc && kb != ki && kb != kd && kc
        != ki && kc != kd && ki != kd) by {
        assert(ka[0] != ki[0]);
    }
    let a = opt_block_lines(ka, n.available_raw);
    let b = opt_block_lines(kb, n.bypass_raw);
    let c = opt_block_lines(kc, n.completion_reward_raw);
    let i = opt_block_lines(ki, n.immediate_raw);
    let d = opt_block_lines(kd, n.ai_will_do_raw);
    let e = Seq::<Seq<char>>::empty();
    // Which blocks start which keys.
    lemma_opt_block(ka, n.available_raw, kb);
    lemma_opt_block(ka, n.available_raw, kc);
    lemma_opt_block(ka, n.available_raw, ki);
    lemma_opt_block(ka, n.available_raw, kd);
    lemma_opt_block(kb, n.bypass_raw, ka);
    lemma_opt_block(kb, n.bypass_raw, kc);
    lemma_opt_block(kb, n.bypass_raw, ki);
    lemma_opt_block(kb, n.bypass_raw, kd);
    lemma_opt_block(kc, n.completion_reward_raw, ka);
    lemma_opt_block(kc, n.completion_reward_raw, kb);
    lemma_opt_block(kc, n.completion_reward_raw, ki);
    lemma_opt_block(kc, n.completion_reward_raw, kd);
    lemma_opt_block(ki, n.immediate_raw, ka);
    lemma_opt_block(ki, n.immediate_raw, kb);
    lemma_opt_block(ki, n.immediate_raw, kc);
    lemma_opt_block(ki, n.immediate_raw, kd);
    lemma_opt_block(kd, n.ai_will_do_raw, ka);
    lemma_opt_block(kd, n.ai_will_do_raw, kb);
    lemma_opt_block(kd, n.ai_will_do_raw, kc);
    lemma_opt_block(kd, n.ai_will_do_raw, ki);
    assert(no_key_lines(e, ka) && no_key_lines(e, kb) && no_key_lines(e, kc) && no_key_lines(e, ki)
        && no_key_lines(e, kd));
    // available
    lemma_no_key_concat(b, c, ka);
    lemma_no_key_concat(b + c, i, ka);
    lemma_no_key_concat(b + c + i, d, ka);
    lemma_read_at(e, ka, n.available_raw, b + c + i + d, tail);
    assert(e + a + (b + c + i + d) + tail =~= raws_lines(n) + tail);
    // bypass
    lemma_no_key_concat(c, i, kb);
    lemma_no_key_concat(c + i, d, kb);
    lemma_read_at(a, kb, n.bypass_raw, c + i + d, tail);
    assert(a + b + (c + i + d) + tail =~= raws_lines(n) + tail);
    // completion_reward
    lemma_no_key_concat(a, b, kc);
    lemma_no_key_concat(i, d, kc);
    lemma_read_at(a + b, kc, n.completion_reward_raw, i + d, tail);
    assert(a + b + c + (i + d) + tail =~= raws_lines(n) + tail);
    // immediate
    lemma_no_key_concat(a + b, c, ki);
    lemma_read_at(a + b + c, ki, n.immediate_raw, d, tail);
    assert(a + b + c + i + d + tail =~= raws_lines(n) + tail);
    // ai_will_do
    lemma_no_key_concat(a + b + c, i, kd);
    lemma_read_at(a + b + c + i, kd, n.ai_will_do_raw, e, tail);
    assert(a + b + c + i + d + e + tail =~= raws_lines(n) + tail);
    // Plain fields and plain lines.
    crate::roundtrip::lemma_short_lines(tail, ka);
    lemma_inert_concat(a, b);
    lemma_inert_concat(a + b, c);
    lemma_inert_concat(a + b + c, i);
    lemma_inert_concat(a + b + c + i, d);
    lemma_inert_concat(raws_lines(n), tail);
    lemma_plain_concat2(a, b);
    lemma_plain_concat2(a + b, c);
    lemma_plain_concat2(a + b + c, i);
    lemma_plain_concat2(a + b + c + i, d);
}

// ------------------------------------------------------------------------
// Brace depth over written raw blocks
// ------------------------------------------------------------------------

/// A prefix of brace-free text balances.
proof fn lemma_free_prefix(s: Seq<char>, k: int)
    requires
        brace_free(s),
        0 <= k <= s.len(),
    ensures
        brace_free(s.take(k)),
        brace_balance(s.take(k)) == 0,
{
    assert forall|i: int| 0 <= i < s.take(k).len() implies {
        let c = #[trigger] s.take(k)[i];
        c != '{' && c != '}' && c != '#' && c != '"'
    } by {
        assert(s.take(k)[i] == s[i]);
    }
    lemma_brace_free_balance(s.take(k));
}

/// Each prefix of a written inside line balances as a prefix of its piece.
proof fn lemma_inner_prefix(p: Seq<char>, k: int)
    requires
        0 <= k <= inner_line(p).len(),
    ensures
        k <= 3 ==> brace_balance(inner_line(p).take(k)) == 0,
        k > 3 ==> brace_balance(inner_line(p).take(k)) == brace_balance(trim(p).take(k - 3)),
{
    lemma_tabs_free();
    let l = inner_line(p);
    if k <= 3 {
        assert(l.take(k) =~= tab3().take(k));
        lemma_free_prefix(tab3(), k);
    } else {
        assert(l.take(k) =~= tab3() + trim(p).take(k - 3));
        lemma_balance_concat(tab3(), trim(p).take(k - 3));
    }
}

/// Scanning the written inside lines from a depth at least one above the
/// nesting depth `dn`.
proof fn lemma_inner_scan(ps: Seq<Seq<char>>, dn: int, base: int)
    requires
        base >= 1,
        dn >= 0,
        nest_from(ps, dn),
        forall|i: int| 0 <= i < ps.len() ==> raw_line_ok(trim(#[trigger] ps[i])),
        forall|i: int, k: int| 0 <= i < ps.len() && 0 <= k < ps[i].len() ==> #[trigger] ps[i][k] != '\n',
    ensures
        tscan(unlines(inner_lines(ps)), base + dn),
        brace_balance(unlines(inner_lines(ps))) == -dn,
    decreases ps.len(),
{
    if ps.len() == 0 {
        assert(inner_lines(ps) =~= Seq::<Seq<char>>::empty());
        assert(unlines(inner_lines(ps)) =~= Seq::<char>::empty());
        assert(brace_balance(Seq::<char>::empty()) == 0);
    } else {
        let p0 = ps[0];
        let t = trim(p0);
        let dn2 = dn + brace_balance(t);
        assert(raw_line_ok(trim(ps[0])));
        assert(t.take(t.len() as int) =~= t);
        assert(dn2 >= 0);
        let rest = ps.drop_first();
        assert forall|i: int| 0 <= i < rest.len() implies raw_line_ok(trim(#[trigger] rest[i])) by {
            assert(rest[i] == ps[i + 1]);
        }
        assert forall|i: int, k: int| 0 <= i < rest.len() && 0 <= k < rest[i].len() implies #[trigger] rest[i][k]
            != '\n' by {
            assert(rest[i] == ps[i + 1]);
            assert(ps[i + 1][k] != '\n');
        }
        lemma_inner_scan(rest, dn2, base);
        let u = unlines(inner_lines(rest));
        // The line break and the lines after.
        let x = seq!['\n'] + u;
        assert(brace_free(seq!['\n'])) by {
            assert(seq!['\n'][0] == '\n');
        }
        crate::roundtrip::lemma_brace_free(seq!['\n'], base + dn2);
        lemma_scan_tscan(seq!['\n'], base + dn2);
        lemma_tscan_concat(seq!['\n'], u, base + dn2);
        lemma_balance_concat(seq!['\n'], u);
        // The piece itself.
        assert forall|k: int| 0 <= k < p0.len() implies #[trigger] p0[k] != '\n' by {
            assert(ps[0][k] != '\n');
        }
        lemma_trim_no_newline(p0);
        assert forall|k: int| 0 <= k <= t.len() implies base + dn + brace_balance(#[trigger] t.take(k))
            >= 1 by {
            assert(dn + brace_balance(trim(ps[0]).take(k)) >= 0);
        }
        lemma_tok_tscan(t, base + dn, x);
        // The tabs in front.
        lemma_tabs_free();
        crate::roundtrip::lemma_brace_free(tab3(), base + dn);
        lemma_scan_tscan(tab3(), base + dn);
        lemma_tscan_concat(tab3(), t + x, base + dn);
        assert(inner_lines(ps) =~= seq![inner_line(p0)] + inner_lines(rest));
        lemma_unlines_cons(inner_line(p0), inner_lines(rest));
        assert(unlines(inner_lines(ps)) =~= tab3() + (t + x));
        lemma_balance_concat(t, x);
        lemma_balance_concat(tab3(), t + x);
    }
}

/// The closing line of a raw block and its line break, scanned from above one.
proof fn lemma_raw_close_scan(d: int)
    requires
        d >= 2,
    ensures
        tscan(raw_close() + seq!['\n'], d),
        brace_balance(raw_close() + seq!['\n']) == -1,
{
    let cs = raw_close() + seq!['\n'];
    assert(cs =~= seq!['\t', '\t', '}', '\n']);
    assert(scan_ok(cs, d) && brace_balance(cs) == -1) by {
        assert(cs.take(0) =~= Seq::<char>::empty());
        assert(cs.take(1) =~= seq!['\t']);
        assert(cs.take(2) =~= seq!['\t', '\t']);
        assert(cs.take(3) =~= seq!['\t', '\t', '}']);
        assert(seq!['\t'].drop_last() =~= Seq::<char>::empty());
        assert(seq!['\t', '\t'].drop_last() =~= seq!['\t']);
        assert(seq!['\t', '\t', '}'].drop_last() =~= seq!['\t', '\t']);
        assert(cs.drop_last() =~= seq!['\t', '\t', '}']);
        crate::roundtrip::lemma_balance_one('\t');
        assert(brace_balance(seq!['\t']) == 0);
        assert(brace_balance(seq!['\t', '\t']) == 0);
        assert(brace_balance(seq!['\t', '\t', '}']) == -1);
    }
    lemma_scan_tscan(cs, d);
}

/// Scanning a written raw block from a positive depth comes back to it.
#[verifier::spinoff_prover]
#[verifier::rlimit(40)]
pub proof fn lemma_block_scan(key: Seq<char>, r: Seq<char>, d: int)
    requires
        raw_key(key),
        raw_ok(r),
        d >= 1,
    ensures
        lines_scan(raw_block_lines(key, r), d),
{
    lemma_raw_key(key);
    let e = raw_open(key);
    let kl = entry_line(e);
    assert(entry_ok(e)) by {
        assert(tab2()[0] == '\t' && tab2()[1] == '\t');
        assert(seq!['{'][0] == '{');
    }
    crate::roundtrip::lemma_balance_one('{');
    assert(value_scan(seq!['{'])) by {
        assert(seq!['{'].take(0) =~= Seq::<char>::empty());
        assert(seq!['{'].take(1) =~= seq!['{']);
    }
    lemma_entry_scan(e, d);
    lemma_scan_tscan(kl + seq!['\n'], d);
    let ps = raw_pieces(r);
    let il = inner_lines(ps);
    lemma_lines_no_newline(block_inner(trim(r)));
    lemma_inner_scan(ps, 0, d + 1);
    let u = unlines(il);
    let cs = raw_close() + seq!['\n'];
    lemma_raw_close_scan(d + 1);
    let b = raw_block_lines(key, r);
    assert(b =~= seq![kl] + (il + seq![raw_close()]));
    lemma_unlines_cons(kl, il + seq![raw_close()]);
    lemma_unlines_concat(il, seq![raw_close()]);
    lemma_unlines_one(raw_close());
    lemma_tscan_concat(u, cs, d + 1);
    lemma_balance_concat(u, cs);
    lemma_tscan_concat(kl + seq!['\n'], u + cs, d);
    lemma_balance_concat(kl + seq!['\n'], u + cs);
    assert(unlines(b) =~= (kl + seq!['\n']) + (u + cs));
}

proof fn lemma_opt_block_scan(key: Seq<char>, o: Option<Seq<char>>, d: int)
    requires
        raw_key(key),
        opt_raw_ok(o),
        d >= 1,
    ensures
        lines_scan(opt_block_lines(key, o), d),
{
    match o {
        Some(r) => lemma_block_scan(key, r, d),
        None => {
            assert(unlines(opt_block_lines(key, o)) =~= Seq::<char>::empty());
            assert(brace_balance(Seq::<char>::empty()) == 0);
        },
    }
}

/// Scanning the written raw blocks of a focus from a positive depth comes
/// back to it.
pub proof fn lemma_raws_scan(n: NodeView, d: int)
    requires
        raws_ok(n),
        d >= 1,
    ensures
        lines_scan(raws_lines(n), d),
{
    reveal_strlit("available");
    reveal_strlit("bypass");
    reveal_strlit("completion_reward");
    reveal_strlit("immediate");
    reveal_strlit("ai_will_do");
    let a = opt_block_lines("available"@, n.available_raw);
    let b = opt_block_lines("bypass"@, n.bypass_raw);
    let c = opt_block_lines("completion_reward"@, n.completion_reward_raw);
    let i = opt_block_lines("immediate"@, n.immediate_raw);
    let e = opt_block_lines("ai_will_do"@, n.ai_will_do_raw);
    lemma_opt_block_scan("available"@, n.available_raw, d);
    lemma_opt_block_scan("bypass"@, n.bypass_raw, d);
    lemma_opt_block_scan("completion_reward"@, n.completion_reward_raw, d);
    lemma_opt_block_scan("immediate"@, n.immediate_raw, d);
    lemma_opt_block_scan("ai_will_do"@, n.ai_will_do_raw, d);
    lemma_lines_scan_concat(a, b, d);
    lemma_lines_scan_concat(a + b, c, d);
    lemma_lines_scan_concat(a + b + c, i, d);
    lemma_lines_scan_concat(a + b + c + i, e, d);
}

// ------------------------------------------------------------------------
// Finding the end of a focus block over written raw blocks
// ------------------------------------------------------------------------

proof fn lemma_line_close_from(l: Seq<char>, k: int, base: int)
    requires
        0 <= k <= l.len(),
        forall|j: int| k <= j < l.len() ==> base + brace_balance(#[trigger] l.take(j + 1)) >= 1,
    ensures
        line_close(l, k, base + brace_balance(l.take(k)), true) == (
            None::<int>,
            base + brace_balance(l),
            true,
        ),
    decreases l.len() - k,
{
    if k == l.len() {
        assert(l.take(k) =~= l);
    } else {
        let d = base + brace_balance(l.take(k));
        assert(l.take(k + 1).drop_last() =~= l.take(k));
        assert(l.take(k + 1).last() == l[k]);
        assert(base + brace_balance(l.take(k + 1)) >= 1);
        assert(brace_step(l[k], d, true) == (base + brace_balance(l.take(k + 1)), true));
        lemma_line_close_from(l, k + 1, base);
    }
}

/// A line whose prefixes keep the depth from `base` positive closes nothing.
proof fn lemma_line_open(l: Seq<char>, base: int)
    requires
        forall|j: int| 0 <= j < l.len() ==> base + brace_balance(#[trigger] l.take(j + 1)) >= 1,
    ensures
        line_close(l, 0, base, true) == (None::<int>, base + brace_balance(l), true),
{
    assert(l.take(0) =~= Seq::<char>::empty());
    assert(brace_balance(Seq::<char>::empty()) == 0);
    lemma_line_close_from(l, 0, base);
}

proof fn lemma_close_from_inner(ls: Seq<Seq<char>>, j: int, ps: Seq<Seq<char>>, dn: int)
    requires
        0 <= j,
        j + ps.len() <= ls.len(),
        dn >= 0,
        nest_from(ps, dn),
        forall|t: int| 0 <= t < ps.len() ==> ls[j + t] == inner_line(#[trigger] ps[t]),
    ensures
        close_from(ls, j, 2 + dn, true) == close_from(ls, j + ps.len(), 2, true),
    decreases ps.len(),
{
    if ps.len() > 0 {
        let p0 = ps[0];
        let t = trim(p0);
        let l = inner_line(p0);
        assert(ls[j + 0] == inner_line(ps[0]));
        assert forall|q: int| 0 <= q < l.len() implies 2 + dn + brace_balance(
            #[trigger] l.take(q + 1),
        ) >= 1 by {
            lemma_inner_prefix(p0, q + 1);
            if q + 1 > 3 {
                assert(dn + brace_balance(trim(ps[0]).take(q + 1 - 3)) >= 0);
            }
        }
        lemma_line_open(l, 2 + dn);
        lemma_inner_balance(p0);
        assert(t.take(t.len() as int) =~= t);
        let dn2 = dn + brace_balance(t);
        let rest = ps.drop_first();
        assert forall|u: int| 0 <= u < rest.len() implies ls[(j + 1) + u] == inner_line(
            #[trigger] rest[u],
        ) by {
            assert(rest[u] == ps[u + 1]);
            assert(ls[j + (u + 1)] == inner_line(ps[u + 1]));
        }
        lemma_close_from_inner(ls, j + 1, rest, dn2);
    }
}

/// The end of a focus block is not found inside a written raw block.
pub proof fn lemma_close_from_block(ls: Seq<Seq<char>>, j: int, key: Seq<char>, r: Seq<char>)
    requires
        raw_key(key),
        raw_ok(r),
        0 <= j,
        j + raw_block_lines(key, r).len() <= ls.len(),
        ls.subrange(j, j + raw_block_lines(key, r).len()) == raw_block_lines(key, r),
    ensures
        close_from(ls, j, 1, true) == close_from(ls, j + raw_block_lines(key, r).len(), 1, true),
{
    lemma_open_line(key);
    let b = raw_block_lines(key, r);
    let m = raw_pieces(r).len() as int;
    let kl = entry_line(raw_open(key));
    assert(ls[j] == ls.subrange(j, j + b.len())[0]);
    assert(ls[j] == kl);
    // The key line.
    let p = kl.len() - 1;
    assert forall|q: int| 0 <= q < kl.len() implies 1 + brace_balance(#[trigger] kl.take(q + 1))
        >= 1 by {
        if q + 1 <= p {
            assert forall|i: int| 0 <= i < kl.take(q + 1).len() implies {
                let c = #[trigger] kl.take(q + 1)[i];
                c != '{' && c != '}' && c != '#' && c != '"'
            } by {
                assert(kl.take(q + 1)[i] == kl[i]);
                if 2 <= i < 2 + key.len() {
                    lemma_raw_key(key);
                    assert(kl[i] == key[i - 2]);
                    assert(is_word_char(key[i - 2]));
                }
            }
            lemma_brace_free_balance(kl.take(q + 1));
        } else {
            assert(kl.take(q + 1) =~= kl);
            assert(kl =~= kl.take(p) + seq!['{']);
            assert forall|i: int| 0 <= i < kl.take(p).len() implies {
                let c = #[trigger] kl.take(p)[i];
                c != '{' && c != '}' && c != '#' && c != '"'
            } by {
                assert(kl.take(p)[i] == kl[i]);
                if 2 <= i < 2 + key.len() {
                    lemma_raw_key(key);
                    assert(kl[i] == key[i - 2]);
                    assert(is_word_char(key[i - 2]));
                }
            }
            lemma_brace_free_balance(kl.take(p));
            lemma_balance_concat(kl.take(p), seq!['{']);
            crate::roundtrip::lemma_balance_one('{');
        }
    }
    lemma_line_open(kl, 1);
    assert(kl.take(kl.len() as int) =~= kl);
    assert(kl =~= kl.take(p) + seq!['{']);
    assert forall|i: int| 0 <= i < kl.take(p).len() implies {
        let c = #[trigger] kl.take(p)[i];
        c != '{' && c != '}' && c != '#' && c != '"'
    } by {
        assert(kl.take(p)[i] == kl[i]);
        if 2 <= i < 2 + key.len() {
            lemma_raw_key(key);
            assert(kl[i] == key[i - 2]);
            assert(is_word_char(key[i - 2]));
        }
    }
    lemma_brace_free_balance(kl.take(p));
    lemma_balance_concat(kl.take(p), seq!['{']);
    crate::roundtrip::lemma_balance_one('{');
    assert(brace_balance(kl) == 1);
    // The inside lines.
    let ps = raw_pieces(r);
    let il = inner_lines(ps);
    assert forall|t: int| 0 <= t < m implies ls[(j + 1) + t] == inner_line(#[trigger] ps[t]) by {
        assert(ls[j + 1 + t] == ls.subrange(j, j + b.len())[1 + t]);
        assert(b[1 + t] == il[t]);
    }
    lemma_close_from_inner(ls, j + 1, ps, 0);
    // The closing line.
    let c = j + 1 + m;
    assert(ls[c] == ls.subrange(j, j + b.len())[1 + m]);
    assert(ls[c] == raw_close());
    let cl = raw_close();
    assert(cl.take(1) =~= seq!['\t']);
    assert(cl.take(2) =~= seq!['\t', '\t']);
    assert(cl.take(3) =~= cl);
    assert(seq!['\t'].drop_last() =~= Seq::<char>::empty());
    assert(seq!['\t', '\t'].drop_last() =~= seq!['\t']);
    assert(cl.drop_last() =~= seq!['\t', '\t']);
    crate::roundtrip::lemma_balance_one('\t');
    assert(brace_balance(seq!['\t']) == 0);
    assert(brace_balance(seq!['\t', '\t']) == 0);
    assert(brace_balance(cl) == -1);
    lemma_line_open(cl, 2);
}

proof fn lemma_close_from_opt(ls: Seq<Seq<char>>, j: int, key: Seq<char>, o: Option<Seq<char>>)
    requires
        raw_key(key),
        opt_raw_ok(o),
        0 <= j,
        j + opt_block_lines(key, o).len() <= ls.len(),
        ls.subrange(j, j + opt_block_lines(key, o).len()) == opt_block_lines(key, o),
    ensures
        close_from(ls, j, 1, true) == close_from(ls, j + opt_block_lines(key, o).len(), 1, true),
{
    if let Some(r) = o {
        lemma_close_from_block(ls, j, key, r);
    }
}

/// Lines standing at `j` that are `a + b`: `a` stands at `j`, `b` after it.
pub proof fn lemma_subrange_split(ls: Seq<Seq<char>>, j: int, a: Seq<Seq<char>>, b: Seq<Seq<char>>)
    requires
        0 <= j,
        j + a.len() + b.len() <= ls.len(),
        ls.subrange(j, j + a.len() + b.len()) == a + b,
    ensures
        ls.subrange(j, j + a.len()) == a,
        ls.subrange(j + a.len(), j + a.len() + b.len()) == b,
{
    assert forall|t: int| 0 <= t < a.len() implies #[trigger] ls.subrange(j, j + a.len())[t] == a[t]
        by {
        assert(ls.subrange(j, j + a.len() + b.len())[t] == (a + b)[t]);
    }
    assert forall|t: int| 0 <= t < b.len() implies #[trigger] ls.subrange(
        j + a.len(),
        j + a.len() + b.len(),
    )[t] == b[t] by {
        assert(ls.subrange(j, j + a.len() + b.len())[a.len() + t] == (a + b)[a.len() + t]);
    }
    assert(ls.subrange(j, j + a.len()) =~= a);
    assert(ls.subrange(j + a.len(), j + a.len() + b.len()) =~= b);
}

/// The end of a focus block is not found inside its written raw blocks.
#[verifier::spinoff_prover]
#[verifier::rlimit(40)]
pub proof fn lemma_close_from_raws(ls: Seq<Seq<char>>, j: int, n: NodeView)
    requires
        raws_ok(n),
        0 <= j,
        j + raws_lines(n).len() <= ls.len(),
        ls.subrange(j, j + raws_lines(n).len()) == raws_lines(n),
    ensures
        close_from(ls, j, 1, true) == close_from(ls, j + raws_lines(n).len(), 1, true),
{
    reveal_strlit("available");
    reveal_strlit("bypass");
    reveal_strlit("completion_reward");
    reveal_strlit("immediate");
    reveal_strlit("ai_will_do");
    let a = opt_block_lines("available"@, n.available_raw);
    let b = opt_block_lines("bypass"@, n.bypass_raw);
    let c = opt_block_lines("completion_reward"@, n.completion_reward_raw);
    let i = opt_block_lines("immediate"@, n.immediate_raw);
    let e = opt_block_lines("ai_will_do"@, n.ai_will_do_raw);
    lemma_subrange_split(ls, j, a + b + c + i, e);
    lemma_subrange_split(ls, j, a + b + c, i);
    lemma_subrange_split(ls, j, a + b, c);
    lemma_subrange_split(ls, j, a, b);
    lemma_close_from_opt(ls, j, "available"@, n.available_raw);
    lemma_close_from_opt(ls, j + a.len(), "bypass"@, n.bypass_raw);
    lemma_close_from_opt(ls, j + a.len() + b.len(), "completion_reward"@, n.completion_reward_raw);
    lemma_close_from_opt(ls, j + a.len() + b.len() + c.len(), "immediate"@, n.immediate_raw);
    lemma_close_from_opt(
        ls,
        j + a.len() + b.len() + c.len() + i.len(),
        "ai_will_do"@,
        n.ai_will_do_raw,
    );
}

// ------------------------------------------------------------------------
// The written text of the raw blocks of a focus
// ------------------------------------------------------------------------

proof fn lemma_opt_block_text(key: Seq<char>, o: Option<Seq<char>>)
    ensures
        block_text(key, o) == unlines(opt_block_lines(key, o)),
{
    match o {
        Some(r) => lemma_block_text_lines(key, r),
        None => {
            assert(unlines(opt_block_lines(key, o)) =~= Seq::<char>::empty());
        },
    }
}

/// The raw blocks of a written focus and its closing line are their lines.
pub proof fn lemma_blocks_text(n: NodeView, close: Seq<char>)
    requires
        "\t}\n"@ == close + seq!['\n'],
    ensures
        node_blocks_text(n) == unlines(raws_lines(n) + seq![close]),
{
    let a = opt_block_lines("available"@, n.available_raw);
    let b = opt_block_lines("bypass"@, n.bypass_raw);
    let c = opt_block_lines("completion_reward"@, n.completion_reward_raw);
    let i = opt_block_lines("immediate"@, n.immediate_raw);
    let e = opt_block_lines("ai_will_do"@, n.ai_will_do_raw);
    lemma_opt_block_text("available"@, n.available_raw);
    lemma_opt_block_text("bypass"@, n.bypass_raw);
    lemma_opt_block_text("completion_reward"@, n.completion_reward_raw);
    lemma_opt_block_text("immediate"@, n.immediate_raw);
    lemma_opt_block_text("ai_will_do"@, n.ai_will_do_raw);
    lemma_unlines_concat(a + b + c + i + e, seq![close]);
    lemma_unlines_concat(a + b + c + i, e);
    lemma_unlines_concat(a + b + c, i);
    lemma_unlines_concat(a + b, c);
    lemma_unlines_concat(a, b);
    lemma_unlines_one(close);
    assert(node_blocks_text(n) =~= unlines(raws_lines(n) + seq![close]));
}

} // verus!
