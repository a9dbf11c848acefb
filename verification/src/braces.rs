//! The braces of a written tree: the text opens as many braces as it closes,
//! beyond those that its own texts hold.
use vstd::prelude::*;
use crate::cost::{CostView, clamp_i32, cost_file_text, pad_zeros, pow10, sign_text, signed_mantissa};
use crate::model::{NodeView, TreeView};
use crate::roundtrip::{
    brace_balance, brace_delta, brace_free, lemma_balance_concat, lemma_balance_first,
    lemma_balance_one, lemma_brace_free_balance, lemma_int_text_chars, lemma_nat_text,
};
use crate::text::{all_digits, find_char, int_text, is_digit, is_ws, lemma_find_char, lines, nat_text, strip_cr, trim, trim_end, trim_start};
use crate::rawblock::{nest_from, raw_ok, raw_pieces};
use crate::roundtrip::{no_special, node_ok, shortcut_ok, tree_ok};
use crate::writer::{
    block_inner, block_text, cost_line, filters_text, indented_lines, list_lines, node_blocks_text,
    node_head_text, node_lists_text, node_text, nodes_text, opt_line, shortcut_text, shortcuts_text,
    spaced, tree_text,
};

verus! {

/// The balance of an optional text.
pub open spec fn opt_balance(o: Option<Seq<char>>) -> int {
    match o {
        Some(t) => brace_balance(t),
        None => 0,
    }
}

/// The balances of texts, added.
pub open spec fn sum_balance(v: Seq<Seq<char>>) -> int
    decreases v.len(),
{
    if v.len() == 0 {
        0
    } else {
        sum_balance(v.drop_last()) + brace_balance(v.last())
    }
}

/// The balance of all the texts of a focus.
pub open spec fn node_balance(n: NodeView) -> int {
    brace_balance(n.id) + opt_balance(n.icon) + opt_balance(n.relative_position_id) + sum_balance(
        n.prerequisites,
    ) + sum_balance(n.mutually_exclusive) + sum_balance(n.search_filters) + opt_balance(
        n.available_raw,
    ) + opt_balance(n.bypass_raw) + opt_balance(n.completion_reward_raw) + opt_balance(
        n.immediate_raw,
    ) + opt_balance(n.ai_will_do_raw)
}

pub open spec fn nodes_balance(ns: Seq<NodeView>) -> int
    decreases ns.len(),
{
    if ns.len() == 0 {
        0
    } else {
        nodes_balance(ns.drop_last()) + node_balance(ns.last())
    }
}

pub open spec fn shortcuts_balance(ss: Seq<(Seq<char>, Seq<char>)>) -> int
    decreases ss.len(),
{
    if ss.len() == 0 {
        0
    } else {
        shortcuts_balance(ss.drop_last()) + brace_balance(ss.last().0) + brace_balance(ss.last().1)
    }
}

/// The balance of all the texts of a tree.
pub open spec fn tree_balance(t: TreeView) -> int {
    brace_balance(t.id) + shortcuts_balance(t.shortcuts) + nodes_balance(t.focuses)
}

// ------------------------------------------------------------------------
// Pieces
// ------------------------------------------------------------------------

proof fn lemma_free(s: Seq<char>)
    requires
        forall|i: int| 0 <= i < s.len() ==> #[trigger] s[i] != '{' && s[i] != '}' && s[i] != '#' && s[i]
            != '"',
    ensures
        brace_balance(s) == 0,
{
    assert(brace_free(s));
    lemma_brace_free_balance(s);
}

/// Adds the balances of a concatenation of three texts.
proof fn lemma_balance3(a: Seq<char>, b: Seq<char>, c: Seq<char>)
    ensures
        brace_balance(a + b + c) == brace_balance(a) + brace_balance(b) + brace_balance(c),
{
    lemma_balance_concat(a, b);
    lemma_balance_concat(a + b, c);
}

proof fn lemma_lit_balances()
    ensures
        brace_balance("\n"@) == 0,
        brace_balance("\tid = "@) == 0,
        brace_balance("focus_tree = {\n"@) == 1,
        brace_balance("}\n"@) == -1,
        brace_balance("\t}\n"@) == -1,
        brace_balance("\t\t}\n"@) == -1,
        brace_balance("\tshortcut = {\n"@) == 1,
        brace_balance("\tfocus = {\n"@) == 1,
        brace_balance(" = {\n"@) == 1,
        brace_balance(" }\n"@) == -1,
        brace_balance("\t\tname = "@) == 0,
        brace_balance("\t\ttarget = "@) == 0,
        brace_balance("\t\tscroll_wheel_factor = 0.80\n"@) == 0,
        brace_balance("\t\tid = "@) == 0,
        brace_balance("\t\ticon = "@) == 0,
        brace_balance("\t\tx = "@) == 0,
        brace_balance("\t\ty = "@) == 0,
        brace_balance("\t\trelative_position_id = "@) == 0,
        brace_balance("\t\tcost = "@) == 0,
        brace_balance("\t\tbypass_if_unavailable = yes\n"@) == 0,
        brace_balance("\t\tprerequisite = { focus = "@) == 1,
        brace_balance("\t\tmutually_exclusive = { focus = "@) == 1,
        brace_balance("\t\tsearch_filters = { "@) == 1,
        brace_balance("\t\tsearch_filters = {"@) == 1,
        brace_balance(" "@) == 0,
        brace_balance("\t\t"@) == 0,
        brace_balance("\t\t\t"@) == 0,
        brace_balance("available"@) == 0,
        brace_balance("bypass"@) == 0,
        brace_balance("completion_reward"@) == 0,
        brace_balance("immediate"@) == 0,
        brace_balance("ai_will_do"@) == 0,
{
    lemma_lits_a();
    lemma_lits_b();
    lemma_lits_c();
}

proof fn lemma_lits_a()
    ensures
        brace_balance("\n"@) == 0,
        brace_balance("\tid = "@) == 0,
        brace_balance("focus_tree = {\n"@) == 1,
        brace_balance("}\n"@) == -1,
        brace_balance("\t}\n"@) == -1,
        brace_balance("\t\t}\n"@) == -1,
        brace_balance("\tshortcut = {\n"@) == 1,
        brace_balance("\tfocus = {\n"@) == 1,
        brace_balance(" = {\n"@) == 1,
        brace_balance(" }\n"@) == -1,
{
    reveal_strlit("\n");
    reveal_strlit("\tid = ");
    reveal_strlit("focus_tree = {\n");
    reveal_strlit("focus_tree = ");
    reveal_strlit("}\n");
    reveal_strlit("\t}\n");
    reveal_strlit("\t\t}\n");
    reveal_strlit("\tshortcut = {\n");
    reveal_strlit("\tshortcut = ");
    reveal_strlit("\tfocus = {\n");
    reveal_strlit("\tfocus = ");
    reveal_strlit(" = {\n");
    reveal_strlit(" }\n");
    lemma_free("\n"@);
    lemma_free("\tid = "@);
    lemma_free("focus_tree = "@);
    lemma_free("\tshortcut = "@);
    lemma_free("\tfocus = "@);
    lemma_free(seq!['\t']);
    lemma_free(seq!['\t', '\t']);
    lemma_free(seq![' ']);
    lemma_free(seq![' ', '=', ' ']);
    lemma_free(seq!['\n']);
    lemma_free(Seq::<char>::empty());
    lemma_balance_one('{');
    lemma_balance_one('}');
    assert("focus_tree = {\n"@ =~= "focus_tree = "@ + seq!['{'] + seq!['\n']);
    lemma_balance3("focus_tree = "@, seq!['{'], seq!['\n']);
    assert("}\n"@ =~= Seq::<char>::empty() + seq!['}'] + seq!['\n']);
    lemma_balance3(Seq::<char>::empty(), seq!['}'], seq!['\n']);
    assert("\t}\n"@ =~= seq!['\t'] + seq!['}'] + seq!['\n']);
    lemma_balance3(seq!['\t'], seq!['}'], seq!['\n']);
    assert("\t\t}\n"@ =~= seq!['\t', '\t'] + seq!['}'] + seq!['\n']);
    lemma_balance3(seq!['\t', '\t'], seq!['}'], seq!['\n']);
    assert("\tshortcut = {\n"@ =~= "\tshortcut = "@ + seq!['{'] + seq!['\n']);
    lemma_balance3("\tshortcut = "@, seq!['{'], seq!['\n']);
    assert("\tfocus = {\n"@ =~= "\tfocus = "@ + seq!['{'] + seq!['\n']);
    lemma_balance3("\tfocus = "@, seq!['{'], seq!['\n']);
    assert(" = {\n"@ =~= seq![' ', '=', ' '] + seq!['{'] + seq!['\n']);
    lemma_balance3(seq![' ', '=', ' '], seq!['{'], seq!['\n']);
    assert(" }\n"@ =~= seq![' '] + seq!['}'] + seq!['\n']);
    lemma_balance3(seq![' '], seq!['}'], seq!['\n']);
}

proof fn lemma_lits_b()
    ensures
        brace_balance("\t\tname = "@) == 0,
        brace_balance("\t\ttarget = "@) == 0,
        brace_balance("\t\tscroll_wheel_factor = 0.80\n"@) == 0,
        brace_balance("\t\tid = "@) == 0,
        brace_balance("\t\ticon = "@) == 0,
        brace_balance("\t\tx = "@) == 0,
        brace_balance("\t\ty = "@) == 0,
        brace_balance("\t\trelative_position_id = "@) == 0,
        brace_balance("\t\tcost = "@) == 0,
        brace_balance("\t\tbypass_if_unavailable = yes\n"@) == 0,
        brace_balance(" "@) == 0,
        brace_balance("\t\t"@) == 0,
        brace_balance("\t\t\t"@) == 0,
{
    reveal_strlit("\t\tname = ");
    reveal_strlit("\t\ttarget = ");
    reveal_strlit("\t\tscroll_wheel_factor = 0.80\n");
    reveal_strlit("\t\tid = ");
    reveal_strlit("\t\ticon = ");
    reveal_strlit("\t\tx = ");
    reveal_strlit("\t\ty = ");
    reveal_strlit("\t\trelative_position_id = ");
    reveal_strlit("\t\tcost = ");
    reveal_strlit("\t\tbypass_if_unavailable = yes\n");
    reveal_strlit(" ");
    reveal_strlit("\t\t");
    reveal_strlit("\t\t\t");
    lemma_free("\t\tname = "@);
    lemma_free("\t\ttarget = "@);
    lemma_free("\t\tscroll_wheel_factor = 0.80\n"@);
    lemma_free("\t\tid = "@);
    lemma_free("\t\ticon = "@);
    lemma_free("\t\tx = "@);
    lemma_free("\t\ty = "@);
    lemma_free("\t\trelative_position_id = "@);
    lemma_free("\t\tcost = "@);
    lemma_free("\t\tbypass_if_unavailable = yes\n"@);
    lemma_free(" "@);
    lemma_free("\t\t"@);
    lemma_free("\t\t\t"@);
}

proof fn lemma_lits_c()
    ensures
        brace_balance("\t\tprerequisite = { focus = "@) == 1,
        brace_balance("\t\tmutually_exclusive = { focus = "@) == 1,
        brace_balance("\t\tsearch_filters = { "@) == 1,
        brace_balance("\t\tsearch_filters = {"@) == 1,
        brace_balance("available"@) == 0,
        brace_balance("bypass"@) == 0,
        brace_balance("completion_reward"@) == 0,
        brace_balance("immediate"@) == 0,
        brace_balance("ai_will_do"@) == 0,
{
    reveal_strlit("\t\tprerequisite = { focus = ");
    reveal_strlit("\t\tprerequisite = ");
    reveal_strlit(" focus = ");
    reveal_strlit("\t\tmutually_exclusive = { focus = ");
    reveal_strlit("\t\tmutually_exclusive = ");
    reveal_strlit("\t\tsearch_filters = { ");
    reveal_strlit("\t\tsearch_filters = {");
    reveal_strlit("\t\tsearch_filters = ");
    reveal_strlit("available");
    reveal_strlit("bypass");
    reveal_strlit("completion_reward");
    reveal_strlit("immediate");
    reveal_strlit("ai_will_do");
    lemma_free("\t\tprerequisite = "@);
    lemma_free(" focus = "@);
    lemma_free("\t\tmutually_exclusive = "@);
    lemma_free("\t\tsearch_filters = "@);
    lemma_free(seq![' ']);
    lemma_free(Seq::<char>::empty());
    lemma_free("available"@);
    lemma_free("bypass"@);
    lemma_free("completion_reward"@);
    lemma_free("immediate"@);
    lemma_free("ai_will_do"@);
    lemma_balance_one('{');
    assert("\t\tprerequisite = { focus = "@ =~= "\t\tprerequisite = "@ + seq!['{'] + " focus = "@);
    lemma_balance3("\t\tprerequisite = "@, seq!['{'], " focus = "@);
    assert("\t\tmutually_exclusive = { focus = "@ =~= "\t\tmutually_exclusive = "@ + seq!['{']
        + " focus = "@);
    lemma_balance3("\t\tmutually_exclusive = "@, seq!['{'], " focus = "@);
    assert("\t\tsearch_filters = { "@ =~= "\t\tsearch_filters = "@ + seq!['{'] + seq![' ']);
    lemma_balance3("\t\tsearch_filters = "@, seq!['{'], seq![' ']);
    assert("\t\tsearch_filters = {"@ =~= "\t\tsearch_filters = "@ + seq!['{'] + Seq::<char>::empty());
    lemma_balance3("\t\tsearch_filters = "@, seq!['{'], Seq::<char>::empty());
}

/// Balances add up over concatenation.
proof fn lemma_concat_all()
    ensures
        forall|a: Seq<char>, b: Seq<char>| #[trigger]
            brace_balance(a + b) == brace_balance(a) + brace_balance(b),
{
    assert forall|a: Seq<char>, b: Seq<char>| #[trigger]
        brace_balance(a + b) == brace_balance(a) + brace_balance(b) by {
        lemma_balance_concat(a, b);
    }
}

proof fn lemma_digits_balance(t: Seq<char>)
    requires
        all_digits(t),
    ensures
        brace_balance(t) == 0,
{
    assert forall|i: int| 0 <= i < t.len() implies #[trigger] t[i] != '{' && t[i] != '}' && t[i]
        != '#' && t[i] != '"' by {
        assert(is_digit(t[i]));
    }
    lemma_free(t);
}

/// A written cost holds no brace.
proof fn lemma_cost_text_balance(v: CostView)
    ensures
        brace_balance(cost_file_text(v)) == 0,
{
    if v.2 == 0 {
        let w = clamp_i32(signed_mantissa(v));
        lemma_int_text_chars(w);
        lemma_free(int_text(w));
    } else {
        let q: nat = v.1 / pow10(v.2);
        let r: nat = v.1 % pow10(v.2);
        let a = nat_text(q);
        let b = nat_text(r);
        lemma_nat_text(q);
        lemma_nat_text(r);
        lemma_digits_balance(a);
        let p = pad_zeros(b, v.2);
        assert(all_digits(p)) by {
            if b.len() < v.2 {
                let z = Seq::new((v.2 - b.len()) as nat, |i: int| '0');
                assert forall|i: int| 0 <= i < p.len() implies #[trigger] is_digit(p[i]) by {
                    if i < z.len() {
                        assert(p[i] == '0');
                    } else {
                        assert(p[i] == b[i - z.len()]);
                        assert(is_digit(b[i - z.len()]));
                    }
                }
            }
        }
        lemma_digits_balance(p);
        lemma_free(sign_text(v));
        lemma_free(seq!['.']);
        lemma_concat_all();
    }
}

proof fn lemma_trim_start_balance(s: Seq<char>)
    ensures
        brace_balance(trim_start(s)) == brace_balance(s),
    decreases s.len(),
{
    if s.len() > 0 && is_ws(s[0]) {
        lemma_balance_first(s);
        lemma_trim_start_balance(s.drop_first());
    }
}

proof fn lemma_trim_end_balance(s: Seq<char>)
    ensures
        brace_balance(trim_end(s)) == brace_balance(s),
    decreases s.len(),
{
    if s.len() > 0 && is_ws(s.last()) {
        lemma_trim_end_balance(s.drop_last());
    }
}

proof fn lemma_trim_balance(s: Seq<char>)
    ensures
        brace_balance(trim(s)) == brace_balance(s),
{
    lemma_trim_start_balance(s);
    lemma_trim_end_balance(trim_start(s));
}

proof fn lemma_block_inner_balance(t: Seq<char>)
    ensures
        brace_balance(block_inner(t)) == brace_balance(t),
{
    if t.len() > 0 && t[0] == '{' && t.last() == '}' {
        let mid = t.subrange(1, t.len() - 1);
        assert(t =~= seq!['{'] + mid + seq!['}']);
        lemma_balance3(seq!['{'], mid, seq!['}']);
        lemma_balance_one('{');
        lemma_balance_one('}');
    }
}

proof fn lemma_sum_concat(a: Seq<Seq<char>>, b: Seq<Seq<char>>)
    ensures
        sum_balance(a + b) == sum_balance(a) + sum_balance(b),
    decreases b.len(),
{
    if b.len() == 0 {
        assert(a + b =~= a);
    } else {
        lemma_sum_concat(a, b.drop_last());
        assert((a + b).drop_last() =~= a + b.drop_last());
    }
}

proof fn lemma_sum_one(x: Seq<char>)
    ensures
        sum_balance(seq![x]) == brace_balance(x),
{
    assert(seq![x].drop_last() =~= Seq::<Seq<char>>::empty());
    assert(seq![x].last() == x);
    assert(sum_balance(Seq::<Seq<char>>::empty()) == 0);
}

/// Splitting into lines drops only line ends.
proof fn lemma_lines_balance(s: Seq<char>)
    ensures
        sum_balance(lines(s)) == brace_balance(s),
    decreases s.len(),
{
    if s.len() > 0 {
        lemma_find_char(s, '\n');
        match find_char(s, '\n') {
            None => {
                lemma_sum_one(strip_cr(s));
            },
            Some(i) => {
                let head = s.take(i);
                let rest = s.skip(i + 1);
                lemma_lines_balance(rest);
                lemma_sum_one(strip_cr(head));
                lemma_sum_concat(seq![strip_cr(head)], lines(rest));
                assert(s =~= head + seq!['\n'] + rest);
                lemma_balance3(head, seq!['\n'], rest);
                lemma_balance_one('\n');
            },
        }
    }
}

proof fn lemma_indented_balance(ls: Seq<Seq<char>>)
    ensures
        brace_balance(indented_lines(ls)) == sum_balance(ls),
    decreases ls.len(),
{
    if ls.len() > 0 {
        lemma_indented_balance(ls.drop_last());
        lemma_trim_balance(ls.last());
        lemma_lit_balances();
        lemma_concat_all();
    }
}

proof fn lemma_block_text_balance(key: Seq<char>, raw: Option<Seq<char>>)
    requires
        brace_balance(key) == 0,
    ensures
        brace_balance(block_text(key, raw)) == opt_balance(raw),
{
    if let Some(r) = raw {
        let inner = block_inner(trim(r));
        lemma_trim_balance(r);
        lemma_block_inner_balance(trim(r));
        lemma_lines_balance(inner);
        lemma_indented_balance(lines(inner));
        lemma_lit_balances();
        lemma_concat_all();
    }
}

proof fn lemma_opt_line_balance(prefix: Seq<char>, v: Option<Seq<char>>)
    requires
        brace_balance(prefix) == 0,
    ensures
        brace_balance(opt_line(prefix, v)) == opt_balance(v),
{
    lemma_lit_balances();
    lemma_concat_all();
}

proof fn lemma_list_lines_balance(prefix: Seq<char>, ids: Seq<Seq<char>>)
    requires
        brace_balance(prefix) == 1,
    ensures
        brace_balance(list_lines(prefix, ids)) == sum_balance(ids),
    decreases ids.len(),
{
    if ids.len() > 0 {
        lemma_list_lines_balance(prefix, ids.drop_last());
        lemma_lit_balances();
        lemma_concat_all();
    }
}

proof fn lemma_spaced_balance(fs: Seq<Seq<char>>)
    ensures
        brace_balance(spaced(fs)) == sum_balance(fs),
    decreases fs.len(),
{
    if fs.len() > 0 {
        lemma_spaced_balance(fs.drop_last());
        lemma_lit_balances();
        lemma_concat_all();
    }
}

proof fn lemma_filters_balance(fs: Seq<Seq<char>>)
    ensures
        brace_balance(filters_text(fs)) == sum_balance(fs),
{
    lemma_lit_balances();
    lemma_concat_all();
    if fs.len() == 1 {
        assert(fs =~= seq![fs[0]]);
        lemma_sum_one(fs[0]);
    } else if fs.len() > 1 {
        lemma_spaced_balance(fs);
    }
}

proof fn lemma_cost_line_balance(c: Option<CostView>)
    ensures
        brace_balance(cost_line(c)) == 0,
{
    if let Some(v) = c {
        lemma_cost_text_balance(v);
        lemma_lit_balances();
        lemma_concat_all();
    }
}

/// The written block of a focus opens as many braces as it closes, beyond
/// those that the focus's own texts hold.
proof fn lemma_node_text_balance(n: NodeView)
    ensures
        brace_balance(node_text(n)) == node_balance(n),
{
    lemma_lit_balances();
    lemma_concat_all();
    lemma_int_text_chars(n.x as int);
    lemma_free(int_text(n.x as int));
    lemma_int_text_chars(n.y as int);
    lemma_free(int_text(n.y as int));
    lemma_opt_line_balance("\t\ticon = "@, n.icon);
    lemma_opt_line_balance("\t\trelative_position_id = "@, n.relative_position_id);
    lemma_cost_line_balance(n.cost);
    assert(brace_balance(node_head_text(n)) == 1 + brace_balance(n.id) + opt_balance(n.icon)
        + opt_balance(n.relative_position_id));
    lemma_list_lines_balance("\t\tprerequisite = { focus = "@, n.prerequisites);
    lemma_list_lines_balance("\t\tmutually_exclusive = { focus = "@, n.mutually_exclusive);
    lemma_filters_balance(n.search_filters);
    assert(brace_balance(Seq::<char>::empty()) == 0);
    assert(brace_balance(node_lists_text(n)) == sum_balance(n.prerequisites) + sum_balance(
        n.mutually_exclusive,
    ) + sum_balance(n.search_filters));
    lemma_block_text_balance("available"@, n.available_raw);
    lemma_block_text_balance("bypass"@, n.bypass_raw);
    lemma_block_text_balance("completion_reward"@, n.completion_reward_raw);
    lemma_block_text_balance("immediate"@, n.immediate_raw);
    lemma_block_text_balance("ai_will_do"@, n.ai_will_do_raw);
    assert(brace_balance(node_blocks_text(n)) == opt_balance(n.available_raw) + opt_balance(
        n.bypass_raw,
    ) + opt_balance(n.completion_reward_raw) + opt_balance(n.immediate_raw) + opt_balance(
        n.ai_will_do_raw,
    ) - 1);
}

proof fn lemma_nodes_text_balance(ns: Seq<NodeView>)
    ensures
        brace_balance(nodes_text(ns)) == nodes_balance(ns),
    decreases ns.len(),
{
    if ns.len() == 1 {
        lemma_node_text_balance(ns[0]);
        assert(ns.drop_last() =~= Seq::<NodeView>::empty());
        assert(ns.last() == ns[0]);
        assert(nodes_balance(Seq::<NodeView>::empty()) == 0);
    } else if ns.len() > 1 {
        lemma_nodes_text_balance(ns.drop_last());
        lemma_node_text_balance(ns.last());
        lemma_lit_balances();
        lemma_concat_all();
    }
}

proof fn lemma_shortcuts_text_balance(ss: Seq<(Seq<char>, Seq<char>)>)
    ensures
        brace_balance(shortcuts_text(ss)) == shortcuts_balance(ss),
    decreases ss.len(),
{
    if ss.len() > 0 {
        lemma_shortcuts_text_balance(ss.drop_last());
        lemma_lit_balances();
        lemma_concat_all();
    }
}

/// A written tree opens as many braces as it closes, beyond those that its
/// own texts hold: the frame that the writer adds around them is balanced.
pub proof fn lemma_tree_text_balance(t: TreeView)
    ensures
        brace_balance(tree_text(t)) == tree_balance(t),
{
    lemma_shortcuts_text_balance(t.shortcuts);
    lemma_nodes_text_balance(t.focuses);
    lemma_lit_balances();
    lemma_concat_all();
    assert(brace_balance(Seq::<char>::empty()) == 0);
}

// ------------------------------------------------------------------------
// Trees that are written and read back
// ------------------------------------------------------------------------

proof fn lemma_special_free(v: Seq<char>)
    requires
        no_special(v),
    ensures
        brace_balance(v) == 0,
{
    assert forall|i: int| 0 <= i < v.len() implies #[trigger] v[i] != '{' && v[i] != '}' && v[i]
        != '#' && v[i] != '"' by {
        let c = v[i];
        assert(c != '{' && c != '}' && c != '"' && c != '#');
    }
    lemma_free(v);
}

proof fn lemma_name_free(v: Seq<char>)
    requires
        crate::roundtrip::name_ok(v),
    ensures
        brace_balance(v) == 0,
{
    assert(crate::tokscan::no_brace(v));
    crate::tokscan::lemma_no_brace_balance(v);
}

proof fn lemma_texts_free(v: Seq<Seq<char>>)
    requires
        forall|i: int| 0 <= i < v.len() ==> no_special(#[trigger] v[i]),
    ensures
        sum_balance(v) == 0,
    decreases v.len(),
{
    if v.len() > 0 {
        let init = v.drop_last();
        assert forall|i: int| 0 <= i < init.len() implies no_special(#[trigger] init[i]) by {
            assert(init[i] == v[i]);
        }
        lemma_texts_free(init);
        assert(no_special(v[v.len() - 1]));
        lemma_special_free(v.last());
    }
}

/// Braces that nest from depth `d` close it: the pieces balance to `-d`.
proof fn lemma_nest_sum(ps: Seq<Seq<char>>, d: int)
    requires
        nest_from(ps, d),
    ensures
        d + sum_balance(ps) == 0,
    decreases ps.len(),
{
    if ps.len() > 0 {
        let rest = ps.drop_first();
        lemma_trim_balance(ps[0]);
        lemma_nest_sum(rest, d + brace_balance(trim(ps[0])));
        assert(ps =~= seq![ps[0]] + rest);
        lemma_sum_concat(seq![ps[0]], rest);
        lemma_sum_one(ps[0]);
    }
}

/// A raw block whose braces nest balances.
proof fn lemma_raw_balance(r: Seq<char>)
    requires
        raw_ok(r),
    ensures
        brace_balance(r) == 0,
{
    lemma_trim_balance(r);
    lemma_block_inner_balance(trim(r));
    lemma_lines_balance(block_inner(trim(r)));
    lemma_nest_sum(raw_pieces(r), 0);
}

proof fn lemma_opt_raw_balance(o: Option<Seq<char>>)
    requires
        crate::rawblock::opt_raw_ok(o),
    ensures
        opt_balance(o) == 0,
{
    if let Some(r) = o {
        lemma_raw_balance(r);
    }
}

proof fn lemma_node_ok_balance(n: NodeView)
    requires
        node_ok(n),
    ensures
        node_balance(n) == 0,
{
    lemma_name_free(n.id);
    if let Some(v) = n.icon {
        lemma_name_free(v);
    }
    if let Some(v) = n.relative_position_id {
        lemma_name_free(v);
    }
    assert forall|i: int| 0 <= i < n.prerequisites.len() implies no_special(
        #[trigger] n.prerequisites[i],
    ) by {
        assert(crate::roundtrip::text_ok(n.prerequisites[i]));
    }
    assert forall|i: int| 0 <= i < n.mutually_exclusive.len() implies no_special(
        #[trigger] n.mutually_exclusive[i],
    ) by {
        assert(crate::roundtrip::text_ok(n.mutually_exclusive[i]));
    }
    assert forall|i: int| 0 <= i < n.search_filters.len() implies no_special(
        #[trigger] n.search_filters[i],
    ) by {
        assert(crate::roundtrip::filter_ok(n.search_filters[i]));
    }
    lemma_texts_free(n.prerequisites);
    lemma_texts_free(n.mutually_exclusive);
    lemma_texts_free(n.search_filters);
    lemma_opt_raw_balance(n.available_raw);
    lemma_opt_raw_balance(n.bypass_raw);
    lemma_opt_raw_balance(n.completion_reward_raw);
    lemma_opt_raw_balance(n.immediate_raw);
    lemma_opt_raw_balance(n.ai_will_do_raw);
}

proof fn lemma_nodes_ok_balance(ns: Seq<NodeView>)
    requires
        forall|i: int| 0 <= i < ns.len() ==> node_ok(#[trigger] ns[i]),
    ensures
        nodes_balance(ns) == 0,
    decreases ns.len(),
{
    if ns.len() > 0 {
        let init = ns.drop_last();
        assert forall|i: int| 0 <= i < init.len() implies node_ok(#[trigger] init[i]) by {
            assert(init[i] == ns[i]);
        }
        lemma_nodes_ok_balance(init);
        assert(node_ok(ns[ns.len() - 1]));
        lemma_node_ok_balance(ns.last());
    }
}

proof fn lemma_shortcuts_ok_balance(ss: Seq<(Seq<char>, Seq<char>)>)
    requires
        forall|i: int| 0 <= i < ss.len() ==> shortcut_ok(#[trigger] ss[i]),
    ensures
        shortcuts_balance(ss) == 0,
    decreases ss.len(),
{
    if ss.len() > 0 {
        let init = ss.drop_last();
        assert forall|i: int| 0 <= i < init.len() implies shortcut_ok(#[trigger] init[i]) by {
            assert(init[i] == ss[i]);
        }
        lemma_shortcuts_ok_balance(init);
        assert(shortcut_ok(ss[ss.len() - 1]));
        lemma_name_free(ss.last().0);
        lemma_name_free(ss.last().1);
    }
}

/// A tree that is written and read back (see [`tree_ok`]) is written with as
/// many `{` as `}`.
pub proof fn lemma_written_tree_balanced(t: TreeView)
    requires
        tree_ok(t),
    ensures
        brace_balance(tree_text(t)) == 0,
{
    lemma_tree_text_balance(t);
    lemma_name_free(t.id);
    lemma_shortcuts_ok_balance(t.shortcuts);
    lemma_nodes_ok_balance(t.focuses);
}

} // verus!
