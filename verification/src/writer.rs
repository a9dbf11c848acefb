//! Writing focus trees back to the focus-file format, and describing the
//! differences between two trees.
use vstd::prelude::*;
use crate::cost::{Cost, cost_file_text};
use crate::model::{FocusNode, FocusTree, NodeView, Shortcut, TreeView, opt_text, texts};
use crate::text::{
    chars_of, int_text, lines, push_all, push_int_text, push_str, split_lines, string_of, trim,
    trim_chars, views,
};

verus! {

// ------------------------------------------------------------------------
// Specifications
// ------------------------------------------------------------------------

/// The inside of a stored raw block: without its outer braces when it has them.
pub open spec fn block_inner(t: Seq<char>) -> Seq<char> {
    if t.len() > 0 && t[0] == '{' && t.last() == '}' {
        t.subrange(1, t.len() - 1)
    } else {
        t
    }
}

/// Each line trimmed and indented by three tabs.
pub open spec fn indented_lines(ls: Seq<Seq<char>>) -> Seq<char>
    decreases ls.len(),
{
    if ls.len() == 0 {
        Seq::empty()
    } else {
        indented_lines(ls.drop_last()) + "\t\t\t"@ + trim(ls.last()) + "\n"@
    }
}

/// A raw block written as `key = {`, its inside lines, `}`; nothing when absent.
pub open spec fn block_text(key: Seq<char>, raw: Option<Seq<char>>) -> Seq<char> {
    match raw {
        None => Seq::empty(),
        Some(r) => "\t\t"@ + key + " = {\n"@ + indented_lines(lines(block_inner(trim(r))))
            + "\t\t}\n"@,
    }
}

/// An optional `key = value` line.
pub open spec fn opt_line(prefix: Seq<char>, v: Option<Seq<char>>) -> Seq<char> {
    match v {
        None => Seq::empty(),
        Some(t) => prefix + t + "\n"@,
    }
}

/// One `block_key = { focus = id }` line per id.
pub open spec fn list_lines(prefix: Seq<char>, ids: Seq<Seq<char>>) -> Seq<char>
    decreases ids.len(),
{
    if ids.len() == 0 {
        Seq::empty()
    } else {
        list_lines(prefix, ids.drop_last()) + prefix + ids.last() + " }\n"@
    }
}

/// Each filter preceded by a space.
pub open spec fn spaced(fs: Seq<Seq<char>>) -> Seq<char>
    decreases fs.len(),
{
    if fs.len() == 0 {
        Seq::empty()
    } else {
        spaced(fs.drop_last()) + " "@ + fs.last()
    }
}

/// The search-filter line.
pub open spec fn filters_text(fs: Seq<Seq<char>>) -> Seq<char> {
    if fs.len() == 0 {
        Seq::empty()
    } else if fs.len() == 1 {
        "\t\tsearch_filters = { "@ + fs[0] + " }\n"@
    } else {
        "\t\tsearch_filters = {"@ + spaced(fs) + " }\n"@
    }
}

/// The cost line.
pub open spec fn cost_line(c: Option<crate::cost::CostView>) -> Seq<char> {
    match c {
        None => Seq::empty(),
        Some(v) => "\t\tcost = "@ + cost_file_text(v) + "\n"@,
    }
}

/// The first lines of a focus block: id, icon, position, relative position, cost.
pub open spec fn node_head_text(n: NodeView) -> Seq<char> {
    "\tfocus = {\n"@ + "\t\tid = "@ + n.id + "\n"@ + opt_line("\t\ticon = "@, n.icon) + "\t\tx = "@
        + int_text(n.x as int) + "\n"@ + "\t\ty = "@ + int_text(n.y as int) + "\n"@ + opt_line(
        "\t\trelative_position_id = "@,
        n.relative_position_id,
    ) + cost_line(n.cost)
}

/// The list lines of a focus block: prerequisites, exclusions, bypass flag, filters.
pub open spec fn node_lists_text(n: NodeView) -> Seq<char> {
    list_lines("\t\tprerequisite = { focus = "@, n.prerequisites) + list_lines(
        "\t\tmutually_exclusive = { focus = "@,
        n.mutually_exclusive,
    ) + (if n.bypass_if_unavailable {
        "\t\tbypass_if_unavailable = yes\n"@
    } else {
        Seq::empty()
    }) + filters_text(n.search_filters)
}

/// The raw blocks of a focus block and its closing brace.
pub open spec fn node_blocks_text(n: NodeView) -> Seq<char> {
    block_text("available"@, n.available_raw) + block_text("bypass"@, n.bypass_raw) + block_text(
        "completion_reward"@,
        n.completion_reward_raw,
    ) + block_text("immediate"@, n.immediate_raw) + block_text("ai_will_do"@, n.ai_will_do_raw)
        + "\t}\n"@
}

/// A focus written as a `focus = { ... }` block.
pub open spec fn node_text(n: NodeView) -> Seq<char> {
    node_head_text(n) + node_lists_text(n) + node_blocks_text(n)
}

/// A shortcut written as a `shortcut = { ... }` block.
pub open spec fn shortcut_text(s: (Seq<char>, Seq<char>)) -> Seq<char> {
    "\tshortcut = {\n"@ + "\t\tname = "@ + s.0 + "\n"@ + "\t\ttarget = "@ + s.1 + "\n"@
        + "\t\tscroll_wheel_factor = 0.80\n"@ + "\t}\n"@
}

pub open spec fn shortcuts_text(ss: Seq<(Seq<char>, Seq<char>)>) -> Seq<char>
    decreases ss.len(),
{
    if ss.len() == 0 {
        Seq::empty()
    } else {
        shortcuts_text(ss.drop_last()) + shortcut_text(ss.last())
    }
}

/// The focus blocks, separated by empty lines.
pub open spec fn nodes_text(ns: Seq<NodeView>) -> Seq<char>
    decreases ns.len(),
{
    if ns.len() == 0 {
        Seq::empty()
    } else if ns.len() == 1 {
        node_text(ns[0])
    } else {
        nodes_text(ns.drop_last()) + "\n"@ + node_text(ns.last())
    }
}

/// A tree written in the focus-file format.
pub open spec fn tree_text(t: TreeView) -> Seq<char> {
    "focus_tree = {\n"@ + "\tid = "@ + t.id + "\n"@ + "\n"@ + shortcuts_text(t.shortcuts) + (
    if t.shortcuts.len() > 0 {
        "\n"@
    } else {
        Seq::empty()
    }) + nodes_text(t.focuses) + "}\n"@
}

// ------------------------------------------------------------------------
// Writing
// ------------------------------------------------------------------------

fn push_string(out: &mut Vec<char>, s: &String)
    ensures
        final(out)@ == old(out)@ + s@,
{
    push_str(out, s.as_str());
}

fn push_block(out: &mut Vec<char>, key: &str, raw: &Option<String>)
    ensures
        final(out)@ == old(out)@ + block_text(key@, opt_text(*raw)),
{
    match raw {
        None => {
            assert(out@ =~= old(out)@ + block_text(key@, opt_text(*raw)));
        },
        Some(content) => {
            let cs = chars_of(content.as_str());
            let t = trim_chars(&cs);
            let n = t.len();
            let inner: Vec<char> = if n > 0 && t[0] == '{' && t[n - 1] == '}' {
                crate::text::slice_chars(&t, 1, n - 1)
            } else {
                t
            };
            assert(inner@ == block_inner(trim(content@)));
            let ls = split_lines(&inner);
            let ghost all = views(ls@);
            let ghost start = out@;
            push_str(out, "\t\t");
            push_str(out, key);
            push_str(out, " = {\n");
            let ghost head = out@;
            let mut i: usize = 0;
            assert(all.take(0) =~= Seq::<Seq<char>>::empty());
            assert(out@ =~= head + indented_lines(all.take(0)));
            while i < ls.len()
                invariant
                    i <= ls@.len(),
                    all == views(ls@),
                    out@ == head + indented_lines(all.take(i as int)),
                decreases ls@.len() - i,
            {
                push_str(out, "\t\t\t");
                let tl = trim_chars(&ls[i]);
                push_all(out, &tl);
                push_str(out, "\n");
                assert(all.take(i + 1).drop_last() == all.take(i as int));
                assert(all.take(i + 1).last() == ls@[i as int]@);
                assert(out@ =~= head + indented_lines(all.take(i + 1)));
                i = i + 1;
            }
            assert(all.take(ls@.len() as int) == all);
            push_str(out, "\t\t}\n");
            assert(out@ =~= start + block_text(key@, opt_text(*raw)));
        },
    }
}

/// Appends a raw block written as `key = {`, its inside lines (each trimmed and
/// indented by three tabs), `}`; nothing when `raw` is absent.
pub fn write_block(out: &mut String, key: &str, raw: &Option<String>)
    ensures
        final(out)@ == old(out)@ + block_text(key@, opt_text(*raw)),
{
    let mut v: Vec<char> = Vec::new();
    push_block(&mut v, key, raw);
    assert(v@ =~= block_text(key@, opt_text(*raw)));
    let s = string_of(&v);
    out.append(s.as_str());
}

fn push_opt_line(out: &mut Vec<char>, prefix: &str, v: &Option<String>)
    ensures
        final(out)@ == old(out)@ + opt_line(prefix@, opt_text(*v)),
{
    match v {
        None => {
            assert(out@ =~= old(out)@ + opt_line(prefix@, opt_text(*v)));
        },
        Some(t) => {
            push_str(out, prefix);
            push_string(out, t);
            push_str(out, "\n");
            assert(out@ =~= old(out)@ + opt_line(prefix@, opt_text(*v)));
        },
    }
}

fn push_list_lines(out: &mut Vec<char>, prefix: &str, ids: &Vec<String>)
    ensures
        final(out)@ == old(out)@ + list_lines(prefix@, texts(ids@)),
{
    let ghost all = texts(ids@);
    let ghost start = out@;
    let mut i: usize = 0;
    assert(all.take(0) =~= Seq::<Seq<char>>::empty());
    assert(out@ =~= start + list_lines(prefix@, all.take(0)));
    while i < ids.len()
        invariant
            i <= ids@.len(),
            all == texts(ids@),
            out@ == start + list_lines(prefix@, all.take(i as int)),
        decreases ids@.len() - i,
    {
        push_str(out, prefix);
        push_string(out, &ids[i]);
        push_str(out, " }\n");
        assert(all.take(i + 1).drop_last() == all.take(i as int));
        assert(all.take(i + 1).last() == ids@[i as int]@);
        assert(out@ =~= start + list_lines(prefix@, all.take(i + 1)));
        i = i + 1;
    }
    assert(all.take(ids@.len() as int) == all);
}

fn push_filters(out: &mut Vec<char>, fs: &Vec<String>)
    ensures
        final(out)@ == old(out)@ + filters_text(texts(fs@)),
{
    let ghost all = texts(fs@);
    let ghost start = out@;
    let n = fs.len();
    if n == 0 {
        assert(out@ =~= start + filters_text(all));
    } else if n == 1 {
        push_str(out, "\t\tsearch_filters = { ");
        push_string(out, &fs[0]);
        push_str(out, " }\n");
        assert(out@ =~= start + filters_text(all));
    } else {
        push_str(out, "\t\tsearch_filters = {");
        let ghost head = out@;
        let mut i: usize = 0;
        assert(all.take(0) =~= Seq::<Seq<char>>::empty());
        assert(out@ =~= head + spaced(all.take(0)));
        while i < n
            invariant
                i <= n == fs@.len(),
                all == texts(fs@),
                out@ == head + spaced(all.take(i as int)),
            decreases n - i,
        {
            push_str(out, " ");
            push_string(out, &fs[i]);
            assert(all.take(i + 1).drop_last() == all.take(i as int));
            assert(all.take(i + 1).last() == fs@[i as int]@);
            assert(out@ =~= head + spaced(all.take(i + 1)));
            i = i + 1;
        }
        assert(all.take(n as int) == all);
        push_str(out, " }\n");
        assert(out@ =~= start + filters_text(all));
    }
}

fn push_cost_line(out: &mut Vec<char>, c: &Option<Cost>)
    ensures
        final(out)@ == old(out)@ + cost_line(crate::model::opt_cost(*c)),
{
    match c {
        None => {
            assert(out@ =~= old(out)@ + cost_line(crate::model::opt_cost(*c)));
        },
        Some(v) => {
            push_str(out, "\t\tcost = ");
            v.push_file_text(out);
            push_str(out, "\n");
            assert(out@ =~= old(out)@ + cost_line(crate::model::opt_cost(*c)));
        },
    }
}

fn push_node_head(out: &mut Vec<char>, focus: &FocusNode)
    ensures
        final(out)@ == old(out)@ + node_head_text(focus@),
{
    let ghost start = out@;
    push_str(out, "\tfocus = {\n");
    push_str(out, "\t\tid = ");
    push_string(out, &focus.id);
    push_str(out, "\n");
    push_opt_line(out, "\t\ticon = ", &focus.icon);
    push_str(out, "\t\tx = ");
    push_int_text(out, focus.x as i64);
    push_str(out, "\n");
    push_str(out, "\t\ty = ");
    push_int_text(out, focus.y as i64);
    push_str(out, "\n");
    push_opt_line(out, "\t\trelative_position_id = ", &focus.relative_position_id);
    push_cost_line(out, &focus.cost);
    assert(out@ =~= start + node_head_text(focus@));
}

fn push_node_lists(out: &mut Vec<char>, focus: &FocusNode)
    ensures
        final(out)@ == old(out)@ + node_lists_text(focus@),
{
    let ghost start = out@;
    push_list_lines(out, "\t\tprerequisite = { focus = ", &focus.prerequisites);
    push_list_lines(out, "\t\tmutually_exclusive = { focus = ", &focus.mutually_exclusive);
    let ghost mid = out@;
    if focus.bypass_if_unavailable {
        push_str(out, "\t\tbypass_if_unavailable = yes\n");
    } else {
        assert(out@ =~= mid + Seq::<char>::empty());
    }
    push_filters(out, &focus.search_filters);
    assert(out@ =~= start + node_lists_text(focus@));
}

#[verifier::spinoff_prover]
#[verifier::rlimit(30)]
fn push_node_blocks(out: &mut Vec<char>, focus: &FocusNode)
    ensures
        final(out)@ == old(out)@ + node_blocks_text(focus@),
{
    let ghost start = out@;
    let ghost n = focus@;
    push_block(out, "available", &focus.available_raw);
    push_block(out, "bypass", &focus.bypass_raw);
    let ghost a = out@;
    assert(a == start + (block_text("available"@, n.available_raw) + block_text(
        "bypass"@,
        n.bypass_raw,
    )));
    push_block(out, "completion_reward", &focus.completion_reward_raw);
    push_block(out, "immediate", &focus.immediate_raw);
    let ghost b = out@;
    assert(b == a + (block_text("completion_reward"@, n.completion_reward_raw) + block_text(
        "immediate"@,
        n.immediate_raw,
    )));
    push_block(out, "ai_will_do", &focus.ai_will_do_raw);
    push_str(out, "\t}\n");
    let ghost c = out@;
    assert(c == b + (block_text("ai_will_do"@, n.ai_will_do_raw) + "\t}\n"@));
    assert(out@ =~= start + node_blocks_text(focus@));
}

fn push_node(out: &mut Vec<char>, focus: &FocusNode)
    ensures
        final(out)@ == old(out)@ + node_text(focus@),
{
    let ghost start = out@;
    push_node_head(out, focus);
    let ghost a = out@;
    push_node_lists(out, focus);
    let ghost b = out@;
    push_node_blocks(out, focus);
    assert(out@ =~= start + node_text(focus@));
}

/// Appends a focus written as a `focus = { ... }` block (see [`node_text`]).
pub fn write_focus_node(out: &mut String, focus: &FocusNode)
    ensures
        final(out)@ == old(out)@ + node_text(focus@),
{
    let mut v: Vec<char> = Vec::new();
    push_node(&mut v, focus);
    assert(v@ =~= node_text(focus@));
    let s = string_of(&v);
    out.append(s.as_str());
}

/// A single focus written as a `focus = { ... }` block, for preview.
pub fn write_single_focus(focus: &FocusNode) -> (s: String)
    ensures
        s@ == node_text(focus@),
{
    let mut out = String::new();
    write_focus_node(&mut out, focus);
    out
}

fn push_shortcut(out: &mut Vec<char>, s: &Shortcut)
    ensures
        final(out)@ == old(out)@ + shortcut_text(s@),
{
    push_str(out, "\tshortcut = {\n");
    push_str(out, "\t\tname = ");
    push_string(out, &s.name);
    push_str(out, "\n");
    push_str(out, "\t\ttarget = ");
    push_string(out, &s.target);
    push_str(out, "\n");
    push_str(out, "\t\tscroll_wheel_factor = 0.80\n");
    push_str(out, "\t}\n");
    assert(out@ =~= old(out)@ + shortcut_text(s@));
}

/// A tree written in the focus-file format (see [`tree_text`]).
pub fn write_focus_tree(tree: &FocusTree) -> (s: String)
    ensures
        s@ == tree_text(tree@),
{
    let mut out: Vec<char> = Vec::new();
    push_str(&mut out, "focus_tree = {\n");
    push_str(&mut out, "\tid = ");
    push_string(&mut out, &tree.id);
    push_str(&mut out, "\n");
    push_str(&mut out, "\n");
    let ghost head = out@;
    let ghost ss = crate::model::shortcut_views(tree.shortcuts@);
    let mut i: usize = 0;
    assert(ss.take(0) =~= Seq::<(Seq<char>, Seq<char>)>::empty());
    assert(out@ =~= head + shortcuts_text(ss.take(0)));
    while i < tree.shortcuts.len()
        invariant
            i <= tree.shortcuts@.len(),
            ss == crate::model::shortcut_views(tree.shortcuts@),
            out@ == head + shortcuts_text(ss.take(i as int)),
        decreases tree.shortcuts@.len() - i,
    {
        push_shortcut(&mut out, &tree.shortcuts[i]);
        assert(ss.take(i + 1).drop_last() == ss.take(i as int));
        assert(ss.take(i + 1).last() == tree.shortcuts@[i as int]@);
        assert(out@ =~= head + shortcuts_text(ss.take(i + 1)));
        i = i + 1;
    }
    assert(ss.take(tree.shortcuts@.len() as int) == ss);
    let ghost mid = out@;
    if tree.shortcuts.len() > 0 {
        push_str(&mut out, "\n");
    } else {
        assert(out@ =~= mid + Seq::<char>::empty());
    }
    let ghost body = out@;
    let ghost ns = crate::model::node_views(tree.focuses@);
    let mut j: usize = 0;
    assert(ns.take(0) =~= Seq::<NodeView>::empty());
    assert(out@ =~= body + nodes_text(ns.take(0)));
    while j < tree.focuses.len()
        invariant
            j <= tree.focuses@.len(),
            ns == crate::model::node_views(tree.focuses@),
            out@ == body + nodes_text(ns.take(j as int)),
        decreases tree.focuses@.len() - j,
    {
        let ghost before = out@;
        if j > 0 {
            push_str(&mut out, "\n");
        }
        push_node(&mut out, &tree.focuses[j]);
        assert(ns.take(j + 1).drop_last() == ns.take(j as int));
        assert(ns.take(j + 1).last() == tree.focuses@[j as int]@);
        if j == 0 {
            assert(ns.take(1)[0] == tree.focuses@[0]@);
        }
        assert(out@ =~= body + nodes_text(ns.take(j + 1)));
        j = j + 1;
    }
    assert(ns.take(tree.focuses@.len() as int) == ns);
    push_str(&mut out, "}\n");
    assert(out@ =~= tree_text(tree@));
    string_of(&out)
}

// ------------------------------------------------------------------------
// Differences between two trees
// ------------------------------------------------------------------------

/// The ids of the focuses whose id is not among `others`, in order.
pub open spec fn ids_not_in(ns: Seq<NodeView>, others: Seq<Seq<char>>) -> Seq<Seq<char>>
    decreases ns.len(),
{
    if ns.len() == 0 {
        Seq::empty()
    } else {
        ids_not_in(ns.drop_last(), others) + if !others.contains(ns.last().id) {
            seq![ns.last().id]
        } else {
            Seq::empty()
        }
    }
}

/// One line per item: the prefix, the item, `\n`.
pub open spec fn item_lines(prefix: Seq<char>, items: Seq<Seq<char>>) -> Seq<char>
    decreases items.len(),
{
    if items.len() == 0 {
        Seq::empty()
    } else {
        item_lines(prefix, items.drop_last()) + prefix + items.last() + "\n"@
    }
}

/// A titled section listing ids; nothing when there are none.
pub open spec fn id_section(title: Seq<char>, prefix: Seq<char>, ids: Seq<Seq<char>>) -> Seq<char> {
    if ids.len() > 0 {
        title + crate::text::nat_text(ids.len()) + " focus(es):\n"@ + item_lines(prefix, ids)
            + "\n"@
    } else {
        Seq::empty()
    }
}

/// The first focus with the given id.
pub open spec fn first_with_id(ns: Seq<NodeView>, id: Seq<char>) -> Option<NodeView>
    decreases ns.len(),
{
    if ns.len() == 0 {
        None
    } else if ns[0].id == id {
        Some(ns[0])
    } else {
        first_with_id(ns.drop_first(), id)
    }
}

/// What changed from `o` to `n`.
pub open spec fn changes(o: NodeView, n: NodeView) -> Seq<Seq<char>> {
    (if o.icon != n.icon {
        seq!["icon changed"@]
    } else {
        Seq::empty()
    }) + (if o.x != n.x || o.y != n.y {
        seq!["pos changed"@]
    } else {
        Seq::empty()
    }) + (if o.cost != n.cost {
        seq!["cost changed"@]
    } else {
        Seq::empty()
    }) + (if o.prerequisites != n.prerequisites {
        seq!["prerequisites changed"@]
    } else {
        Seq::empty()
    }) + (if o.completion_reward_raw != n.completion_reward_raw {
        seq!["completion_reward changed"@]
    } else {
        Seq::empty()
    })
}

/// The modification section of one focus of the new tree.
pub open spec fn modified_text(old_ns: Seq<NodeView>, n: NodeView) -> Seq<char> {
    match first_with_id(old_ns, n.id) {
        Some(o) => if changes(o, n).len() > 0 {
            "✏️ Modified: "@ + n.id + "\n"@ + item_lines("   • "@, changes(o, n))
        } else {
            Seq::empty()
        },
        None => Seq::empty(),
    }
}

pub open spec fn all_modified_text(old_ns: Seq<NodeView>, new_ns: Seq<NodeView>) -> Seq<char>
    decreases new_ns.len(),
{
    if new_ns.len() == 0 {
        Seq::empty()
    } else {
        all_modified_text(old_ns, new_ns.drop_last()) + modified_text(old_ns, new_ns.last())
    }
}

/// The differences from `old` to `new`: the added focuses, the removed ones and
/// the changes of focuses present in both; or `No changes detected`.
pub open spec fn diff_text(old: TreeView, new: TreeView) -> Seq<char> {
    let old_ids = crate::validate::ids_of(old.focuses);
    let new_ids = crate::validate::ids_of(new.focuses);
    let body = id_section("➕ Added "@, "  + "@, ids_not_in(new.focuses, old_ids)) + id_section(
        "➖ Removed "@,
        "  - "@,
        ids_not_in(old.focuses, new_ids),
    ) + all_modified_text(old.focuses, new.focuses);
    if body.len() == 0 {
        "No changes detected"@
    } else {
        body
    }
}

proof fn lemma_ids_not_in_none(ns: Seq<NodeView>, others: Seq<Seq<char>>)
    requires
        forall|i: int| 0 <= i < ns.len() ==> others.contains(#[trigger] ns[i].id),
    ensures
        ids_not_in(ns, others).len() == 0,
    decreases ns.len(),
{
    if ns.len() > 0 {
        assert(others.contains(ns[ns.len() - 1].id));
        lemma_ids_not_in_none(ns.drop_last(), others);
    }
}

proof fn lemma_first_with_own_id(ns: Seq<NodeView>, i: int)
    requires
        0 <= i < ns.len(),
        forall|a: int, b: int| 0 <= a < b < ns.len() ==> #[trigger] ns[a].id != #[trigger] ns[b].id,
    ensures
        first_with_id(ns, ns[i].id) == Some(ns[i]),
    decreases i,
{
    if i > 0 {
        assert(ns[0].id != ns[i].id);
        let rest = ns.drop_first();
        assert forall|a: int, b: int| 0 <= a < b < rest.len() implies #[trigger] rest[a].id
            != #[trigger] rest[b].id by {
            assert(rest[a] == ns[a + 1] && rest[b] == ns[b + 1]);
        }
        lemma_first_with_own_id(rest, i - 1);
    }
}

proof fn lemma_all_modified_none(old_ns: Seq<NodeView>, new_ns: Seq<NodeView>)
    requires
        forall|i: int| 0 <= i < new_ns.len() ==> modified_text(old_ns, #[trigger] new_ns[i]).len()
            == 0,
    ensures
        all_modified_text(old_ns, new_ns).len() == 0,
    decreases new_ns.len(),
{
    if new_ns.len() > 0 {
        assert(modified_text(old_ns, new_ns[new_ns.len() - 1]).len() == 0);
        lemma_all_modified_none(old_ns, new_ns.drop_last());
    }
}

/// The changes of a focus name exactly the compared fields that differ: the
/// icon, the position (x or y), the cost, the prerequisites and the completion
/// reward; there are none exactly when all of these are equal.
pub proof fn lemma_changes_exact(o: NodeView, n: NodeView)
    ensures
        changes(o, n).contains("icon changed"@) <==> o.icon != n.icon,
        changes(o, n).contains("pos changed"@) <==> (o.x != n.x || o.y != n.y),
        changes(o, n).contains("cost changed"@) <==> o.cost != n.cost,
        changes(o, n).contains("prerequisites changed"@) <==> o.prerequisites != n.prerequisites,
        changes(o, n).contains("completion_reward changed"@) <==> o.completion_reward_raw
            != n.completion_reward_raw,
        changes(o, n).len() == 0 <==> (o.icon == n.icon && o.x == n.x && o.y == n.y && o.cost
            == n.cost && o.prerequisites == n.prerequisites && o.completion_reward_raw
            == n.completion_reward_raw),
{
    reveal_strlit("icon changed");
    reveal_strlit("pos changed");
    reveal_strlit("cost changed");
    reveal_strlit("prerequisites changed");
    reveal_strlit("completion_reward changed");
    let names = seq![
        "icon changed"@,
        "pos changed"@,
        "cost changed"@,
        "prerequisites changed"@,
        "completion_reward changed"@,
    ];
    assert(names[0][0] == 'i' && names[1][0] == 'p' && names[2][0] == 'c' && names[3][0] == 'p'
        && names[4][0] == 'c');
    assert(names[0].len() == 12 && names[1].len() == 11 && names[2].len() == 12 && names[3].len()
        == 21 && names[4].len() == 25);
    let ch = changes(o, n);
    assert forall|k: int| 0 <= k < ch.len() implies #[trigger] ch[k] == names[0] || ch[k] == names[1]
        || ch[k] == names[2] || ch[k] == names[3] || ch[k] == names[4] by {}
    if o.icon != n.icon {
        assert(ch[0] == names[0]);
    }
    let a = if o.icon != n.icon { 1int } else { 0int };
    if o.x != n.x || o.y != n.y {
        assert(ch[a] == names[1]);
    }
    let b = a + if o.x != n.x || o.y != n.y { 1int } else { 0int };
    if o.cost != n.cost {
        assert(ch[b] == names[2]);
    }
    let c = b + if o.cost != n.cost { 1int } else { 0int };
    if o.prerequisites != n.prerequisites {
        assert(ch[c] == names[3]);
    }
    let d = c + if o.prerequisites != n.prerequisites { 1int } else { 0int };
    if o.completion_reward_raw != n.completion_reward_raw {
        assert(ch[d] == names[4]);
    }
}

/// Each item has its own line in the item lines.
proof fn lemma_item_line_in(prefix: Seq<char>, items: Seq<Seq<char>>, k: int)
    requires
        0 <= k < items.len(),
    ensures
        crate::text::contains_text(item_lines(prefix, items), prefix + items[k] + "\n"@),
    decreases items.len(),
{
    let init = item_lines(prefix, items.drop_last());
    let p = prefix + items[k] + "\n"@;
    if k == items.len() - 1 {
        assert(item_lines(prefix, items).subrange(init.len() as int, init.len() + p.len() as int) =~= p);
        crate::text::lemma_contains_at(item_lines(prefix, items), p, init.len() as int);
    } else {
        lemma_item_line_in(prefix, items.drop_last(), k);
        assert(items.drop_last()[k] == items[k]);
        crate::text::lemma_contains_concat(init, prefix + items.last() + "\n"@, p);
        assert(item_lines(prefix, items) =~= init + (prefix + items.last() + "\n"@));
    }
}

/// What the modification section of one focus contains, the sections of all
/// focuses contain.
proof fn lemma_all_modified_in(old_ns: Seq<NodeView>, new_ns: Seq<NodeView>, i: int, p: Seq<char>)
    requires
        0 <= i < new_ns.len(),
        crate::text::contains_text(modified_text(old_ns, new_ns[i]), p),
    ensures
        crate::text::contains_text(all_modified_text(old_ns, new_ns), p),
    decreases new_ns.len(),
{
    let init = all_modified_text(old_ns, new_ns.drop_last());
    if i == new_ns.len() - 1 {
        crate::text::lemma_contains_concat(init, modified_text(old_ns, new_ns.last()), p);
    } else {
        assert(new_ns.drop_last()[i] == new_ns[i]);
        lemma_all_modified_in(old_ns, new_ns.drop_last(), i, p);
        crate::text::lemma_contains_concat(init, modified_text(old_ns, new_ns.last()), p);
    }
}

/// A focus of the new tree whose first namesake in the old tree differs in a
/// compared field is reported as modified, with one line per change; in
/// particular a moved focus has the line `pos changed`.
pub proof fn lemma_diff_reports_changes(old: TreeView, new: TreeView, i: int, o: NodeView)
    requires
        0 <= i < new.focuses.len(),
        first_with_id(old.focuses, new.focuses[i].id) == Some(o),
        !(o.icon == new.focuses[i].icon && o.x == new.focuses[i].x && o.y == new.focuses[i].y
            && o.cost == new.focuses[i].cost && o.prerequisites == new.focuses[i].prerequisites
            && o.completion_reward_raw == new.focuses[i].completion_reward_raw),
    ensures
        crate::text::contains_text(
            diff_text(old, new),
            "✏️ Modified: "@ + new.focuses[i].id + "\n"@,
        ),
        (o.x != new.focuses[i].x || o.y != new.focuses[i].y) ==> crate::text::contains_text(
            diff_text(old, new),
            "   • "@ + "pos changed"@ + "\n"@,
        ),
        forall|k: int|
            0 <= k < changes(o, new.focuses[i]).len() ==> crate::text::contains_text(
                diff_text(old, new),
                "   • "@ + #[trigger] changes(o, new.focuses[i])[k] + "\n"@,
            ),
{
    let n = new.focuses[i];
    lemma_changes_exact(o, n);
    let ch = changes(o, n);
    let head = "✏️ Modified: "@ + n.id + "\n"@;
    let m = modified_text(old.focuses, n);
    assert(m == head + item_lines("   • "@, ch));
    let old_ids = crate::validate::ids_of(old.focuses);
    let new_ids = crate::validate::ids_of(new.focuses);
    let front = id_section("➕ Added "@, "  + "@, ids_not_in(new.focuses, old_ids)) + id_section(
        "➖ Removed "@,
        "  - "@,
        ids_not_in(old.focuses, new_ids),
    );
    let all = all_modified_text(old.focuses, new.focuses);
    let body = front + all;
    // The head line.
    assert(m.subrange(0, head.len() as int) =~= head);
    crate::text::lemma_contains_at(m, head, 0);
    lemma_all_modified_in(old.focuses, new.focuses, i, head);
    crate::text::lemma_contains_concat(front, all, head);
    crate::text::lemma_contains_len(body, head);
    reveal_strlit("\n");
    assert(head.len() > 0);
    assert(body.len() > 0);
    assert(diff_text(old, new) == body);
    // One line per change.
    assert forall|k: int| 0 <= k < ch.len() implies crate::text::contains_text(
        diff_text(old, new),
        "   • "@ + #[trigger] ch[k] + "\n"@,
    ) by {
        let p = "   • "@ + ch[k] + "\n"@;
        lemma_item_line_in("   • "@, ch, k);
        crate::text::lemma_contains_concat(head, item_lines("   • "@, ch), p);
        lemma_all_modified_in(old.focuses, new.focuses, i, p);
        crate::text::lemma_contains_concat(front, all, p);
    }
    if o.x != n.x || o.y != n.y {
        let k = choose|k: int| 0 <= k < ch.len() && ch[k] == "pos changed"@;
        assert(ch[k] == "pos changed"@);
    }
}

/// Each focus whose id is not among `others` is listed.
proof fn lemma_ids_not_in_has(ns: Seq<NodeView>, others: Seq<Seq<char>>, i: int)
    requires
        0 <= i < ns.len(),
        !others.contains(ns[i].id),
    ensures
        ids_not_in(ns, others).contains(ns[i].id),
    decreases ns.len(),
{
    let init = ids_not_in(ns.drop_last(), others);
    if i == ns.len() - 1 {
        assert(ids_not_in(ns, others)[init.len() as int] == ns[i].id);
    } else {
        assert(ns.drop_last()[i] == ns[i]);
        lemma_ids_not_in_has(ns.drop_last(), others, i);
        let k = choose|k: int| 0 <= k < init.len() && init[k] == ns[i].id;
        assert(ids_not_in(ns, others)[k] == ns[i].id);
    }
}

/// A section lists each of its ids on a line of its own.
proof fn lemma_id_section_has(title: Seq<char>, prefix: Seq<char>, ids: Seq<Seq<char>>, id: Seq<char>)
    requires
        ids.contains(id),
    ensures
        crate::text::contains_text(id_section(title, prefix, ids), prefix + id + "\n"@),
{
    let k = choose|k: int| 0 <= k < ids.len() && ids[k] == id;
    lemma_item_line_in(prefix, ids, k);
    let head = title + crate::text::nat_text(ids.len()) + " focus(es):\n"@;
    crate::text::lemma_contains_concat(head, item_lines(prefix, ids), prefix + id + "\n"@);
    crate::text::lemma_contains_concat(head + item_lines(prefix, ids), "\n"@, prefix + id + "\n"@);
}

/// The diff shows what it contains only when it is not the no-change text.
proof fn lemma_diff_body_has(old: TreeView, new: TreeView, p: Seq<char>)
    requires
        p.len() > 0,
        crate::text::contains_text(
            id_section(
                "➕ Added "@,
                "  + "@,
                ids_not_in(new.focuses, crate::validate::ids_of(old.focuses)),
            ) + id_section(
                "➖ Removed "@,
                "  - "@,
                ids_not_in(old.focuses, crate::validate::ids_of(new.focuses)),
            ) + all_modified_text(old.focuses, new.focuses),
            p,
        ),
    ensures
        crate::text::contains_text(diff_text(old, new), p),
{
    let body = id_section(
        "➕ Added "@,
        "  + "@,
        ids_not_in(new.focuses, crate::validate::ids_of(old.focuses)),
    ) + id_section(
        "➖ Removed "@,
        "  - "@,
        ids_not_in(old.focuses, crate::validate::ids_of(new.focuses)),
    ) + all_modified_text(old.focuses, new.focuses);
    crate::text::lemma_contains_len(body, p);
    assert(diff_text(old, new) == body);
}

/// A focus of the new tree whose id no focus of the old tree has is listed as
/// added; a focus of the old tree whose id no focus of the new tree has is
/// listed as removed.
pub proof fn lemma_diff_reports_added_removed(old: TreeView, new: TreeView)
    ensures
        forall|i: int|
            0 <= i < new.focuses.len() && (forall|j: int|
                0 <= j < old.focuses.len() ==> old.focuses[j].id != #[trigger] new.focuses[i].id)
                ==> crate::text::contains_text(
                diff_text(old, new),
                "  + "@ + new.focuses[i].id + "\n"@,
            ),
        forall|i: int|
            0 <= i < old.focuses.len() && (forall|j: int|
                0 <= j < new.focuses.len() ==> new.focuses[j].id != #[trigger] old.focuses[i].id)
                ==> crate::text::contains_text(
                diff_text(old, new),
                "  - "@ + old.focuses[i].id + "\n"@,
            ),
{
    reveal_strlit("\n");
    let old_ids = crate::validate::ids_of(old.focuses);
    let new_ids = crate::validate::ids_of(new.focuses);
    let added = id_section("➕ Added "@, "  + "@, ids_not_in(new.focuses, old_ids));
    let removed = id_section("➖ Removed "@, "  - "@, ids_not_in(old.focuses, new_ids));
    let all = all_modified_text(old.focuses, new.focuses);
    assert forall|i: int|
        0 <= i < new.focuses.len() && (forall|j: int|
            0 <= j < old.focuses.len() ==> old.focuses[j].id != #[trigger] new.focuses[i].id)
        implies crate::text::contains_text(
        diff_text(old, new),
        "  + "@ + new.focuses[i].id + "\n"@,
    ) by {
        let id = new.focuses[i].id;
        let p = "  + "@ + id + "\n"@;
        if old_ids.contains(id) {
            let j = choose|j: int| 0 <= j < old_ids.len() && old_ids[j] == id;
            assert(old.focuses[j].id == id);
        }
        lemma_ids_not_in_has(new.focuses, old_ids, i);
        lemma_id_section_has("➕ Added "@, "  + "@, ids_not_in(new.focuses, old_ids), id);
        crate::text::lemma_contains_concat(added, removed, p);
        crate::text::lemma_contains_concat(added + removed, all, p);
        lemma_diff_body_has(old, new, p);
    }
    assert forall|i: int|
        0 <= i < old.focuses.len() && (forall|j: int|
            0 <= j < new.focuses.len() ==> new.focuses[j].id != #[trigger] old.focuses[i].id)
        implies crate::text::contains_text(
        diff_text(old, new),
        "  - "@ + old.focuses[i].id + "\n"@,
    ) by {
        let id = old.focuses[i].id;
        let p = "  - "@ + id + "\n"@;
        if new_ids.contains(id) {
            let j = choose|j: int| 0 <= j < new_ids.len() && new_ids[j] == id;
            assert(new.focuses[j].id == id);
        }
        lemma_ids_not_in_has(old.focuses, new_ids, i);
        lemma_id_section_has("➖ Removed "@, "  - "@, ids_not_in(old.focuses, new_ids), id);
        crate::text::lemma_contains_concat(added, removed, p);
        crate::text::lemma_contains_concat(added + removed, all, p);
        lemma_diff_body_has(old, new, p);
    }
}

/// A tree compared with itself shows no changes, when its focus ids are
/// distinct.
pub proof fn lemma_diff_of_itself(t: TreeView)
    requires
        forall|a: int, b: int|
            0 <= a < b < t.focuses.len() ==> #[trigger] t.focuses[a].id != #[trigger] t.focuses[b].id,
    ensures
        diff_text(t, t) == "No changes detected"@,
{
    let ns = t.focuses;
    let ids = crate::validate::ids_of(ns);
    assert forall|i: int| 0 <= i < ns.len() implies ids.contains(#[trigger] ns[i].id) by {
        assert(ids[i] == ns[i].id);
    }
    lemma_ids_not_in_none(ns, ids);
    assert forall|i: int| 0 <= i < ns.len() implies modified_text(ns, #[trigger] ns[i]).len()
        == 0 by {
        lemma_first_with_own_id(ns, i);
        assert(changes(ns[i], ns[i]) =~= Seq::<Seq<char>>::empty());
    }
    lemma_all_modified_none(ns, ns);
}

fn focus_ids(ns: &Vec<FocusNode>) -> (r: Vec<String>)
    ensures
        texts(r@) == crate::validate::ids_of(crate::model::node_views(ns@)),
{
    let mut r: Vec<String> = Vec::new();
    let mut i: usize = 0;
    while i < ns.len()
        invariant
            i <= ns@.len(),
            r@.len() == i,
            forall|j: int| 0 <= j < i ==> #[trigger] r@[j]@ == ns@[j].id@,
        decreases ns@.len() - i,
    {
        r.push(ns[i].id.clone());
        i = i + 1;
    }
    assert(texts(r@) =~= crate::validate::ids_of(crate::model::node_views(ns@)));
    r
}

fn push_id_section(out: &mut Vec<char>, title: &str, prefix: &str, ns: &Vec<FocusNode>, others: &Vec<String>)
    ensures
        final(out)@ == old(out)@ + id_section(
            title@,
            prefix@,
            ids_not_in(crate::model::node_views(ns@), texts(others@)),
        ),
{
    let ghost all = crate::model::node_views(ns@);
    let mut ids: Vec<String> = Vec::new();
    let mut i: usize = 0;
    assert(all.take(0) =~= Seq::<NodeView>::empty());
    assert(texts(ids@) =~= ids_not_in(all.take(0), texts(others@)));
    while i < ns.len()
        invariant
            i <= ns@.len(),
            all == crate::model::node_views(ns@),
            texts(ids@) == ids_not_in(all.take(i as int), texts(others@)),
        decreases ns@.len() - i,
    {
        assert(all.take(i + 1).drop_last() == all.take(i as int));
        assert(all.take(i + 1).last() == ns@[i as int]@);
        if !crate::validate::contains_string(others, &ns[i].id) {
            ids.push(ns[i].id.clone());
        }
        assert(texts(ids@) =~= ids_not_in(all.take(i + 1), texts(others@)));
        i = i + 1;
    }
    assert(all.take(ns@.len() as int) == all);
    if ids.len() > 0 {
        let ghost start = out@;
        push_str(out, title);
        crate::text::push_nat_text(out, ids.len() as u128);
        push_str(out, " focus(es):\n");
        let ghost head = out@;
        let ghost items = texts(ids@);
        let mut k: usize = 0;
        assert(items.take(0) =~= Seq::<Seq<char>>::empty());
        assert(out@ =~= head + item_lines(prefix@, items.take(0)));
        while k < ids.len()
            invariant
                k <= ids@.len(),
                items == texts(ids@),
                out@ == head + item_lines(prefix@, items.take(k as int)),
            decreases ids@.len() - k,
        {
            push_str(out, prefix);
            push_string(out, &ids[k]);
            push_str(out, "\n");
            assert(items.take(k + 1).drop_last() == items.take(k as int));
            assert(items.take(k + 1).last() == ids@[k as int]@);
            assert(out@ =~= head + item_lines(prefix@, items.take(k + 1)));
            k = k + 1;
        }
        assert(items.take(ids@.len() as int) == items);
        push_str(out, "\n");
        assert(out@ =~= start + id_section(title@, prefix@, items));
    } else {
        assert(out@ =~= old(out)@ + id_section(title@, prefix@, texts(ids@)));
    }
}

fn same_opt_string(a: &Option<String>, b: &Option<String>) -> (r: bool)
    ensures
        r == (opt_text(*a) == opt_text(*b)),
{
    match (a, b) {
        (Some(x), Some(y)) => *x == *y,
        (None, None) => true,
        _ => false,
    }
}

fn same_strings(a: &Vec<String>, b: &Vec<String>) -> (r: bool)
    ensures
        r == (texts(a@) == texts(b@)),
{
    if a.len() != b.len() {
        assert(texts(a@).len() != texts(b@).len());
        return false;
    }
    let mut i: usize = 0;
    while i < a.len()
        invariant
            i <= a@.len() == b@.len(),
            forall|j: int| 0 <= j < i ==> #[trigger] a@[j]@ == b@[j]@,
        decreases a@.len() - i,
    {
        if a[i] != b[i] {
            assert(texts(a@)[i as int] != texts(b@)[i as int]);
            return false;
        }
        i = i + 1;
    }
    assert(texts(a@) =~= texts(b@));
    true
}

fn same_cost(a: &Option<Cost>, b: &Option<Cost>) -> (r: bool)
    ensures
        r == (crate::model::opt_cost(*a) == crate::model::opt_cost(*b)),
{
    match (a, b) {
        (Some(x), Some(y)) => x.same(y),
        (None, None) => true,
        _ => false,
    }
}

fn push_change(out: &mut Vec<Vec<char>>, text: &str)
    ensures
        views(final(out)@) == views(old(out)@).push(text@),
{
    let c = chars_of(text);
    out.push(c);
    assert(views(out@) =~= views(old(out)@).push(text@));
}

fn changes_of(o: &FocusNode, n: &FocusNode) -> (r: Vec<Vec<char>>)
    ensures
        views(r@) == changes(o@, n@),
{
    let mut r: Vec<Vec<char>> = Vec::new();
    assert(views(r@) =~= Seq::<Seq<char>>::empty());
    if !same_opt_string(&o.icon, &n.icon) {
        push_change(&mut r, "icon changed");
    }
    let ghost a = views(r@);
    if o.x != n.x || o.y != n.y {
        push_change(&mut r, "pos changed");
    }
    let ghost b = views(r@);
    if !same_cost(&o.cost, &n.cost) {
        push_change(&mut r, "cost changed");
    }
    let ghost c = views(r@);
    if !same_strings(&o.prerequisites, &n.prerequisites) {
        push_change(&mut r, "prerequisites changed");
    }
    let ghost d = views(r@);
    if !same_opt_string(&o.completion_reward_raw, &n.completion_reward_raw) {
        push_change(&mut r, "completion_reward changed");
    }
    assert(views(r@) =~= changes(o@, n@));
    r
}

/// The first focus with the given id.
fn find_focus<'a>(ns: &'a Vec<FocusNode>, id: &String) -> (r: Option<&'a FocusNode>)
    ensures
        match r {
            Some(f) => first_with_id(crate::model::node_views(ns@), id@) == Some(f@),
            None => first_with_id(crate::model::node_views(ns@), id@) is None,
        },
{
    let ghost all = crate::model::node_views(ns@);
    let mut i: usize = 0;
    assert(all.skip(0) == all);
    while i < ns.len()
        invariant
            i <= ns@.len(),
            all == crate::model::node_views(ns@),
            first_with_id(all, id@) == first_with_id(all.skip(i as int), id@),
        decreases ns@.len() - i,
    {
        assert(all.skip(i as int)[0] == ns@[i as int]@);
        assert(all.skip(i as int).drop_first() == all.skip(i + 1));
        if ns[i].id == *id {
            return Some(&ns[i]);
        }
        i = i + 1;
    }
    None
}

fn push_modified(out: &mut Vec<char>, old_ns: &Vec<FocusNode>, n: &FocusNode)
    ensures
        final(out)@ == old(out)@ + modified_text(crate::model::node_views(old_ns@), n@),
{
    match find_focus(old_ns, &n.id) {
        Some(o) => {
            let cs = changes_of(o, n);
            if cs.len() > 0 {
                let ghost start = out@;
                push_str(out, "✏️ Modified: ");
                push_string(out, &n.id);
                push_str(out, "\n");
                let ghost head = out@;
                let ghost items = views(cs@);
                let mut k: usize = 0;
                assert(items.take(0) =~= Seq::<Seq<char>>::empty());
                assert(out@ =~= head + item_lines("   • "@, items.take(0)));
                while k < cs.len()
                    invariant
                        k <= cs@.len(),
                        items == views(cs@),
                        out@ == head + item_lines("   • "@, items.take(k as int)),
                    decreases cs@.len() - k,
                {
                    push_str(out, "   • ");
                    push_all(out, &cs[k]);
                    push_str(out, "\n");
                    assert(items.take(k + 1).drop_last() == items.take(k as int));
                    assert(items.take(k + 1).last() == cs@[k as int]@);
                    assert(out@ =~= head + item_lines("   • "@, items.take(k + 1)));
                    k = k + 1;
                }
                assert(items.take(cs@.len() as int) == items);
                assert(out@ =~= start + modified_text(crate::model::node_views(old_ns@), n@));
            } else {
                assert(out@ =~= old(out)@ + modified_text(crate::model::node_views(old_ns@), n@));
            }
        },
        None => {
            assert(out@ =~= old(out)@ + modified_text(crate::model::node_views(old_ns@), n@));
        },
    }
}

/// The differences from `old_tree` to `new_tree` (see [`diff_text`]).
pub fn generate_diff(old_tree: &FocusTree, new_tree: &FocusTree) -> (s: String)
    ensures
        s@ == diff_text(old_tree@, new_tree@),
{
    let old_ids = focus_ids(&old_tree.focuses);
    let new_ids = focus_ids(&new_tree.focuses);
    let mut out: Vec<char> = Vec::new();
    push_id_section(&mut out, "➕ Added ", "  + ", &new_tree.focuses, &old_ids);
    push_id_section(&mut out, "➖ Removed ", "  - ", &old_tree.focuses, &new_ids);
    let ghost head = out@;
    let ghost new_ns = crate::model::node_views(new_tree.focuses@);
    let ghost old_ns = crate::model::node_views(old_tree.focuses@);
    let mut i: usize = 0;
    assert(new_ns.take(0) =~= Seq::<NodeView>::empty());
    assert(out@ =~= head + all_modified_text(old_ns, new_ns.take(0)));
    while i < new_tree.focuses.len()
        invariant
            i <= new_tree.focuses@.len(),
            new_ns == crate::model::node_views(new_tree.focuses@),
            old_ns == crate::model::node_views(old_tree.focuses@),
            out@ == head + all_modified_text(old_ns, new_ns.take(i as int)),
        decreases new_tree.focuses@.len() - i,
    {
        push_modified(&mut out, &old_tree.focuses, &new_tree.focuses[i]);
        assert(new_ns.take(i + 1).drop_last() == new_ns.take(i as int));
        assert(new_ns.take(i + 1).last() == new_tree.focuses@[i as int]@);
        assert(out@ =~= head + all_modified_text(old_ns, new_ns.take(i + 1)));
        i = i + 1;
    }
    assert(new_ns.take(new_tree.focuses@.len() as int) == new_ns);
    if out.len() == 0 {
        String::from_str("No changes detected")
    } else {
        string_of(&out)
    }
}

} // verus!
