//! Reading focus-tree files.
//!
//! A focus file is read line by line: simple `key = value` fields, list
//! blocks such as `prerequisite = { focus = A }`, search filters and raw
//! script blocks kept as text. The specifications below state the result of
//! each reading step over the file's characters.
use vstd::prelude::*;
use crate::cost::{Cost, CostView, parse_cost, parse_cost_chars};
use crate::model::{FocusNode, FocusTree, NodeView, Shortcut, TreeView, opt_text, texts};
use crate::text::{
    chars_of, contains_char, find_char, find_char_in, find_seq, is_ws, lines, parse_i32, parse_i32_chars,
    push_all, push_str, rfind_char, rfind_char_in, slice_chars, split_lines, split_whitespace,
    split_whitespace_chars, starts_with, starts_with_chars, string_of, strip_quote_chars,
    strip_quotes, trim, trim_chars, views,
};

verus! {

// ------------------------------------------------------------------------
// Simple `key = value` fields
// ------------------------------------------------------------------------

/// The text of an optional character vector.
pub open spec fn opt_chars(o: Option<Vec<char>>) -> Option<Seq<char>> {
    match o {
        Some(v) => Some(v@),
        None => None,
    }
}

/// The trimmed line `t` starts with `key =` or `key=`.
pub open spec fn has_key(t: Seq<char>, key: Seq<char>) -> bool {
    starts_with(t, key + seq![' ', '=']) || starts_with(t, key + seq!['='])
}

/// The value that a line gives to `key`: the text after the first `=`, trimmed
/// and stripped of quotes, when it is not empty and holds no `{`.
pub open spec fn line_value(line: Seq<char>, key: Seq<char>) -> Option<Seq<char>> {
    let t = trim(line);
    if has_key(t, key) {
        match find_char(t, '=') {
            Some(e) => {
                let v = strip_quotes(trim(t.skip(e + 1)));
                if v.len() > 0 && !v.contains('{') {
                    Some(v)
                } else {
                    None
                }
            },
            None => None,
        }
    } else {
        None
    }
}

/// The value of the first line that gives `key` a value.
pub open spec fn first_value(ls: Seq<Seq<char>>, key: Seq<char>) -> Option<Seq<char>>
    decreases ls.len(),
{
    if ls.len() == 0 {
        None
    } else {
        match line_value(ls[0], key) {
            Some(v) => Some(v),
            None => first_value(ls.drop_first(), key),
        }
    }
}

/// The value of a simple field `key = value` in `content`.
pub open spec fn simple_string(content: Seq<char>, key: Seq<char>) -> Option<Seq<char>> {
    first_value(lines(content), key)
}

/// An integer field; `0` when it is absent or not an `i32`.
pub open spec fn int_of_value(v: Option<Seq<char>>) -> i32 {
    match v {
        Some(t) => match parse_i32(t) {
            Some(i) => i,
            None => 0,
        },
        None => 0,
    }
}

/// A cost field; `None` when it is absent or not a number.
pub open spec fn cost_of_value(v: Option<Seq<char>>) -> Option<CostView> {
    match v {
        Some(t) => parse_cost(t),
        None => None,
    }
}

fn key_with(key: &[char], tail: &str) -> (r: Vec<char>)
    ensures
        r@ == key@ + tail@,
{
    let mut r = slice_chars(key, 0, key.len());
    assert(key@.subrange(0, key@.len() as int) == key@);
    push_str(&mut r, tail);
    r
}

/// Whether the trimmed line `t` starts with `key =` or `key=`.
pub fn has_key_chars(t: &[char], key: &[char]) -> (b: bool)
    ensures
        b == has_key(t@, key@),
{
    let k1 = key_with(key, " =");
    let k2 = key_with(key, "=");
    proof {
        reveal_strlit(" =");
        reveal_strlit("=");
        assert(" ="@ == seq![' ', '=']);
        assert("="@ == seq!['=']);
    }
    starts_with_chars(t, &k1) || starts_with_chars(t, &k2)
}

/// The value that one line gives to `key`.
fn line_value_chars(line: &[char], key: &[char]) -> (r: Option<Vec<char>>)
    ensures
        opt_chars(r) == line_value(line@, key@),
{
    let t = trim_chars(line);
    if !has_key_chars(&t, key) {
        return None;
    }
    match find_char_in(&t, '=') {
        Some(e) => {
            proof {
                crate::text::lemma_find_char(t@, '=');
            }
            let rest = slice_chars(&t, e + 1, t.len());
            assert(rest@ == t@.skip(e + 1));
            let tr = trim_chars(&rest);
            let v = strip_quote_chars(&tr);
            if v.len() > 0 && !contains_char(&v, '{') {
                Some(v)
            } else {
                None
            }
        },
        None => None,
    }
}

/// The value of the first line of `ls` that gives `key` a value.
pub fn first_value_in(ls: &[Vec<char>], key: &[char]) -> (r: Option<Vec<char>>)
    ensures
        opt_chars(r) == first_value(views(ls@), key@),
{
    let n = ls.len();
    let mut i: usize = 0;
    assert(views(ls@).skip(0) == views(ls@));
    while i < n
        invariant
            i <= n == ls@.len(),
            first_value(views(ls@), key@) == first_value(views(ls@).skip(i as int), key@),
        decreases n - i,
    {
        let ghost rest = views(ls@).skip(i as int);
        assert(rest[0] == ls@[i as int]@);
        assert(rest.drop_first() == views(ls@).skip(i + 1));
        let v = line_value_chars(&ls[i], key);
        if v.is_some() {
            return v;
        }
        i = i + 1;
    }
    None
}

/// The value of the simple field `key = value` in `content`: the first line
/// that, trimmed, starts with `key =` or `key=` and has a non-empty value
/// without `{` after its first `=` (trimmed, quotes removed).
pub fn extract_simple_string(content: &str, key: &str) -> (r: Option<String>)
    ensures
        opt_text(r) == simple_string(content@, key@),
{
    let cs = chars_of(content);
    let ks = chars_of(key);
    let ls = split_lines(&cs);
    match first_value_in(&ls, &ks) {
        Some(v) => Some(string_of(&v)),
        None => None,
    }
}

/// An integer field read from an optional value.
fn int_of_value_chars(v: &Option<Vec<char>>) -> (r: i32)
    ensures
        r == int_of_value(opt_chars(*v)),
{
    match v {
        Some(t) => match parse_i32_chars(t) {
            Some(i) => i,
            None => 0,
        },
        None => 0,
    }
}

/// The integer field `key = value` in `content`; `0` when it is absent or is
/// not an `i32`.
pub fn extract_simple_int(content: &str, key: &str) -> (r: i32)
    ensures
        r == int_of_value(simple_string(content@, key@)),
{
    let cs = chars_of(content);
    let ks = chars_of(key);
    let ls = split_lines(&cs);
    let v = first_value_in(&ls, &ks);
    int_of_value_chars(&v)
}

/// A cost field read from an optional value.
fn cost_of_value_chars(v: &Option<Vec<char>>) -> (r: Option<Cost>)
    ensures
        match r {
            Some(c) => cost_of_value(opt_chars(*v)) == Some(c@),
            None => cost_of_value(opt_chars(*v)) is None,
        },
{
    match v {
        Some(t) => parse_cost_chars(t),
        None => None,
    }
}

/// The cost field `key = value` in `content`; `None` when it is absent or is
/// not a number.
pub fn extract_simple_cost(content: &str, key: &str) -> (r: Option<Cost>)
    ensures
        match r {
            Some(c) => cost_of_value(simple_string(content@, key@)) == Some(c@),
            None => cost_of_value(simple_string(content@, key@)) is None,
        },
{
    let cs = chars_of(content);
    let ks = chars_of(key);
    let ls = split_lines(&cs);
    let v = first_value_in(&ls, &ks);
    cost_of_value_chars(&v)
}

// ------------------------------------------------------------------------
// List fields: `prerequisite = { focus = A }`
// ------------------------------------------------------------------------

/// A sequence of zero or one text.
pub open spec fn opt_seq(o: Option<Seq<char>>) -> Seq<Seq<char>> {
    match o {
        Some(v) => seq![v],
        None => Seq::empty(),
    }
}

/// The item that one line adds to the list field `block_key`: the value of
/// `inner_key` between the line's first `{` and its first `}`.
pub open spec fn list_item(line: Seq<char>, block_key: Seq<char>, inner_key: Seq<char>) -> Option<
    Seq<char>,
> {
    let t = trim(line);
    if has_key(t, block_key) {
        match (find_char(t, '{'), find_char(t, '}')) {
            (Some(o), Some(c)) => simple_string(t.subrange(o + 1, c), inner_key),
            _ => None,
        }
    } else {
        None
    }
}

/// The items of the list field `block_key`, one per line, in order.
pub open spec fn list_items(ls: Seq<Seq<char>>, block_key: Seq<char>, inner_key: Seq<char>) -> Seq<
    Seq<char>,
>
    decreases ls.len(),
{
    if ls.len() == 0 {
        Seq::empty()
    } else {
        opt_seq(list_item(ls[0], block_key, inner_key)) + list_items(
            ls.drop_first(),
            block_key,
            inner_key,
        )
    }
}

/// A line of the list field `block_key` that holds both braces has its first
/// `}` after its first `{` (the slice between them exists).
pub open spec fn list_line_ok(line: Seq<char>, block_key: Seq<char>) -> bool {
    let t = trim(line);
    has_key(t, block_key) ==> match (find_char(t, '{'), find_char(t, '}')) {
        (Some(o), Some(c)) => o < c,
        _ => true,
    }
}

pub open spec fn list_field_ok(ls: Seq<Seq<char>>, block_key: Seq<char>) -> bool {
    forall|i: int| 0 <= i < ls.len() ==> list_line_ok(#[trigger] ls[i], block_key)
}

/// Strings holding the given character vectors.
pub fn strings_of(v: &Vec<Vec<char>>) -> (r: Vec<String>)
    ensures
        texts(r@) == views(v@),
{
    let mut r: Vec<String> = Vec::new();
    let mut i: usize = 0;
    while i < v.len()
        invariant
            i <= v@.len(),
            r@.len() == i,
            forall|j: int| 0 <= j < i ==> r@[j]@ == #[trigger] v@[j]@,
        decreases v@.len() - i,
    {
        r.push(string_of(&v[i]));
        i = i + 1;
    }
    assert(texts(r@) =~= views(v@));
    r
}

/// The item that one line adds to a list field, or `None` for a line whose
/// braces are out of order.
fn list_item_chars(line: &[char], block_key: &[char], inner_key: &[char]) -> (r: Option<
    Option<Vec<char>>,
>)
    ensures
        r is Some <==> list_line_ok(line@, block_key@),
        r matches Some(v) ==> opt_chars(v) == list_item(line@, block_key@, inner_key@),
{
    let t = trim_chars(line);
    if !has_key_chars(&t, block_key) {
        return Some(None);
    }
    let open = find_char_in(&t, '{');
    let close = find_char_in(&t, '}');
    match (open, close) {
        (Some(o), Some(c)) => {
            proof {
                crate::text::lemma_find_char(t@, '{');
                crate::text::lemma_find_char(t@, '}');
            }
            if c < o {
                return None;
            }
            let inner = slice_chars(&t, o + 1, c);
            let ils = split_lines(&inner);
            Some(first_value_in(&ils, inner_key))
        },
        _ => Some(None),
    }
}

/// The items of a list field over the lines `ls`, or `None` when a line has its
/// braces out of order.
pub fn list_items_in(ls: &[Vec<char>], block_key: &[char], inner_key: &[char]) -> (r: Option<
    Vec<Vec<char>>,
>)
    ensures
        r is Some <==> list_field_ok(views(ls@), block_key@),
        r matches Some(v) ==> views(v@) == list_items(views(ls@), block_key@, inner_key@),
{
    let n = ls.len();
    let mut out: Vec<Vec<char>> = Vec::new();
    let mut i: usize = 0;
    let ghost all = views(ls@);
    assert(all.skip(0) == all);
    assert(views(out@) =~= Seq::<Seq<char>>::empty());
    while i < n
        invariant
            i <= n == ls@.len(),
            all == views(ls@),
            views(out@) + list_items(all.skip(i as int), block_key@, inner_key@) == list_items(
                all,
                block_key@,
                inner_key@,
            ),
            forall|j: int| 0 <= j < i ==> list_line_ok(#[trigger] all[j], block_key@),
        decreases n - i,
    {
        let ghost rest = all.skip(i as int);
        assert(rest[0] == ls@[i as int]@);
        assert(rest.drop_first() == all.skip(i + 1));
        match list_item_chars(&ls[i], block_key, inner_key) {
            None => {
                assert(!list_line_ok(all[i as int], block_key@));
                return None;
            },
            Some(item) => {
                let ghost before = views(out@);
                match item {
                    Some(v) => {
                        proof {
                            crate::text::lemma_views_push(out@, v);
                        }
                        out.push(v);
                    },
                    None => {},
                }
                assert(views(out@) + list_items(all.skip(i + 1), block_key@, inner_key@) =~= before
                    + list_items(rest, block_key@, inner_key@));
            },
        }
        i = i + 1;
    }
    assert(all.skip(n as int) =~= Seq::<Seq<char>>::empty());
    assert(views(out@) + list_items(all.skip(n as int), block_key@, inner_key@) =~= views(out@));
    Some(out)
}

/// The items of the list field `block_key`: for every line that, trimmed,
/// starts with `block_key =` or `block_key=`, the value of `inner_key` between
/// its first `{` and its first `}`.
pub fn extract_list_field(content: &str, block_key: &str, inner_key: &str) -> (r: Vec<String>)
    requires
        list_field_ok(lines(content@), block_key@),
    ensures
        texts(r@) == list_items(lines(content@), block_key@, inner_key@),
{
    let cs = chars_of(content);
    let bk = chars_of(block_key);
    let ik = chars_of(inner_key);
    let ls = split_lines(&cs);
    let items = list_items_in(&ls, &bk, &ik);
    let v = items.unwrap();
    strings_of(&v)
}

// ------------------------------------------------------------------------
// Search filters: `search_filters = { A B }`
// ------------------------------------------------------------------------

/// The words without `=`.
pub open spec fn words_without_eq(ws: Seq<Seq<char>>) -> Seq<Seq<char>>
    decreases ws.len(),
{
    if ws.len() == 0 {
        Seq::empty()
    } else {
        (if ws[0].len() > 0 && !ws[0].contains('=') {
            seq![ws[0]]
        } else {
            Seq::<Seq<char>>::empty()
        }) + words_without_eq(ws.drop_first())
    }
}

/// The trimmed line `t` is the search-filter line.
pub open spec fn is_filter_line(t: Seq<char>) -> bool {
    starts_with(t, "search_filters"@) && t.contains('{')
}

/// The filters of the search-filter line `t`: the words without `=` between
/// its first `{` and its first `}`.
pub open spec fn filters_of_line(t: Seq<char>) -> Seq<Seq<char>> {
    match (find_char(t, '{'), find_char(t, '}')) {
        (Some(o), Some(c)) => words_without_eq(split_whitespace(t.subrange(o + 1, c))),
        _ => Seq::empty(),
    }
}

pub open spec fn filter_line_ok(t: Seq<char>) -> bool {
    match (find_char(t, '{'), find_char(t, '}')) {
        (Some(o), Some(c)) => o < c,
        _ => true,
    }
}

/// The filters of the first search-filter line.
pub open spec fn search_filters_in(ls: Seq<Seq<char>>) -> Seq<Seq<char>>
    decreases ls.len(),
{
    if ls.len() == 0 {
        Seq::empty()
    } else if is_filter_line(trim(ls[0])) {
        filters_of_line(trim(ls[0]))
    } else {
        search_filters_in(ls.drop_first())
    }
}

/// The first search-filter line has its braces in order.
pub open spec fn search_filters_ok(ls: Seq<Seq<char>>) -> bool
    decreases ls.len(),
{
    if ls.len() == 0 {
        true
    } else if is_filter_line(trim(ls[0])) {
        filter_line_ok(trim(ls[0]))
    } else {
        search_filters_ok(ls.drop_first())
    }
}

/// The words of `ws` without `=`.
fn words_without_eq_in(ws: Vec<Vec<char>>) -> (r: Vec<Vec<char>>)
    ensures
        views(r@) == words_without_eq(views(ws@)),
{
    let n = ws.len();
    let mut out: Vec<Vec<char>> = Vec::new();
    let mut i: usize = 0;
    let ghost all = views(ws@);
    assert(all.skip(0) == all);
    assert(views(out@) =~= Seq::<Seq<char>>::empty());
    while i < n
        invariant
            i <= n == ws@.len(),
            all == views(ws@),
            views(out@) + words_without_eq(all.skip(i as int)) == words_without_eq(all),
        decreases n - i,
    {
        let ghost rest = all.skip(i as int);
        assert(rest[0] == ws@[i as int]@);
        assert(rest.drop_first() == all.skip(i + 1));
        let ghost before = views(out@);
        if ws[i].len() > 0 && !contains_char(&ws[i], '=') {
            let w = slice_chars(&ws[i], 0, ws[i].len());
            assert(w@ == ws@[i as int]@);
            proof {
                crate::text::lemma_views_push(out@, w);
            }
            out.push(w);
        }
        assert(views(out@) + words_without_eq(all.skip(i + 1)) =~= before + words_without_eq(rest));
        i = i + 1;
    }
    assert(all.skip(n as int) =~= Seq::<Seq<char>>::empty());
    assert(views(out@) + words_without_eq(all.skip(n as int)) =~= views(out@));
    out
}

/// The filters of the first search-filter line of `ls`, or `None` when that
/// line has its braces out of order.
pub fn search_filters_of(ls: &[Vec<char>]) -> (r: Option<Vec<Vec<char>>>)
    ensures
        r is Some <==> search_filters_ok(views(ls@)),
        r matches Some(v) ==> views(v@) == search_filters_in(views(ls@)),
{
    let n = ls.len();
    let prefix = chars_of("search_filters");
    let mut i: usize = 0;
    let ghost all = views(ls@);
    assert(all.skip(0) == all);
    while i < n
        invariant
            i <= n == ls@.len(),
            all == views(ls@),
            prefix@ == "search_filters"@,
            search_filters_in(all) == search_filters_in(all.skip(i as int)),
            search_filters_ok(all) == search_filters_ok(all.skip(i as int)),
        decreases n - i,
    {
        let ghost rest = all.skip(i as int);
        assert(rest[0] == ls@[i as int]@);
        assert(rest.drop_first() == all.skip(i + 1));
        let t = trim_chars(&ls[i]);
        if starts_with_chars(&t, &prefix) && contains_char(&t, '{') {
            let open = find_char_in(&t, '{');
            let close = find_char_in(&t, '}');
            proof {
                crate::text::lemma_find_char(t@, '{');
                crate::text::lemma_find_char(t@, '}');
            }
            match (open, close) {
                (Some(o), Some(c)) => {
                    if c < o {
                        return None;
                    }
                    let inner = slice_chars(&t, o + 1, c);
                    let ws = split_whitespace_chars(&inner);
                    return Some(words_without_eq_in(ws));
                },
                _ => {
                    let empty: Vec<Vec<char>> = Vec::new();
                    assert(views(empty@) =~= Seq::<Seq<char>>::empty());
                    return Some(empty);
                },
            }
        }
        i = i + 1;
    }
    let empty: Vec<Vec<char>> = Vec::new();
    assert(views(empty@) =~= Seq::<Seq<char>>::empty());
    assert(all.skip(n as int) =~= Seq::<Seq<char>>::empty());
    Some(empty)
}

/// The search filters: the words without `=` between the first `{` and the
/// first `}` of the first line that, trimmed, starts with `search_filters` and
/// holds a `{`.
pub fn extract_search_filters(content: &str) -> (r: Vec<String>)
    requires
        search_filters_ok(lines(content@)),
    ensures
        texts(r@) == search_filters_in(lines(content@)),
{
    let cs = chars_of(content);
    let ls = split_lines(&cs);
    let v = search_filters_of(&ls).unwrap();
    strings_of(&v)
}

// ------------------------------------------------------------------------
// Raw script blocks: `key = { ... }`, kept as text
// ------------------------------------------------------------------------

/// Index of the first line that, trimmed, starts with `key =` or `key=`.
pub open spec fn first_key_line(ls: Seq<Seq<char>>, key: Seq<char>) -> Option<int>
    decreases ls.len(),
{
    if ls.len() == 0 {
        None
    } else if has_key(trim(ls[0]), key) {
        Some(0)
    } else {
        match first_key_line(ls.drop_first(), key) {
            Some(i) => Some(i + 1),
            None => None,
        }
    }
}

/// Brace depth and whether a `{` was seen, after one more character.
pub open spec fn brace_step(c: char, depth: int, started: bool) -> (int, bool) {
    if c == '{' {
        (depth + 1, true)
    } else if c == '}' {
        (depth - 1, started)
    } else {
        (depth, started)
    }
}

/// Brace depth and whether a `{` was seen, after the characters of `l`.
pub open spec fn line_state(l: Seq<char>, depth: int, started: bool) -> (int, bool)
    decreases l.len(),
{
    if l.len() == 0 {
        (depth, started)
    } else {
        let (d, s) = brace_step(l[0], depth, started);
        line_state(l.drop_first(), d, s)
    }
}

/// The lines of a raw block, from line `j` on: every line from the one where a
/// `{` is first seen, up to the first line after which the braces balance.
pub open spec fn block_lines_from(
    ls: Seq<Seq<char>>,
    j: int,
    depth: int,
    started: bool,
    acc: Seq<Seq<char>>,
) -> Option<Seq<Seq<char>>>
    decreases ls.len() - j,
{
    if j < 0 || j >= ls.len() {
        None
    } else {
        let (d, s) = line_state(ls[j], depth, started);
        let acc2 = if s {
            acc.push(ls[j])
        } else {
            acc
        };
        if s && d == 0 {
            Some(acc2)
        } else {
            block_lines_from(ls, j + 1, d, s, acc2)
        }
    }
}

/// The block lines with everything up to the first line's first `{` removed.
pub open spec fn cut_first_open(bl: Seq<Seq<char>>) -> Seq<Seq<char>> {
    if bl.len() > 0 {
        match find_char(bl[0], '{') {
            Some(p) => bl.update(0, bl[0].skip(p + 1)),
            None => bl,
        }
    } else {
        bl
    }
}

/// The block lines with everything from the last line's last `}` removed.
pub open spec fn cut_last_close(bl: Seq<Seq<char>>) -> Seq<Seq<char>> {
    if bl.len() > 0 {
        match rfind_char(bl.last(), '}') {
            Some(p) => bl.update(bl.len() - 1, bl.last().take(p)),
            None => bl,
        }
    } else {
        bl
    }
}

/// The lines joined with `\n` between them.
pub open spec fn join_lines(bl: Seq<Seq<char>>) -> Seq<char>
    decreases bl.len(),
{
    if bl.len() == 0 {
        Seq::empty()
    } else if bl.len() == 1 {
        bl[0]
    } else {
        join_lines(bl.drop_last()) + seq!['\n'] + bl.last()
    }
}

/// The stored form of a raw block: its trimmed inside between braces.
pub open spec fn wrap_block(inner: Seq<char>) -> Seq<char> {
    "{\n\t\t\t"@ + trim(inner) + "\n\t\t}"@
}

/// The raw block `key = { ... }` as text: from the first line that, trimmed,
/// starts with `key =` or `key=`; on one line when that line holds both braces,
/// else over the following lines until the braces balance.
pub open spec fn block_as_text(ls: Seq<Seq<char>>, key: Seq<char>) -> Option<Seq<char>> {
    match first_key_line(ls, key) {
        None => None,
        Some(i) => {
            let t = trim(ls[i]);
            if t.contains('{') && t.contains('}') {
                match (find_char(t, '{'), rfind_char(t, '}')) {
                    (Some(o), Some(c)) => Some(wrap_block(t.subrange(o + 1, c))),
                    _ => None,
                }
            } else {
                match block_lines_from(ls, i, 0, false, Seq::empty()) {
                    Some(bl) => Some(wrap_block(join_lines(cut_last_close(cut_first_open(bl))))),
                    None => None,
                }
            }
        },
    }
}

/// A one-line raw block has its last `}` after its first `{`.
pub open spec fn block_text_ok(ls: Seq<Seq<char>>, key: Seq<char>) -> bool {
    match first_key_line(ls, key) {
        None => true,
        Some(i) => {
            let t = trim(ls[i]);
            (t.contains('{') && t.contains('}')) ==> match (find_char(t, '{'), rfind_char(t, '}')) {
                (Some(o), Some(c)) => o < c,
                _ => true,
            }
        },
    }
}

pub proof fn lemma_first_key_line(ls: Seq<Seq<char>>, key: Seq<char>)
    ensures
        match first_key_line(ls, key) {
            Some(i) => 0 <= i < ls.len() && has_key(trim(ls[i]), key) && forall|j: int|
                0 <= j < i ==> !has_key(trim(#[trigger] ls[j]), key),
            None => forall|j: int| 0 <= j < ls.len() ==> !has_key(trim(#[trigger] ls[j]), key),
        },
    decreases ls.len(),
{
    if ls.len() > 0 && !has_key(trim(ls[0]), key) {
        lemma_first_key_line(ls.drop_first(), key);
        assert forall|j: int| 0 < j < ls.len() implies ls[j] == ls.drop_first()[j - 1] by {}
    }
}

/// Brace depth and whether a `{` was seen, after the characters of `l`.
pub fn line_state_in(l: &[char], depth: i128, started: bool) -> (r: (i128, bool))
    requires
        -0x7000_0000_0000_0000_0000_0000_0000_0000 <= depth <= 0x7000_0000_0000_0000_0000_0000_0000_0000,
    ensures
        (r.0 as int, r.1) == line_state(l@, depth as int, started),
        depth - l@.len() <= r.0 <= depth + l@.len(),
{
    let n = l.len();
    let mut d = depth;
    let mut s = started;
    let mut k: usize = 0;
    assert(l@.skip(0) == l@);
    while k < n
        invariant
            k <= n == l@.len(),
            depth - k <= d <= depth + k,
            -0x7000_0000_0000_0000_0000_0000_0000_0000 <= depth <= 0x7000_0000_0000_0000_0000_0000_0000_0000,
            line_state(l@, depth as int, started) == line_state(l@.skip(k as int), d as int, s),
        decreases n - k,
    {
        let c = l[k];
        assert(l@.skip(k as int).drop_first() == l@.skip(k + 1));
        if c == '{' {
            d = d + 1;
            s = true;
        } else if c == '}' {
            d = d - 1;
        }
        k = k + 1;
    }
    assert(l@.skip(n as int) =~= Seq::<char>::empty());
    (d, s)
}

/// A copy of a character vector.
pub fn copy_chars(v: &Vec<char>) -> (r: Vec<char>)
    ensures
        r@ == v@,
{
    let r = slice_chars(v, 0, v.len());
    assert(v@.subrange(0, v@.len() as int) == v@);
    r
}

/// The lines of a raw block starting at line `i`, or `None` when its braces
/// never balance.
fn block_lines_in(ls: &[Vec<char>], i: usize) -> (r: Option<Vec<Vec<char>>>)
    requires
        i < ls@.len(),
        crate::text::sum_len(views(ls@)) <= usize::MAX,
    ensures
        match r {
            Some(v) => block_lines_from(views(ls@), i as int, 0, false, Seq::empty()) == Some(
                views(v@),
            ),
            None => block_lines_from(views(ls@), i as int, 0, false, Seq::empty()) is None,
        },
{
    let n = ls.len();
    let ghost all = views(ls@);
    let mut acc: Vec<Vec<char>> = Vec::new();
    let mut depth: i128 = 0;
    let mut started = false;
    let mut j: usize = i;
    assert(views(acc@) =~= Seq::<Seq<char>>::empty());
    proof {
        crate::text::lemma_sum_len_take(all, i as int);
    }
    while j < n
        invariant
            i <= j <= n == ls@.len(),
            all == views(ls@),
            crate::text::sum_len(all) <= usize::MAX,
            -crate::text::sum_len(all.take(j as int)) <= depth <= crate::text::sum_len(
                all.take(j as int),
            ),
            block_lines_from(all, i as int, 0, false, Seq::empty()) == block_lines_from(
                all,
                j as int,
                depth as int,
                started,
                views(acc@),
            ),
        decreases n - j,
    {
        proof {
            crate::text::lemma_sum_len_take(all, j as int);
            crate::text::lemma_sum_len_take(all, j + 1);
            assert(all[j as int] == ls@[j as int]@);
        }
        let (d, s) = line_state_in(&ls[j], depth, started);
        if s {
            let line = copy_chars(&ls[j]);
            proof {
                crate::text::lemma_views_push(acc@, line);
            }
            acc.push(line);
        }
        if s && d == 0 {
            return Some(acc);
        }
        depth = d;
        started = s;
        j = j + 1;
    }
    None
}

/// Removes everything up to the first line's first `{`.
fn cut_first_open_in(bl: &mut Vec<Vec<char>>)
    ensures
        views(final(bl)@) == cut_first_open(views(old(bl)@)),
{
    if bl.len() > 0 {
        let first = copy_chars(&bl[0]);
        match find_char_in(&first, '{') {
            Some(p) => {
                proof {
                    crate::text::lemma_find_char(first@, '{');
                }
                assert(p < first.len());
                let cut = slice_chars(&first, p + 1, first.len());
                assert(cut@ == first@.skip(p + 1));
                let ghost before = views(bl@);
                bl.set(0, cut);
                assert(views(bl@) =~= before.update(0, cut@));
            },
            None => {},
        }
    }
}

/// Removes everything from the last line's last `}`.
fn cut_last_close_in(bl: &mut Vec<Vec<char>>)
    ensures
        views(final(bl)@) == cut_last_close(views(old(bl)@)),
{
    let n = bl.len();
    if n > 0 {
        let last = copy_chars(&bl[n - 1]);
        match rfind_char_in(&last, '}') {
            Some(p) => {
                proof {
                    crate::text::lemma_rfind_char(last@, '}');
                }
                let cut = slice_chars(&last, 0, p);
                assert(cut@ == last@.take(p as int));
                let ghost before = views(bl@);
                bl.set(n - 1, cut);
                assert(views(bl@) =~= before.update(n - 1, cut@));
            },
            None => {},
        }
    }
}

/// The lines joined with `\n` between them.
fn join_lines_in(bl: &[Vec<char>]) -> (r: Vec<char>)
    ensures
        r@ == join_lines(views(bl@)),
{
    let n = bl.len();
    let mut out: Vec<char> = Vec::new();
    if n == 0 {
        return out;
    }
    let ghost all = views(bl@);
    push_all(&mut out, &bl[0]);
    let mut i: usize = 1;
    assert(all.take(1).drop_last() =~= Seq::<Seq<char>>::empty());
    assert(out@ == join_lines(all.take(1)));
    while i < n
        invariant
            1 <= i <= n == bl@.len(),
            all == views(bl@),
            out@ == join_lines(all.take(i as int)),
        decreases n - i,
    {
        out.push('\n');
        push_all(&mut out, &bl[i]);
        assert(all.take(i + 1).drop_last() == all.take(i as int));
        assert(out@ =~= join_lines(all.take(i + 1)));
        i = i + 1;
    }
    assert(all.take(n as int) == all);
    out
}

/// The stored form of a raw block.
fn wrap_block_in(inner: &[char]) -> (r: String)
    ensures
        r@ == wrap_block(inner@),
{
    let mut out: Vec<char> = Vec::new();
    push_str(&mut out, "{\n\t\t\t");
    let t = trim_chars(inner);
    push_all(&mut out, &t);
    push_str(&mut out, "\n\t\t}");
    assert(out@ =~= wrap_block(inner@));
    string_of(&out)
}

/// The raw block `key = { ... }` over the lines `ls`, or `None` (outside) when
/// a one-line block has its braces out of order.
pub fn block_as_text_in(ls: &[Vec<char>], key: &[char]) -> (r: Option<Option<String>>)
    requires
        crate::text::sum_len(views(ls@)) <= usize::MAX,
    ensures
        r is Some <==> block_text_ok(views(ls@), key@),
        r matches Some(v) ==> opt_text(v) == block_as_text(views(ls@), key@),
{
    let n = ls.len();
    let ghost all = views(ls@);
    let mut i: usize = 0;
    proof {
        lemma_first_key_line(all, key@);
    }
    while i < n
        invariant
            i <= n == ls@.len(),
            all == views(ls@),
            crate::text::sum_len(views(ls@)) <= usize::MAX,
            forall|j: int| 0 <= j < i ==> !has_key(trim(#[trigger] all[j]), key@),
        decreases n - i,
    {
        let t = trim_chars(&ls[i]);
        assert(all[i as int] == ls@[i as int]@);
        if has_key_chars(&t, key) {
            proof {
                lemma_first_key_line(all, key@);
                if let Some(f) = first_key_line(all, key@) {
                    if f < i {
                        assert(!has_key(trim(all[f]), key@));
                    }
                } else {
                    assert(!has_key(trim(all[i as int]), key@));
                }
            }
            assert(first_key_line(all, key@) == Some(i as int));
            if contains_char(&t, '{') && contains_char(&t, '}') {
                let o = find_char_in(&t, '{');
                let c = rfind_char_in(&t, '}');
                proof {
                    crate::text::lemma_find_char(t@, '{');
                    crate::text::lemma_rfind_char(t@, '}');
                }
                match (o, c) {
                    (Some(o), Some(c)) => {
                        if c < o {
                            return None;
                        }
                        let inner = slice_chars(&t, o + 1, c);
                        return Some(Some(wrap_block_in(&inner)));
                    },
                    _ => {
                        return Some(None);
                    },
                }
            }
            match block_lines_in(ls, i) {
                Some(bl) => {
                    let mut bl = bl;
                    cut_first_open_in(&mut bl);
                    cut_last_close_in(&mut bl);
                    let joined = join_lines_in(&bl);
                    return Some(Some(wrap_block_in(&joined)));
                },
                None => {
                    return Some(None);
                },
            }
        }
        i = i + 1;
    }
    proof {
        lemma_first_key_line(all, key@);
        if let Some(f) = first_key_line(all, key@) {
            assert(!has_key(trim(all[f]), key@));
        }
    }
    Some(None)
}

/// The raw block `key = { ... }` as text (see [`block_as_text`]).
pub fn extract_block_as_text(content: &str, key: &str) -> (r: Option<String>)
    requires
        block_text_ok(lines(content@), key@),
    ensures
        opt_text(r) == block_as_text(lines(content@), key@),
{
    let cs = chars_of(content);
    let ks = chars_of(key);
    let ls = split_lines(&cs);
    proof {
        crate::text::lemma_lines_sum_len(cs@);
    }
    block_as_text_in(&ls, &ks).unwrap()
}

// ------------------------------------------------------------------------
// A single focus block
// ------------------------------------------------------------------------

/// `bypass_if_unavailable` is set by the values `yes` and `true`.
pub open spec fn bypass_flag(v: Option<Seq<char>>) -> bool {
    match v {
        Some(t) => t == "yes"@ || t == "true"@,
        None => false,
    }
}

/// The focus that the text of one `focus = { ... }` block describes; none when
/// the block gives no `id`.
pub open spec fn single_focus(content: Seq<char>) -> Option<NodeView> {
    let ls = lines(content);
    match first_value(ls, "id"@) {
        None => None,
        Some(id) => Some(
            NodeView {
                id: id,
                icon: first_value(ls, "icon"@),
                x: int_of_value(first_value(ls, "x"@)),
                y: int_of_value(first_value(ls, "y"@)),
                relative_position_id: first_value(ls, "relative_position_id"@),
                cost: cost_of_value(first_value(ls, "cost"@)),
                prerequisites: list_items(ls, "prerequisite"@, "focus"@),
                mutually_exclusive: list_items(ls, "mutually_exclusive"@, "focus"@),
                bypass_if_unavailable: bypass_flag(first_value(ls, "bypass_if_unavailable"@)),
                available_raw: block_as_text(ls, "available"@),
                completion_reward_raw: block_as_text(ls, "completion_reward"@),
                immediate_raw: block_as_text(ls, "immediate"@),
                ai_will_do_raw: block_as_text(ls, "ai_will_do"@),
                search_filters: search_filters_in(ls),
                bypass_raw: block_as_text(ls, "bypass"@),
            },
        ),
    }
}

/// Every slice that reading a focus block takes exists: the block gives no
/// `id`, or its list, filter and one-line raw block lines have their braces in
/// order.
pub open spec fn single_focus_ok(content: Seq<char>) -> bool {
    let ls = lines(content);
    ||| first_value(ls, "id"@) is None
    ||| {
        &&& list_field_ok(ls, "prerequisite"@)
        &&& list_field_ok(ls, "mutually_exclusive"@)
        &&& search_filters_ok(ls)
        &&& block_text_ok(ls, "available"@)
        &&& block_text_ok(ls, "completion_reward"@)
        &&& block_text_ok(ls, "immediate"@)
        &&& block_text_ok(ls, "ai_will_do"@)
        &&& block_text_ok(ls, "bypass"@)
    }
}

/// Whether `a` holds exactly the characters of `b`.
pub fn chars_eq_str(a: &[char], b: &str) -> (r: bool)
    ensures
        r == (a@ == b@),
{
    let bc = chars_of(b);
    if a.len() != bc.len() {
        return false;
    }
    let r = starts_with_chars(a, &bc);
    assert(a@.take(bc@.len() as int) == a@);
    r
}

fn opt_string_of(v: &Option<Vec<char>>) -> (r: Option<String>)
    ensures
        opt_text(r) == opt_chars(*v),
{
    match v {
        Some(t) => Some(string_of(t)),
        None => None,
    }
}

fn value_of(ls: &[Vec<char>], key: &str) -> (r: Option<Vec<char>>)
    ensures
        opt_chars(r) == first_value(views(ls@), key@),
{
    let k = chars_of(key);
    first_value_in(ls, &k)
}

fn block_of(ls: &[Vec<char>], key: &str) -> (r: Option<Option<String>>)
    requires
        crate::text::sum_len(views(ls@)) <= usize::MAX,
    ensures
        r is Some <==> block_text_ok(views(ls@), key@),
        r matches Some(v) ==> opt_text(v) == block_as_text(views(ls@), key@),
{
    let k = chars_of(key);
    block_as_text_in(ls, &k)
}

fn list_of(ls: &[Vec<char>], block_key: &str) -> (r: Option<Vec<String>>)
    ensures
        r is Some <==> list_field_ok(views(ls@), block_key@),
        r matches Some(v) ==> texts(v@) == list_items(views(ls@), block_key@, "focus"@),
{
    let bk = chars_of(block_key);
    let ik = chars_of("focus");
    match list_items_in(ls, &bk, &ik) {
        Some(v) => Some(strings_of(&v)),
        None => None,
    }
}

/// Reads one focus block, or `None` (outside) when a slice that reading takes
/// does not exist.
pub fn single_focus_in(content: &[char]) -> (r: Option<Option<FocusNode>>)
    ensures
        r is Some <==> single_focus_ok(content@),
        r matches Some(v) ==> match v {
            Some(n) => single_focus(content@) == Some(n@),
            None => single_focus(content@) is None,
        },
{
    let ls = split_lines(content);
    let clen = content.len();
    proof {
        crate::text::lemma_lines_sum_len(content@);
        assert(content@.len() == clen);
    }
    let id = match value_of(&ls, "id") {
        Some(v) => v,
        None => {
            return Some(None);
        },
    };
    let icon = value_of(&ls, "icon");
    let xv = value_of(&ls, "x");
    let yv = value_of(&ls, "y");
    let rel = value_of(&ls, "relative_position_id");
    let costv = value_of(&ls, "cost");
    let bypassv = value_of(&ls, "bypass_if_unavailable");
    let bypass = match &bypassv {
        Some(t) => chars_eq_str(t, "yes") || chars_eq_str(t, "true"),
        None => false,
    };
    let prerequisites = match list_of(&ls, "prerequisite") {
        Some(v) => v,
        None => {
            return None;
        },
    };
    let mutually_exclusive = match list_of(&ls, "mutually_exclusive") {
        Some(v) => v,
        None => {
            return None;
        },
    };
    let filters = match search_filters_of(&ls) {
        Some(v) => strings_of(&v),
        None => {
            return None;
        },
    };
    let available = match block_of(&ls, "available") {
        Some(v) => v,
        None => {
            return None;
        },
    };
    let completion = match block_of(&ls, "completion_reward") {
        Some(v) => v,
        None => {
            return None;
        },
    };
    let immediate = match block_of(&ls, "immediate") {
        Some(v) => v,
        None => {
            return None;
        },
    };
    let ai = match block_of(&ls, "ai_will_do") {
        Some(v) => v,
        None => {
            return None;
        },
    };
    let bypass_block = match block_of(&ls, "bypass") {
        Some(v) => v,
        None => {
            return None;
        },
    };
    let node = FocusNode {
        id: string_of(&id),
        icon: opt_string_of(&icon),
        x: int_of_value_chars(&xv),
        y: int_of_value_chars(&yv),
        relative_position_id: opt_string_of(&rel),
        cost: cost_of_value_chars(&costv),
        prerequisites: prerequisites,
        mutually_exclusive: mutually_exclusive,
        bypass_if_unavailable: bypass,
        available_raw: available,
        completion_reward_raw: completion,
        immediate_raw: immediate,
        ai_will_do_raw: ai,
        search_filters: filters,
        bypass_raw: bypass_block,
    };
    Some(Some(node))
}

/// Reads the focus that the text of one `focus = { ... }` block describes;
/// `None` when the block gives no `id` (see [`single_focus`]).
pub fn parse_single_focus(content: &str) -> (r: Option<FocusNode>)
    requires
        single_focus_ok(content@),
    ensures
        match r {
            Some(n) => single_focus(content@) == Some(n@),
            None => single_focus(content@) is None,
        },
{
    let cs = chars_of(content);
    single_focus_in(&cs).unwrap()
}

// ------------------------------------------------------------------------
// Focus blocks: `focus = { ... }` over several lines
// ------------------------------------------------------------------------

/// The line opens a focus block: trimmed, it starts with `focus =` or `focus=`
/// and holds a `{`.
pub open spec fn opens_focus(line: Seq<char>) -> bool {
    let t = trim(line);
    (starts_with(t, "focus ="@) || starts_with(t, "focus="@)) && t.contains('{')
}

/// Scanning `l` from index `k` with the given brace state: the index of the
/// character after which a `{` has been seen and the braces balance, if any,
/// and the state at the end of the line.
pub open spec fn line_close(l: Seq<char>, k: int, depth: int, started: bool) -> (
    Option<int>,
    int,
    bool,
)
    decreases l.len() - k,
{
    if k < 0 || k >= l.len() {
        (None, depth, started)
    } else {
        let (d, s) = brace_step(l[k], depth, started);
        if s && d == 0 {
            (Some(k), d, s)
        } else {
            line_close(l, k + 1, d, s)
        }
    }
}

/// Line and character index of the brace that closes a block scanned from line `j`.
pub open spec fn close_from(ls: Seq<Seq<char>>, j: int, depth: int, started: bool) -> Option<
    (int, int),
>
    decreases ls.len() - j,
{
    if j < 0 || j >= ls.len() {
        None
    } else {
        let (c, d, s) = line_close(ls[j], 0, depth, started);
        match c {
            Some(k) => Some((j, k)),
            None => close_from(ls, j + 1, d, s),
        }
    }
}

/// Lines `i..j`, each followed by `\n`.
pub open spec fn joined(ls: Seq<Seq<char>>, i: int, j: int) -> Seq<char>
    decreases j - i,
{
    if j <= i {
        Seq::empty()
    } else {
        joined(ls, i, j - 1) + ls[j - 1] + seq!['\n']
    }
}

pub proof fn lemma_line_close(l: Seq<char>, k: int, depth: int, started: bool)
    requires
        0 <= k,
    ensures
        line_close(l, k, depth, started).0 matches Some(c) ==> k <= c < l.len(),
    decreases l.len() - k,
{
    if k < l.len() {
        let (d, s) = brace_step(l[k], depth, started);
        if !(s && d == 0) {
            lemma_line_close(l, k + 1, d, s);
        }
    }
}

pub proof fn lemma_close_from(ls: Seq<Seq<char>>, j: int, depth: int, started: bool)
    requires
        0 <= j,
    ensures
        close_from(ls, j, depth, started) matches Some((jj, k)) ==> j <= jj < ls.len() && 0 <= k
            < ls[jj].len(),
    decreases ls.len() - j,
{
    if j < ls.len() {
        lemma_line_close(ls[j], 0, depth, started);
        let (c, d, s) = line_close(ls[j], 0, depth, started);
        if c is None {
            lemma_close_from(ls, j + 1, d, s);
        }
    }
}

/// The texts of the focus blocks from line `i` on: from a line that opens a
/// focus block up to (not including) the brace that balances it.
pub open spec fn focus_blocks(ls: Seq<Seq<char>>, i: int) -> Seq<Seq<char>>
    decreases ls.len() - i,
{
    if i < 0 || i >= ls.len() {
        Seq::empty()
    } else if opens_focus(ls[i]) {
        match close_from(ls, i, 0, false) {
            Some((j, k)) => {
                proof {
                    lemma_close_from(ls, i, 0, false);
                }
                seq![joined(ls, i, j) + ls[j].take(k)] + focus_blocks(ls, j + 1)
            },
            None => focus_blocks(ls, i + 1),
        }
    } else {
        focus_blocks(ls, i + 1)
    }
}

/// The focuses that the blocks describe, skipping blocks without an `id`.
pub open spec fn focuses_of(blocks: Seq<Seq<char>>) -> Seq<NodeView>
    decreases blocks.len(),
{
    if blocks.len() == 0 {
        Seq::empty()
    } else {
        (match single_focus(blocks[0]) {
            Some(n) => seq![n],
            None => Seq::<NodeView>::empty(),
        }) + focuses_of(blocks.drop_first())
    }
}

/// Every block can be read (see [`single_focus_ok`]).
pub open spec fn blocks_ok(blocks: Seq<Seq<char>>) -> bool
    decreases blocks.len(),
{
    blocks.len() == 0 || (single_focus_ok(blocks[0]) && blocks_ok(blocks.drop_first()))
}

/// The focuses of `content`, a tree's inside.
pub open spec fn focuses_in(content: Seq<char>) -> Seq<NodeView> {
    focuses_of(focus_blocks(lines(content), 0))
}

pub open spec fn focuses_ok(content: Seq<char>) -> bool {
    blocks_ok(focus_blocks(lines(content), 0))
}

/// Whether the line opens a focus block.
fn opens_focus_in(line: &[char]) -> (b: bool)
    ensures
        b == opens_focus(line@),
{
    let t = trim_chars(line);
    let p1 = chars_of("focus =");
    let p2 = chars_of("focus=");
    (starts_with_chars(&t, &p1) || starts_with_chars(&t, &p2)) && contains_char(&t, '{')
}

/// Scans one line for the brace that closes a block.
fn line_close_in(l: &[char], depth: i128, started: bool) -> (r: (Option<usize>, i128, bool))
    requires
        -0x7000_0000_0000_0000_0000_0000_0000_0000 <= depth <= 0x7000_0000_0000_0000_0000_0000_0000_0000,
    ensures
        (
            match r.0 {
                Some(k) => Some(k as int),
                None => None,
            },
            r.1 as int,
            r.2,
        ) == line_close(l@, 0, depth as int, started),
        depth - l@.len() <= r.1 <= depth + l@.len(),
{
    let n = l.len();
    let mut d = depth;
    let mut s = started;
    let mut k: usize = 0;
    while k < n
        invariant
            k <= n == l@.len(),
            depth - k <= d <= depth + k,
            -0x7000_0000_0000_0000_0000_0000_0000_0000 <= depth <= 0x7000_0000_0000_0000_0000_0000_0000_0000,
            line_close(l@, 0, depth as int, started) == line_close(l@, k as int, d as int, s),
        decreases n - k,
    {
        let c = l[k];
        if c == '{' {
            d = d + 1;
            s = true;
        } else if c == '}' {
            d = d - 1;
        }
        if s && d == 0 {
            return (Some(k), d, s);
        }
        k = k + 1;
    }
    (None, d, s)
}

/// The focus block opened at line `i`: the index of its closing line and its text.
fn scan_focus_block(ls: &[Vec<char>], i: usize) -> (r: Option<(usize, Vec<char>)>)
    requires
        i < ls@.len(),
        crate::text::sum_len(views(ls@)) <= usize::MAX,
    ensures
        match close_from(views(ls@), i as int, 0, false) {
            Some((j, k)) => r matches Some((rj, b)) && rj == j && b@ == joined(views(ls@), i as int, j)
                + views(ls@)[j].take(k),
            None => r is None,
        },
{
    let n = ls.len();
    let ghost all = views(ls@);
    let mut block: Vec<char> = Vec::new();
    let mut depth: i128 = 0;
    let mut started = false;
    let mut j: usize = i;
    proof {
        crate::text::lemma_sum_len_take(all, i as int);
    }
    while j < n
        invariant
            i <= j <= n == ls@.len(),
            all == views(ls@),
            crate::text::sum_len(all) <= usize::MAX,
            -crate::text::sum_len(all.take(j as int)) <= depth <= crate::text::sum_len(
                all.take(j as int),
            ),
            close_from(all, i as int, 0, false) == close_from(all, j as int, depth as int, started),
            block@ == joined(all, i as int, j as int),
        decreases n - j,
    {
        proof {
            crate::text::lemma_sum_len_take(all, j as int);
            crate::text::lemma_sum_len_take(all, j + 1);
            assert(all[j as int] == ls@[j as int]@);
        }
        let (c, d, s) = line_close_in(&ls[j], depth, started);
        match c {
            Some(k) => {
                proof {
                    lemma_line_close(ls@[j as int]@, 0, depth as int, started);
                }
                let head = slice_chars(&ls[j], 0, k);
                push_all(&mut block, &head);
                return Some((j, block));
            },
            None => {
                push_all(&mut block, &ls[j]);
                block.push('\n');
                assert(block@ =~= joined(all, i as int, j + 1));
                depth = d;
                started = s;
                j = j + 1;
            },
        }
    }
    None
}

/// The focuses of the lines `ls`, or `None` when a focus block cannot be read.
pub fn parse_focuses_in(ls: &[Vec<char>]) -> (r: Option<Vec<FocusNode>>)
    requires
        crate::text::sum_len(views(ls@)) <= usize::MAX,
    ensures
        r is Some <==> blocks_ok(focus_blocks(views(ls@), 0)),
        r matches Some(v) ==> crate::model::node_views(v@) == focuses_of(
            focus_blocks(views(ls@), 0),
        ),
{
    let n = ls.len();
    let ghost all = views(ls@);
    let mut out: Vec<FocusNode> = Vec::new();
    let mut i: usize = 0;
    assert(crate::model::node_views(out@) =~= Seq::<NodeView>::empty());
    while i < n
        invariant
            i <= n == ls@.len(),
            all == views(ls@),
            crate::text::sum_len(all) <= usize::MAX,
            crate::model::node_views(out@) + focuses_of(focus_blocks(all, i as int)) == focuses_of(
                focus_blocks(all, 0),
            ),
            blocks_ok(focus_blocks(all, 0)) == blocks_ok(focus_blocks(all, i as int)),
        decreases n - i,
    {
        assert(all[i as int] == ls@[i as int]@);
        if opens_focus_in(&ls[i]) {
            match scan_focus_block(ls, i) {
                Some((j, block)) => {
                    proof {
                        lemma_close_from(all, i as int, 0, false);
                    }
                    let ghost rest = focus_blocks(all, j + 1);
                    assert(focus_blocks(all, i as int) == seq![block@] + rest);
                    assert((seq![block@] + rest)[0] == block@);
                    assert((seq![block@] + rest).drop_first() == rest);
                    let ghost before = crate::model::node_views(out@);
                    match single_focus_in(&block) {
                        None => {
                            return None;
                        },
                        Some(Some(node)) => {
                            out.push(node);
                            assert(crate::model::node_views(out@) =~= before.push(node@));
                        },
                        Some(None) => {},
                    }
                    assert(crate::model::node_views(out@) + focuses_of(rest) =~= before + focuses_of(
                        seq![block@] + rest,
                    ));
                    i = j + 1;
                },
                None => {
                    i = i + 1;
                },
            }
        } else {
            i = i + 1;
        }
    }
    assert(focus_blocks(all, n as int) =~= Seq::<Seq<char>>::empty());
    assert(crate::model::node_views(out@) + focuses_of(focus_blocks(all, n as int)) =~= crate::model::node_views(out@));
    Some(out)
}

/// The focuses of a tree's inside: every `focus = { ... }` block read in order,
/// skipping blocks without an `id` and blocks that never close.
pub fn parse_focuses(content: &str) -> (r: Vec<FocusNode>)
    requires
        focuses_ok(content@),
    ensures
        crate::model::node_views(r@) == focuses_in(content@),
{
    let cs = chars_of(content);
    let ls = split_lines(&cs);
    proof {
        crate::text::lemma_lines_sum_len(cs@);
    }
    parse_focuses_in(&ls).unwrap()
}

// ------------------------------------------------------------------------
// Brace blocks: the inside of `{ ... }`, skipping comments and strings
// ------------------------------------------------------------------------

/// The index of the `\n` that ends the comment line starting at `p`, or the end.
pub open spec fn skip_line(s: Seq<char>, p: int) -> int
    decreases s.len() - p,
{
    if p < 0 || p >= s.len() || s[p] == '\n' {
        p
    } else {
        skip_line(s, p + 1)
    }
}

/// The index of the `"` that closes a string whose text starts at `p`, skipping
/// the character after each `\`; past the end when there is none.
pub open spec fn skip_quoted(s: Seq<char>, p: int) -> int
    decreases s.len() + 1 - p,
{
    if p < 0 || p >= s.len() || s[p] == '"' {
        p
    } else if s[p] == '\\' {
        skip_quoted(s, p + 2)
    } else {
        skip_quoted(s, p + 1)
    }
}

pub proof fn lemma_skip_line(s: Seq<char>, p: int)
    requires
        0 <= p,
    ensures
        p <= skip_line(s, p),
        p <= s.len() ==> skip_line(s, p) <= s.len(),
    decreases s.len() - p,
{
    if p < s.len() && s[p] != '\n' {
        lemma_skip_line(s, p + 1);
    }
}

pub proof fn lemma_skip_quoted(s: Seq<char>, p: int)
    requires
        0 <= p,
    ensures
        p <= skip_quoted(s, p),
        p <= s.len() + 1 ==> skip_quoted(s, p) <= s.len() + 1,
    decreases s.len() + 1 - p,
{
    if p < s.len() && s[p] != '"' {
        if s[p] == '\\' {
            lemma_skip_quoted(s, p + 2);
        } else {
            lemma_skip_quoted(s, p + 1);
        }
    }
}

/// Scanning from `pos` at brace depth `depth`: the position where the scan
/// stops and the depth there. The scan stops one past the brace that brings the
/// depth to zero, or at the end of the text. `#` comments run to the end of
/// their line and `"` strings to their closing quote; braces in them do not
/// count.
pub open spec fn brace_scan(s: Seq<char>, pos: int, depth: int) -> (int, int)
    decreases s.len() + 2 - pos,
{
    if pos < 0 || pos >= s.len() || depth <= 0 {
        (pos, depth)
    } else if s[pos] == '{' {
        brace_scan(s, pos + 1, depth + 1)
    } else if s[pos] == '}' {
        brace_scan(s, pos + 1, depth - 1)
    } else if s[pos] == '#' {
        proof {
            lemma_skip_line(s, pos + 1);
        }
        brace_scan(s, skip_line(s, pos), depth)
    } else if s[pos] == '"' {
        proof {
            lemma_skip_quoted(s, pos + 1);
        }
        brace_scan(s, skip_quoted(s, pos + 1) + 1, depth)
    } else {
        brace_scan(s, pos + 1, depth)
    }
}

/// Where the brace scan from `pos` at depth `depth` stops.
pub open spec fn brace_end(s: Seq<char>, pos: int, depth: int) -> int {
    brace_scan(s, pos, depth).0
}

/// The `{` at `start` is closed: the scan after it brings the depth to zero.
pub open spec fn brace_closes(s: Seq<char>, start: int) -> bool {
    brace_scan(s, start + 1, 1).1 <= 0
}

/// The inside of the brace block whose `{` is at `start`.
pub open spec fn brace_block(s: Seq<char>, start: int) -> Seq<char> {
    s.subrange(start + 1, brace_end(s, start + 1, 1) - 1)
}

fn skip_line_in(s: &[char], p: usize) -> (r: usize)
    requires
        p <= s@.len(),
    ensures
        r == skip_line(s@, p as int),
        p <= r <= s@.len(),
{
    let mut q = p;
    while q < s.len() && s[q] != '\n'
        invariant
            p <= q <= s@.len(),
            skip_line(s@, p as int) == skip_line(s@, q as int),
        decreases s@.len() - q,
    {
        q = q + 1;
    }
    q
}

fn skip_quoted_in(s: &[char], p: u128) -> (r: u128)
    requires
        p <= s@.len(),
    ensures
        r == skip_quoted(s@, p as int),
        p <= r <= s@.len() + 1,
{
    let n = s.len() as u128;
    let mut q = p;
    while q < n && s[q as usize] != '"'
        invariant
            p <= q <= s@.len() + 1,
            n == s@.len(),
            skip_quoted(s@, p as int) == skip_quoted(s@, q as int),
        decreases s@.len() + 1 - q,
    {
        if s[q as usize] == '\\' {
            q = q + 2;
        } else {
            q = q + 1;
        }
    }
    q
}

/// The inside of the brace block whose `{` is at `start`, or `None` when that
/// brace is never closed.
pub fn brace_block_in(s: &[char], start: usize) -> (r: Option<Vec<char>>)
    ensures
        r is Some <==> brace_closes(s@, start as int),
        r matches Some(b) ==> b@ == brace_block(s@, start as int),
{
    let len = s.len();
    if start >= len {
        return None;
    }
    let n = len as u128;
    let mut pos: u128 = (start + 1) as u128;
    let mut depth: i128 = 1;
    while pos < n && depth > 0
        invariant
            start + 1 <= pos <= n + 2,
            start < n,
            pos == start + 1 ==> depth == 1,
            depth <= 0 ==> start + 2 <= pos <= n,
            n == s@.len(),
            0 <= depth <= pos + 1,
            brace_scan(s@, start + 1, 1) == brace_scan(s@, pos as int, depth as int),
        decreases n + 2 - pos,
    {
        let c = s[pos as usize];
        if c == '{' {
            depth = depth + 1;
            pos = pos + 1;
        } else if c == '}' {
            depth = depth - 1;
            pos = pos + 1;
        } else if c == '#' {
            let q = skip_line_in(s, pos as usize);
            assert(skip_line(s@, pos as int) == skip_line(s@, pos + 1));
            proof {
                lemma_skip_line(s@, pos + 1);
            }
            pos = q as u128;
        } else if c == '"' {
            let q = skip_quoted_in(s, pos + 1);
            pos = q + 1;
        } else {
            pos = pos + 1;
        }
    }
    if depth > 0 {
        return None;
    }
    Some(slice_chars(s, start + 1, (pos - 1) as usize))
}

/// The inside of the brace block whose `{` is at character index `start`:
/// from the next character up to the brace that balances it (see
/// [`brace_block`]); an error when that brace never comes.
pub fn extract_brace_block(content: &str, start: usize) -> (r: Result<String, ParseError>)
    ensures
        match r {
            Ok(b) => brace_closes(content@, start as int) && b@ == brace_block(content@, start as int),
            Err(e) => !brace_closes(content@, start as int) && e == ParseError::UnclosedBlock,
        },
{
    let cs = chars_of(content);
    match brace_block_in(&cs, start) {
        Some(b) => Ok(string_of(&b)),
        None => Err(ParseError::UnclosedBlock),
    }
}

// ------------------------------------------------------------------------
// Shortcuts: `shortcut = { name = ... target = ... }`
// ------------------------------------------------------------------------

pub open spec fn shortcut_pattern() -> Seq<char> {
    "shortcut = {"@
}

/// A value, or the empty text.
pub open spec fn or_empty(v: Option<Seq<char>>) -> Seq<char> {
    match v {
        Some(t) => t,
        None => Seq::empty(),
    }
}

/// The shortcuts found from index `st` on: for each `shortcut = {` whose brace
/// is closed, the `name` and `target` of its brace block, kept when the target
/// is not empty.
pub open spec fn shortcuts_from(s: Seq<char>, st: int) -> Seq<(Seq<char>, Seq<char>)>
    decreases s.len() + 1 - st,
{
    if st < 0 || st > s.len() {
        Seq::empty()
    } else {
        match find_seq(s.skip(st), shortcut_pattern()) {
            None => Seq::empty(),
            Some(p) => {
                proof {
                    crate::text::lemma_find_seq(s.skip(st), shortcut_pattern());
                    reveal_strlit("shortcut = {");
                }
                let a = st + p + 11;
                let b = brace_block(s, a);
                let name = or_empty(simple_string(b, "name"@));
                let target = or_empty(simple_string(b, "target"@));
                (if brace_closes(s, a) && target.len() > 0 {
                    seq![(name, target)]
                } else {
                    Seq::<(Seq<char>, Seq<char>)>::empty()
                }) + shortcuts_from(s, a + 1)
            },
        }
    }
}

fn or_empty_in(v: Option<Vec<char>>) -> (r: Vec<char>)
    ensures
        r@ == or_empty(opt_chars(v)),
{
    match v {
        Some(t) => t,
        None => {
            let e: Vec<char> = Vec::new();
            assert(e@ =~= Seq::<char>::empty());
            e
        },
    }
}

/// The shortcuts of `s` (see [`shortcuts_from`]).
pub fn shortcuts_in(s: &[char]) -> (r: Vec<Shortcut>)
    ensures
        crate::model::shortcut_views(r@) == shortcuts_from(s@, 0),
{
    let pat = chars_of("shortcut = {");
    proof {
        reveal_strlit("shortcut = {");
    }
    let name_key = chars_of("name");
    let target_key = chars_of("target");
    let mut out: Vec<Shortcut> = Vec::new();
    let mut st: usize = 0;
    assert(crate::model::shortcut_views(out@) =~= Seq::<(Seq<char>, Seq<char>)>::empty());
    while st <= s.len()
        invariant
            st <= s@.len() + 1,
            pat@ == shortcut_pattern(),
            pat@.len() == 12,
            name_key@ == "name"@,
            target_key@ == "target"@,
            crate::model::shortcut_views(out@) + shortcuts_from(s@, st as int) == shortcuts_from(
                s@,
                0,
            ),
        decreases s@.len() + 1 - st,
    {
        let found = find_seq_from_chars(s, st, &pat);
        match found {
            None => {
                assert(crate::model::shortcut_views(out@) + shortcuts_from(s@, st as int)
                    =~= crate::model::shortcut_views(out@));
                return out;
            },
            Some(i) => {
                proof {
                    crate::text::lemma_find_seq(s@.skip(st as int), pat@);
                }
                let a = i + 11;
                match brace_block_in(s, a) {
                    None => {
                        assert(crate::model::shortcut_views(out@) + shortcuts_from(s@, a + 1)
                            =~= crate::model::shortcut_views(out@) + shortcuts_from(s@, st as int));
                        st = a + 1;
                    },
                    Some(b) => {
                        let bls = split_lines(&b);
                        let name = or_empty_in(first_value_in(&bls, &name_key));
                        let target = or_empty_in(first_value_in(&bls, &target_key));
                        let ghost before = crate::model::shortcut_views(out@);
                        if target.len() > 0 {
                            let sc = Shortcut { name: string_of(&name), target: string_of(&target) };
                            out.push(sc);
                            assert(crate::model::shortcut_views(out@) =~= before.push(
                                (name@, target@),
                            ));
                        }
                        assert(crate::model::shortcut_views(out@) + shortcuts_from(s@, a + 1)
                            =~= before + shortcuts_from(s@, st as int));
                        st = a + 1;
                    },
                }
            },
        }
    }
    assert(shortcuts_from(s@, st as int) =~= Seq::<(Seq<char>, Seq<char>)>::empty());
    assert(crate::model::shortcut_views(out@) + shortcuts_from(s@, st as int) =~= crate::model::shortcut_views(out@));
    out
}

fn find_seq_from_chars(s: &[char], from: usize, p: &[char]) -> (r: Option<usize>)
    requires
        from <= s@.len(),
    ensures
        r matches Some(i) ==> from <= i && find_seq(s@.skip(from as int), p@) == Some(i - from),
        r is None ==> find_seq(s@.skip(from as int), p@) is None,
{
    crate::text::find_seq_from(s, from, p)
}

/// The shortcuts of a tree's inside: for each `shortcut = {` whose brace is
/// closed, the `name` and `target` of its brace block, kept when the target is
/// not empty.
pub fn parse_shortcuts(content: &str) -> (r: Vec<Shortcut>)
    ensures
        crate::model::shortcut_views(r@) == shortcuts_from(content@, 0),
{
    let cs = chars_of(content);
    shortcuts_in(&cs)
}

// ------------------------------------------------------------------------
// Whole files
// ------------------------------------------------------------------------

/// Why a focus file could not be read.
#[derive(Clone, Copy, Debug, PartialEq, Eq)]
pub enum ParseError {
    /// The file has no `focus_tree`.
    NoFocusTree,
    /// No `{` follows `focus_tree`.
    NoOpeningBrace,
    /// The tree holds no focus with an `id`.
    NoFocusNodes,
    /// A `{` is never closed.
    UnclosedBlock,
    /// A focus block has a list, filter or raw-block line whose `}` comes
    /// before its `{`.
    MalformedFocus,
}

pub open spec fn parse_error_message(e: ParseError) -> Seq<char> {
    match e {
        ParseError::NoFocusTree => "No 'focus_tree' found in file"@,
        ParseError::NoOpeningBrace => "No opening brace for focus_tree"@,
        ParseError::NoFocusNodes => "No focus nodes found"@,
        ParseError::UnclosedBlock => "Unclosed brace block"@,
        ParseError::MalformedFocus => "Malformed focus block"@,
    }
}

impl ParseError {
    /// The human-readable text of the error.
    pub fn message(&self) -> (s: String)
        ensures
            s@ == parse_error_message(*self),
    {
        match self {
            ParseError::NoFocusTree => String::from_str("No 'focus_tree' found in file"),
            ParseError::NoOpeningBrace => String::from_str("No opening brace for focus_tree"),
            ParseError::NoFocusNodes => String::from_str("No focus nodes found"),
            ParseError::UnclosedBlock => String::from_str("Unclosed brace block"),
            ParseError::MalformedFocus => String::from_str("Malformed focus block"),
        }
    }
}

/// Where the tree's `{` stands in the (line-ending normalized) text `c`.
pub open spec fn tree_brace(c: Seq<char>) -> Result<int, ParseError> {
    match find_seq(c, "focus_tree"@) {
        None => Err(ParseError::NoFocusTree),
        Some(t) => match find_char(c.skip(t), '{') {
            None => Err(ParseError::NoOpeningBrace),
            Some(b) => Ok(t + b),
        },
    }
}

/// Reading a whole focus file: `\r\n` become `\n`; the inside of the brace
/// block after the first `focus_tree` holds the tree's `id` (or `unknown`), its
/// shortcuts and its focuses. A tree block that is never closed, a focus block
/// with a line whose `}` comes before its `{`, and a tree without focuses are
/// errors.
pub open spec fn parse_tree(content: Seq<char>) -> Result<TreeView, ParseError> {
    let c = crate::text::replace_crlf(content);
    match tree_brace(c) {
        Err(e) => Err(e),
        Ok(b) => {
            let inner = brace_block(c, b);
            let fs = focuses_in(inner);
            if !brace_closes(c, b) {
                Err(ParseError::UnclosedBlock)
            } else if !focuses_ok(inner) {
                Err(ParseError::MalformedFocus)
            } else if fs.len() == 0 {
                Err(ParseError::NoFocusNodes)
            } else {
                Ok(
                    TreeView {
                        id: match simple_string(inner, "id"@) {
                            Some(v) => v,
                            None => "unknown"@,
                        },
                        shortcuts: shortcuts_from(inner, 0),
                        focuses: fs,
                        modified: false,
                    },
                )
            }
        },
    }
}

/// Reads a focus file (see [`parse_tree`]).
pub fn parse_focus_file(content: &str) -> (r: Result<FocusTree, ParseError>)
    ensures
        match r {
            Ok(t) => parse_tree(content@) == Ok::<TreeView, ParseError>(t@),
            Err(e) => parse_tree(content@) == Err::<TreeView, ParseError>(e),
        },
{
    let raw = chars_of(content);
    let c = crate::text::replace_crlf_chars(&raw);
    let tree_key = chars_of("focus_tree");
    let t = match find_seq_from_chars(&c, 0, &tree_key) {
        Some(t) => t,
        None => {
            assert(c@.skip(0) == c@);
            return Err(ParseError::NoFocusTree);
        },
    };
    assert(c@.skip(0) == c@);
    proof {
        crate::text::lemma_find_seq(c@, tree_key@);
    }
    let tail = slice_chars(&c, t, c.len());
    assert(tail@ == c@.skip(t as int));
    let b = match find_char_in(&tail, '{') {
        Some(b) => b,
        None => {
            return Err(ParseError::NoOpeningBrace);
        },
    };
    proof {
        crate::text::lemma_find_char(tail@, '{');
    }
    let start = t + b;
    let inner = match brace_block_in(&c, start) {
        Some(v) => v,
        None => {
            return Err(ParseError::UnclosedBlock);
        },
    };
    let shortcuts = shortcuts_in(&inner);
    let ls = split_lines(&inner);
    proof {
        crate::text::lemma_lines_sum_len(inner@);
    }
    let focuses = match parse_focuses_in(&ls) {
        Some(v) => v,
        None => {
            return Err(ParseError::MalformedFocus);
        },
    };
    if focuses.len() == 0 {
        return Err(ParseError::NoFocusNodes);
    }
    let id_key = chars_of("id");
    let id = match first_value_in(&ls, &id_key) {
        Some(v) => string_of(&v),
        None => String::from_str("unknown"),
    };
    Ok(FocusTree { id: id, shortcuts: shortcuts, focuses: focuses, modified: false })
}

} // verus!
