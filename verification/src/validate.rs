//! Checking a focus tree for common mistakes.
use vstd::prelude::*;
use crate::cost::{Cost, CostView, above, below};
use crate::model::{
    FocusNode, FocusTree, IssueView, NodeView, TreeView, ValidationError, ValidationResult,
    issue_views, node_views, texts,
};

verus! {

/// The number of bytes that UTF-8 encodes `c` in (`char::len_utf8`).
pub open spec fn utf8_len(c: char) -> nat {
    if (c as u32) < 0x80 {
        1
    } else if (c as u32) < 0x800 {
        2
    } else if (c as u32) < 0x10000 {
        3
    } else {
        4
    }
}

/// The number of bytes of the UTF-8 encoding of `s` (`str::len`).
pub open spec fn byte_len(s: Seq<char>) -> nat
    decreases s.len(),
{
    if s.len() == 0 {
        0
    } else {
        byte_len(s.drop_last()) + utf8_len(s.last())
    }
}

pub proof fn lemma_byte_len_mono(s: Seq<char>, k: int)
    requires
        0 <= k <= s.len(),
    ensures
        byte_len(s.take(k)) <= byte_len(s),
    decreases s.len(),
{
    if k < s.len() {
        lemma_byte_len_mono(s.drop_last(), k);
        assert(s.drop_last().take(k) == s.take(k));
    } else {
        assert(s.take(k) == s);
    }
}

/// Whether the UTF-8 encoding of `s` is shorter than `k` bytes.
pub fn byte_len_below(s: &[char], k: u64) -> (b: bool)
    requires
        k <= 1000,
    ensures
        b == (byte_len(s@) < k),
{
    if k == 0 {
        return false;
    }
    let mut total: u64 = 0;
    let mut i: usize = 0;
    while i < s.len()
        invariant
            i <= s@.len(),
            k <= 1000,
            total == byte_len(s@.take(i as int)),
            total < k,
        decreases s@.len() - i,
    {
        let c = s[i] as u32;
        let w: u64 = if c < 0x80 {
            1
        } else if c < 0x800 {
            2
        } else if c < 0x10000 {
            3
        } else {
            4
        };
        assert(s@.take(i + 1).drop_last() == s@.take(i as int));
        total = total + w;
        if total >= k {
            proof {
                lemma_byte_len_mono(s@, i + 1);
            }
            return false;
        }
        i = i + 1;
    }
    assert(s@.take(s@.len() as int) == s@);
    true
}

/// The ids of the focuses.
pub open spec fn ids_of(ns: Seq<NodeView>) -> Seq<Seq<char>> {
    ns.map_values(|n: NodeView| n.id)
}

/// A `DuplicateId` for every id that already occurred earlier, in order.
pub open spec fn duplicate_errors(ids: Seq<Seq<char>>) -> Seq<IssueView>
    decreases ids.len(),
{
    if ids.len() == 0 {
        Seq::empty()
    } else {
        duplicate_errors(ids.drop_last()) + if ids.drop_last().contains(ids.last()) {
            seq![IssueView::DuplicateId(ids.last())]
        } else {
            Seq::empty()
        }
    }
}

/// A finding for every reference that names no focus: `MissingPrerequisite`
/// for prerequisites, `MissingMutuallyExclusive` otherwise.
pub open spec fn missing_refs(refs: Seq<Seq<char>>, ids: Seq<Seq<char>>, prerequisite: bool) -> Seq<
    IssueView,
>
    decreases refs.len(),
{
    if refs.len() == 0 {
        Seq::empty()
    } else {
        missing_refs(refs.drop_last(), ids, prerequisite) + if !ids.contains(refs.last()) {
            seq![
                if prerequisite {
                    IssueView::MissingPrerequisite(refs.last())
                } else {
                    IssueView::MissingMutuallyExclusive(refs.last())
                },
            ]
        } else {
            Seq::empty()
        }
    }
}

pub open spec fn tenth() -> CostView {
    (false, 1, 1)
}

pub open spec fn whole_cost(n: nat) -> CostView {
    (false, n, 0)
}

/// The cost is outside `0.1..=100`.
pub open spec fn cost_out_of_range(v: CostView) -> bool {
    below(v, 1, 10) || above(v, 100, 1)
}

/// The cost is outside `1..=50`.
pub open spec fn cost_unusual(v: CostView) -> bool {
    below(v, 1, 1) || above(v, 50, 1)
}

pub open spec fn cost_errors(c: Option<CostView>) -> Seq<IssueView> {
    match c {
        Some(v) => if cost_out_of_range(v) {
            seq![IssueView::UnusualCost(v, tenth(), whole_cost(100))]
        } else {
            Seq::empty()
        },
        None => Seq::empty(),
    }
}

pub open spec fn cost_warnings(c: Option<CostView>) -> Seq<IssueView> {
    match c {
        Some(v) => if !cost_out_of_range(v) && cost_unusual(v) {
            seq![IssueView::UnusualCost(v, whole_cost(1), whole_cost(50))]
        } else {
            Seq::empty()
        },
        None => Seq::empty(),
    }
}

/// The position is outside `-50..=50` by `-10..=50`.
pub open spec fn out_of_bounds(x: i32, y: i32) -> bool {
    x < -50 || x > 50 || y < -10 || y > 50
}

/// The id lacks the `TAG_` form: it has no `_` or fewer than four bytes.
pub open spec fn bad_id(id: Seq<char>) -> bool {
    !id.contains('_') || byte_len(id) < 4
}

/// The errors of one focus, in order.
pub open spec fn focus_errors(n: NodeView, ids: Seq<Seq<char>>) -> Seq<IssueView> {
    (if bad_id(n.id) {
        seq![IssueView::InvalidIdFormat(n.id)]
    } else {
        Seq::empty()
    }) + missing_refs(n.prerequisites, ids, true) + missing_refs(n.mutually_exclusive, ids, false)
        + cost_errors(n.cost) + if out_of_bounds(n.x, n.y) {
        seq![IssueView::PositionOutOfBounds(n.x, n.y)]
    } else {
        Seq::empty()
    }
}

pub open spec fn all_focus_errors(ns: Seq<NodeView>, ids: Seq<Seq<char>>) -> Seq<IssueView>
    decreases ns.len(),
{
    if ns.len() == 0 {
        Seq::empty()
    } else {
        all_focus_errors(ns.drop_last(), ids) + focus_errors(ns.last(), ids)
    }
}

pub open spec fn all_cost_warnings(ns: Seq<NodeView>) -> Seq<IssueView>
    decreases ns.len(),
{
    if ns.len() == 0 {
        Seq::empty()
    } else {
        all_cost_warnings(ns.drop_last()) + cost_warnings(ns.last().cost)
    }
}

/// The errors of a tree: duplicate ids first, then each focus's errors.
pub open spec fn validation_errors(t: TreeView) -> Seq<IssueView> {
    duplicate_errors(ids_of(t.focuses)) + all_focus_errors(t.focuses, ids_of(t.focuses))
}

/// The warnings of a tree: costs outside `1..=50` but inside `0.1..=100`.
pub open spec fn validation_warnings(t: TreeView) -> Seq<IssueView> {
    all_cost_warnings(t.focuses)
}

/// Whether `s` is one of `v`.
pub fn contains_string(v: &Vec<String>, s: &String) -> (b: bool)
    ensures
        b == texts(v@).contains(s@),
{
    let mut i: usize = 0;
    while i < v.len()
        invariant
            i <= v@.len(),
            forall|j: int| 0 <= j < i ==> v@[j]@ != s@,
        decreases v@.len() - i,
    {
        if v[i] == *s {
            assert(texts(v@)[i as int] == s@);
            return true;
        }
        i = i + 1;
    }
    proof {
        if texts(v@).contains(s@) {
            let k = choose|k: int| 0 <= k < texts(v@).len() && texts(v@)[k] == s@;
            assert(v@[k]@ == s@);
        }
    }
    false
}

fn push_issue(out: &mut Vec<ValidationError>, e: ValidationError)
    ensures
        issue_views(final(out)@) == issue_views(old(out)@).push(e@),
{
    out.push(e);
    assert(issue_views(out@) =~= issue_views(old(out)@).push(e@));
}

fn push_missing(out: &mut Vec<ValidationError>, refs: &Vec<String>, ids: &Vec<String>, prerequisite: bool)
    ensures
        issue_views(final(out)@) == issue_views(old(out)@) + missing_refs(
            texts(refs@),
            texts(ids@),
            prerequisite,
        ),
{
    let ghost start = issue_views(out@);
    let ghost all = texts(refs@);
    let mut i: usize = 0;
    assert(all.take(0) =~= Seq::<Seq<char>>::empty());
    assert(issue_views(out@) =~= start + missing_refs(all.take(0), texts(ids@), prerequisite));
    while i < refs.len()
        invariant
            i <= refs@.len(),
            all == texts(refs@),
            issue_views(out@) == start + missing_refs(all.take(i as int), texts(ids@), prerequisite),
        decreases refs@.len() - i,
    {
        let ghost before = issue_views(out@);
        assert(all.take(i + 1).drop_last() == all.take(i as int));
        assert(all.take(i + 1).last() == refs@[i as int]@);
        if !contains_string(ids, &refs[i]) {
            let e = if prerequisite {
                ValidationError::MissingPrerequisite(refs[i].clone())
            } else {
                ValidationError::MissingMutuallyExclusive(refs[i].clone())
            };
            push_issue(out, e);
        }
        assert(issue_views(out@) =~= start + missing_refs(all.take(i + 1), texts(ids@), prerequisite));
        i = i + 1;
    }
    assert(all.take(refs@.len() as int) == all);
}

fn tenth_cost() -> (c: Cost)
    ensures
        c@ == tenth(),
{
    Cost::new(false, 1, 1).unwrap()
}

fn whole(n: u64) -> (c: Cost)
    requires
        n < 1000,
    ensures
        c@ == whole_cost(n as nat),
{
    Cost::new(false, n, 0).unwrap()
}

fn push_focus_errors(out: &mut Vec<ValidationError>, focus: &FocusNode, ids: &Vec<String>)
    ensures
        issue_views(final(out)@) == issue_views(old(out)@) + focus_errors(focus@, texts(ids@)),
{
    let ghost start = issue_views(out@);
    let cs = crate::text::chars_of(focus.id.as_str());
    if !crate::text::contains_char(&cs, '_') || byte_len_below(&cs, 4) {
        push_issue(out, ValidationError::InvalidIdFormat(focus.id.clone()));
    }
    let ghost a = issue_views(out@);
    push_missing(out, &focus.prerequisites, ids, true);
    push_missing(out, &focus.mutually_exclusive, ids, false);
    let ghost b = issue_views(out@);
    match &focus.cost {
        Some(c) => {
            if c.is_below(1, 10) || c.is_above(100, 1) {
                push_issue(
                    out,
                    ValidationError::UnusualCost { cost: *c, min: tenth_cost(), max: whole(100) },
                );
            }
        },
        None => {},
    }
    let ghost d = issue_views(out@);
    assert(d == b + cost_errors(focus@.cost));
    if focus.x < -50 || focus.x > 50 || focus.y < -10 || focus.y > 50 {
        push_issue(out, ValidationError::PositionOutOfBounds { x: focus.x, y: focus.y });
    }
    assert(issue_views(out@) =~= start + focus_errors(focus@, texts(ids@)));
}

fn push_cost_warning(out: &mut Vec<ValidationError>, focus: &FocusNode)
    ensures
        issue_views(final(out)@) == issue_views(old(out)@) + cost_warnings(focus@.cost),
{
    match &focus.cost {
        Some(c) => {
            if !(c.is_below(1, 10) || c.is_above(100, 1)) && (c.is_below(1, 1) || c.is_above(50, 1)) {
                push_issue(
                    out,
                    ValidationError::UnusualCost { cost: *c, min: whole(1), max: whole(50) },
                );
            } else {
                assert(issue_views(out@) =~= issue_views(old(out)@) + cost_warnings(focus@.cost));
            }
        },
        None => {
            assert(issue_views(out@) =~= issue_views(old(out)@) + cost_warnings(focus@.cost));
        },
    }
}

/// Validates a tree: duplicate ids, ids without the `TAG_` form, references to
/// missing focuses, costs outside `0.1..=100` and positions out of bounds are
/// errors; costs outside `1..=50` (but inside `0.1..=100`) are warnings.
pub fn validate_tree(tree: &FocusTree) -> (r: ValidationResult)
    ensures
        issue_views(r.errors@) == validation_errors(tree@),
        issue_views(r.warnings@) == validation_warnings(tree@),
{
    let n = tree.focuses.len();
    let ghost ns = node_views(tree.focuses@);
    let mut ids: Vec<String> = Vec::new();
    let mut i: usize = 0;
    while i < n
        invariant
            i <= n == tree.focuses@.len(),
            ns == node_views(tree.focuses@),
            ids@.len() == i,
            forall|j: int| 0 <= j < i ==> #[trigger] ids@[j]@ == ns[j].id,
        decreases n - i,
    {
        ids.push(tree.focuses[i].id.clone());
        i = i + 1;
    }
    assert(texts(ids@) =~= ids_of(ns));
    let ghost all_ids = ids_of(ns);
    let mut errors: Vec<ValidationError> = Vec::new();
    let mut seen: Vec<String> = Vec::new();
    let mut k: usize = 0;
    assert(all_ids.take(0) =~= Seq::<Seq<char>>::empty());
    assert(issue_views(errors@) =~= duplicate_errors(all_ids.take(0)));
    while k < n
        invariant
            k <= n == tree.focuses@.len(),
            ns == node_views(tree.focuses@),
            all_ids == ids_of(ns),
            texts(seen@) == all_ids.take(k as int),
            issue_views(errors@) == duplicate_errors(all_ids.take(k as int)),
        decreases n - k,
    {
        let id = &tree.focuses[k].id;
        assert(all_ids.take(k + 1).drop_last() == all_ids.take(k as int));
        assert(all_ids.take(k + 1).last() == id@);
        if contains_string(&seen, id) {
            push_issue(&mut errors, ValidationError::DuplicateId(id.clone()));
        } else {
            assert(issue_views(errors@) =~= duplicate_errors(all_ids.take(k + 1)));
        }
        seen.push(id.clone());
        assert(texts(seen@) =~= all_ids.take(k + 1));
        k = k + 1;
    }
    assert(all_ids.take(n as int) == all_ids);
    let ghost dups = issue_views(errors@);
    let mut warnings: Vec<ValidationError> = Vec::new();
    let mut m: usize = 0;
    assert(ns.take(0) =~= Seq::<NodeView>::empty());
    assert(issue_views(errors@) =~= dups + all_focus_errors(ns.take(0), all_ids));
    assert(issue_views(warnings@) =~= all_cost_warnings(ns.take(0)));
    while m < n
        invariant
            m <= n == tree.focuses@.len(),
            ns == node_views(tree.focuses@),
            all_ids == ids_of(ns),
            texts(ids@) == all_ids,
            issue_views(errors@) == dups + all_focus_errors(ns.take(m as int), all_ids),
            issue_views(warnings@) == all_cost_warnings(ns.take(m as int)),
        decreases n - m,
    {
        let ghost before = issue_views(errors@);
        push_focus_errors(&mut errors, &tree.focuses[m], &ids);
        push_cost_warning(&mut warnings, &tree.focuses[m]);
        assert(ns.take(m + 1).drop_last() == ns.take(m as int));
        assert(ns.take(m + 1).last() == tree.focuses@[m as int]@);
        assert(issue_views(errors@) =~= dups + all_focus_errors(ns.take(m + 1), all_ids));
        m = m + 1;
    }
    assert(ns.take(n as int) == ns);
    ValidationResult { errors, warnings }
}


proof fn lemma_no_duplicate_errors(ids: Seq<Seq<char>>)
    requires
        duplicate_errors(ids).len() == 0,
    ensures
        forall|a: int, b: int| 0 <= a < b < ids.len() ==> #[trigger] ids[a] != #[trigger] ids[b],
    decreases ids.len(),
{
    if ids.len() > 0 {
        let init = ids.drop_last();
        lemma_no_duplicate_errors(init);
        assert(!init.contains(ids.last()));
        assert forall|a: int, b: int| 0 <= a < b < ids.len() implies #[trigger] ids[a]
            != #[trigger] ids[b] by {
            if b == ids.len() - 1 {
                assert(init[a] == ids[a]);
            } else {
                assert(init[a] == ids[a] && init[b] == ids[b]);
            }
        }
    }
}

proof fn lemma_no_missing_refs(refs: Seq<Seq<char>>, ids: Seq<Seq<char>>, prerequisite: bool)
    requires
        missing_refs(refs, ids, prerequisite).len() == 0,
    ensures
        forall|i: int| 0 <= i < refs.len() ==> ids.contains(#[trigger] refs[i]),
    decreases refs.len(),
{
    if refs.len() > 0 {
        lemma_no_missing_refs(refs.drop_last(), ids, prerequisite);
        assert forall|i: int| 0 <= i < refs.len() implies ids.contains(#[trigger] refs[i]) by {
            if i < refs.len() - 1 {
                assert(refs.drop_last()[i] == refs[i]);
            }
        }
    }
}

proof fn lemma_no_focus_errors(ns: Seq<NodeView>, ids: Seq<Seq<char>>)
    requires
        all_focus_errors(ns, ids).len() == 0,
    ensures
        forall|i: int| 0 <= i < ns.len() ==> (#[trigger] focus_errors(ns[i], ids)).len() == 0,
    decreases ns.len(),
{
    if ns.len() > 0 {
        lemma_no_focus_errors(ns.drop_last(), ids);
        assert forall|i: int| 0 <= i < ns.len() implies (#[trigger] focus_errors(ns[i], ids)).len()
            == 0 by {
            if i < ns.len() - 1 {
                assert(ns.drop_last()[i] == ns[i]);
            }
        }
    }
}

/// A cost is warned about exactly when its value `m / 10^s` lies inside
/// `0.1..=100` but outside `1..=50`; the warning names the cost and the range
/// `1..=50`. It is an error exactly when the value lies outside `0.1..=100`.
pub proof fn lemma_cost_checks(c: Option<CostView>)
    ensures
        c is None ==> cost_warnings(c).len() == 0 && cost_errors(c).len() == 0,
        c matches Some(v) ==> {
            let m = crate::cost::signed_mantissa(v);
            let p = crate::cost::pow10(v.2) as int;
            &&& cost_warnings(c).len() > 0 <==> (p <= 10 * m && m <= 100 * p && (m < p || m > 50
                * p))
            &&& cost_warnings(c).len() > 0 ==> cost_warnings(c) == seq![
                IssueView::UnusualCost(v, (false, 1nat, 0nat), (false, 50nat, 0nat)),
            ]
            &&& cost_errors(c).len() > 0 <==> (10 * m < p || m > 100 * p)
        },
        cost_warnings(c).len() <= 1,
        cost_errors(c).len() <= 1,
{
}

/// A tree whose costs all lie in `1..=50` (or are absent) has no warnings.
pub proof fn lemma_no_warnings_in_range(t: TreeView)
    requires
        forall|i: int|
            0 <= i < t.focuses.len() ==> (#[trigger] t.focuses[i].cost matches Some(v) ==> {
                let m = crate::cost::signed_mantissa(v);
                let p = crate::cost::pow10(v.2) as int;
                p <= m && m <= 50 * p
            }),
    ensures
        validation_warnings(t).len() == 0,
{
    lemma_no_warnings_prefix(t.focuses);
}

proof fn lemma_no_warnings_prefix(ns: Seq<NodeView>)
    requires
        forall|i: int|
            0 <= i < ns.len() ==> (#[trigger] ns[i].cost matches Some(v) ==> {
                let m = crate::cost::signed_mantissa(v);
                let p = crate::cost::pow10(v.2) as int;
                p <= m && m <= 50 * p
            }),
    ensures
        all_cost_warnings(ns).len() == 0,
    decreases ns.len(),
{
    if ns.len() > 0 {
        assert forall|i: int| 0 <= i < ns.drop_last().len() implies (#[trigger] ns.drop_last()[i].cost matches Some(v) ==> {
            let m = crate::cost::signed_mantissa(v);
            let p = crate::cost::pow10(v.2) as int;
            p <= m && m <= 50 * p
        }) by {
            assert(ns.drop_last()[i] == ns[i]);
        }
        lemma_no_warnings_prefix(ns.drop_last());
        lemma_cost_checks(ns.last().cost);
        assert(ns.last() == ns[ns.len() - 1]);
    }
}

/// A tree without validation errors has distinct focus ids, ids of the `TAG_`
/// form, prerequisites and exclusions that name focuses of the tree, costs in
/// `0.1..=100` and positions within bounds.
pub proof fn lemma_valid_tree(t: TreeView)
    requires
        validation_errors(t).len() == 0,
    ensures
        forall|a: int, b: int|
            0 <= a < b < t.focuses.len() ==> #[trigger] t.focuses[a].id != #[trigger] t.focuses[b].id,
        forall|i: int|
            0 <= i < t.focuses.len() ==> {
                let n = #[trigger] t.focuses[i];
                &&& !bad_id(n.id)
                &&& forall|k: int|
                    0 <= k < n.prerequisites.len() ==> ids_of(t.focuses).contains(
                        #[trigger] n.prerequisites[k],
                    )
                &&& forall|k: int|
                    0 <= k < n.mutually_exclusive.len() ==> ids_of(t.focuses).contains(
                        #[trigger] n.mutually_exclusive[k],
                    )
                &&& n.cost matches Some(c) ==> !cost_out_of_range(c)
                &&& !out_of_bounds(n.x, n.y)
            },
{
    let ids = ids_of(t.focuses);
    lemma_no_duplicate_errors(ids);
    assert forall|a: int, b: int| 0 <= a < b < t.focuses.len() implies #[trigger] t.focuses[a].id
        != #[trigger] t.focuses[b].id by {
        assert(ids[a] == t.focuses[a].id && ids[b] == t.focuses[b].id);
    }
    lemma_no_focus_errors(t.focuses, ids);
    assert forall|i: int| 0 <= i < t.focuses.len() implies {
        let n = #[trigger] t.focuses[i];
        &&& !bad_id(n.id)
        &&& forall|k: int|
            0 <= k < n.prerequisites.len() ==> ids_of(t.focuses).contains(
                #[trigger] n.prerequisites[k],
            )
        &&& forall|k: int|
            0 <= k < n.mutually_exclusive.len() ==> ids_of(t.focuses).contains(
                #[trigger] n.mutually_exclusive[k],
            )
        &&& n.cost matches Some(c) ==> !cost_out_of_range(c)
        &&& !out_of_bounds(n.x, n.y)
    } by {
        let n = t.focuses[i];
        assert(focus_errors(n, ids).len() == 0);
        lemma_no_missing_refs(n.prerequisites, ids, true);
        lemma_no_missing_refs(n.mutually_exclusive, ids, false);
    }
}

} // verus!
