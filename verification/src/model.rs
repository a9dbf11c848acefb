//! The data of a focus tree: the tree, its shortcuts and focus nodes, and the
//! findings of a validation.
use vstd::prelude::*;
use crate::cost::{Cost, CostView, cost_display_text};
use crate::text::{
    chars_of, contains_str, contains_text, find_char, find_char_in, int_text, push_all, push_int_text, push_str,
    string_of,
};

verus! {

/// The text of an optional string.
pub open spec fn opt_text(o: Option<String>) -> Option<Seq<char>> {
    match o {
        Some(s) => Some(s@),
        None => None,
    }
}

/// The texts of a sequence of strings.
pub open spec fn texts(v: Seq<String>) -> Seq<Seq<char>> {
    v.map_values(|s: String| s@)
}

/// The value of an optional cost.
pub open spec fn opt_cost(o: Option<Cost>) -> Option<CostView> {
    match o {
        Some(c) => Some(c@),
        None => None,
    }
}

/// Quick reference to a root focus (shown in the sidebar).
pub struct Shortcut {
    pub name: String,
    pub target: String,
}

/// A single focus node in the tree.
pub struct FocusNode {
    /// Unique identifier, such as `VEN_something`.
    pub id: String,
    /// GFX icon name.
    pub icon: Option<String>,
    /// X position in the tree (grid units, 96px each).
    pub x: i32,
    /// Y position in the tree (grid units, 130px each).
    pub y: i32,
    /// If set, x/y are relative to this focus.
    pub relative_position_id: Option<String>,
    /// Cost in days.
    pub cost: Option<Cost>,
    /// Other focus ids that must be completed first.
    pub prerequisites: Vec<String>,
    /// Mutually exclusive focus ids.
    pub mutually_exclusive: Vec<String>,
    /// The focus can be bypassed even if unavailable.
    pub bypass_if_unavailable: bool,
    /// Availability trigger (raw script text).
    pub available_raw: Option<String>,
    /// Effects on completion (raw script text).
    pub completion_reward_raw: Option<String>,
    /// Immediate effects (raw script text).
    pub immediate_raw: Option<String>,
    /// AI priority weights (raw script text).
    pub ai_will_do_raw: Option<String>,
    /// Search filters for in-game categorization.
    pub search_filters: Vec<String>,
    /// Bypass condition (raw script text).
    pub bypass_raw: Option<String>,
}

/// A complete focus tree (one file such as `venezuela.txt`).
pub struct FocusTree {
    pub id: String,
    pub shortcuts: Vec<Shortcut>,
    pub focuses: Vec<FocusNode>,
    /// Whether the tree has been modified.
    pub modified: bool,
}

/// An undo/redo history entry.
pub struct HistoryEntry {
    pub description: String,
    pub tree_snapshot: String,
}

/// The abstract value of a focus node.
pub ghost struct NodeView {
    pub id: Seq<char>,
    pub icon: Option<Seq<char>>,
    pub x: i32,
    pub y: i32,
    pub relative_position_id: Option<Seq<char>>,
    pub cost: Option<CostView>,
    pub prerequisites: Seq<Seq<char>>,
    pub mutually_exclusive: Seq<Seq<char>>,
    pub bypass_if_unavailable: bool,
    pub available_raw: Option<Seq<char>>,
    pub completion_reward_raw: Option<Seq<char>>,
    pub immediate_raw: Option<Seq<char>>,
    pub ai_will_do_raw: Option<Seq<char>>,
    pub search_filters: Seq<Seq<char>>,
    pub bypass_raw: Option<Seq<char>>,
}

/// The abstract value of a focus tree; a shortcut is `(name, target)`.
pub ghost struct TreeView {
    pub id: Seq<char>,
    pub shortcuts: Seq<(Seq<char>, Seq<char>)>,
    pub focuses: Seq<NodeView>,
    pub modified: bool,
}

impl View for Shortcut {
    type V = (Seq<char>, Seq<char>);

    open spec fn view(&self) -> (Seq<char>, Seq<char>) {
        (self.name@, self.target@)
    }
}

impl View for FocusNode {
    type V = NodeView;

    open spec fn view(&self) -> NodeView {
        NodeView {
            id: self.id@,
            icon: opt_text(self.icon),
            x: self.x,
            y: self.y,
            relative_position_id: opt_text(self.relative_position_id),
            cost: opt_cost(self.cost),
            prerequisites: texts(self.prerequisites@),
            mutually_exclusive: texts(self.mutually_exclusive@),
            bypass_if_unavailable: self.bypass_if_unavailable,
            available_raw: opt_text(self.available_raw),
            completion_reward_raw: opt_text(self.completion_reward_raw),
            immediate_raw: opt_text(self.immediate_raw),
            ai_will_do_raw: opt_text(self.ai_will_do_raw),
            search_filters: texts(self.search_filters@),
            bypass_raw: opt_text(self.bypass_raw),
        }
    }
}

/// The values of a sequence of shortcuts.
pub open spec fn shortcut_views(v: Seq<Shortcut>) -> Seq<(Seq<char>, Seq<char>)> {
    v.map_values(|s: Shortcut| s@)
}

/// The values of a sequence of focus nodes.
pub open spec fn node_views(v: Seq<FocusNode>) -> Seq<NodeView> {
    v.map_values(|n: FocusNode| n@)
}

impl View for FocusTree {
    type V = TreeView;

    open spec fn view(&self) -> TreeView {
        TreeView {
            id: self.id@,
            shortcuts: shortcut_views(self.shortcuts@),
            focuses: node_views(self.focuses@),
            modified: self.modified,
        }
    }
}

// ------------------------------------------------------------------------
// Copies
// ------------------------------------------------------------------------

pub fn copy_opt_string(o: &Option<String>) -> (r: Option<String>)
    ensures
        opt_text(r) == opt_text(*o),
{
    match o {
        Some(s) => Some(s.clone()),
        None => None,
    }
}

pub fn copy_strings(v: &Vec<String>) -> (r: Vec<String>)
    ensures
        texts(r@) == texts(v@),
{
    let mut r: Vec<String> = Vec::new();
    let mut i: usize = 0;
    while i < v.len()
        invariant
            i <= v@.len(),
            r@.len() == i,
            forall|j: int| 0 <= j < i ==> r@[j]@ == #[trigger] v@[j]@,
        decreases v@.len() - i,
    {
        let s = v[i].clone();
        r.push(s);
        i = i + 1;
    }
    assert(texts(r@) =~= texts(v@));
    r
}

impl Shortcut {
    /// A copy of this shortcut.
    pub fn duplicate(&self) -> (r: Shortcut)
        ensures
            r@ == self@,
    {
        Shortcut { name: self.name.clone(), target: self.target.clone() }
    }
}

impl FocusNode {
    /// A copy of this node.
    pub fn duplicate(&self) -> (r: FocusNode)
        ensures
            r@ == self@,
    {
        FocusNode {
            id: self.id.clone(),
            icon: copy_opt_string(&self.icon),
            x: self.x,
            y: self.y,
            relative_position_id: copy_opt_string(&self.relative_position_id),
            cost: self.cost,
            prerequisites: copy_strings(&self.prerequisites),
            mutually_exclusive: copy_strings(&self.mutually_exclusive),
            bypass_if_unavailable: self.bypass_if_unavailable,
            available_raw: copy_opt_string(&self.available_raw),
            completion_reward_raw: copy_opt_string(&self.completion_reward_raw),
            immediate_raw: copy_opt_string(&self.immediate_raw),
            ai_will_do_raw: copy_opt_string(&self.ai_will_do_raw),
            search_filters: copy_strings(&self.search_filters),
            bypass_raw: copy_opt_string(&self.bypass_raw),
        }
    }
}

pub fn copy_nodes(v: &Vec<FocusNode>) -> (r: Vec<FocusNode>)
    ensures
        node_views(r@) == node_views(v@),
{
    let mut r: Vec<FocusNode> = Vec::new();
    let mut i: usize = 0;
    while i < v.len()
        invariant
            i <= v@.len(),
            r@.len() == i,
            forall|j: int| 0 <= j < i ==> r@[j]@ == #[trigger] v@[j]@,
        decreases v@.len() - i,
    {
        let n = v[i].duplicate();
        r.push(n);
        i = i + 1;
    }
    assert(node_views(r@) =~= node_views(v@));
    r
}

pub fn copy_shortcuts(v: &Vec<Shortcut>) -> (r: Vec<Shortcut>)
    ensures
        shortcut_views(r@) == shortcut_views(v@),
{
    let mut r: Vec<Shortcut> = Vec::new();
    let mut i: usize = 0;
    while i < v.len()
        invariant
            i <= v@.len(),
            r@.len() == i,
            forall|j: int| 0 <= j < i ==> r@[j]@ == #[trigger] v@[j]@,
        decreases v@.len() - i,
    {
        let n = v[i].duplicate();
        r.push(n);
        i = i + 1;
    }
    assert(shortcut_views(r@) =~= shortcut_views(v@));
    r
}

impl FocusTree {
    /// A copy of this tree.
    pub fn duplicate(&self) -> (r: FocusTree)
        ensures
            r@ == self@,
    {
        FocusTree {
            id: self.id.clone(),
            shortcuts: copy_shortcuts(&self.shortcuts),
            focuses: copy_nodes(&self.focuses),
            modified: self.modified,
        }
    }
}

// ------------------------------------------------------------------------
// Relative positions
// ------------------------------------------------------------------------

/// `k` is the index of the first focus whose id is `id`.
pub open spec fn is_first_index(ns: Seq<NodeView>, id: Seq<char>, k: int) -> bool {
    &&& 0 <= k < ns.len()
    &&& ns[k].id == id
    &&& forall|j: int| 0 <= j < k ==> #[trigger] ns[j].id != id
}

/// The focus that the focus at `i` is placed relative to: the first focus
/// whose id is its `relative_position_id`, if there is one.
pub open spec fn position_parent(ns: Seq<NodeView>, i: int) -> Option<int> {
    match ns[i].relative_position_id {
        Some(p) => first_index(ns, p),
        None => None,
    }
}

/// The index of the first focus whose id is `id`, if there is one.
pub open spec fn first_index(ns: Seq<NodeView>, id: Seq<char>) -> Option<int> {
    if exists|k: int| is_first_index(ns, id, k) {
        Some(choose|k: int| is_first_index(ns, id, k))
    } else {
        None
    }
}

/// The focus reached from `i` after `k` steps to the focus it is placed
/// relative to, if the chain goes that far.
pub open spec fn position_walk(ns: Seq<NodeView>, i: int, k: nat) -> Option<int>
    decreases k,
{
    if k == 0 {
        Some(i)
    } else {
        match position_walk(ns, i, (k - 1) as nat) {
            Some(j) => position_parent(ns, j),
            None => None,
        }
    }
}

proof fn lemma_first_index_unique(ns: Seq<NodeView>, id: Seq<char>, a: int, b: int)
    requires
        is_first_index(ns, id, a),
        is_first_index(ns, id, b),
    ensures
        a == b,
{
    if a < b {
        assert(ns[a].id != id);
    } else if b < a {
        assert(ns[b].id != id);
    }
}

/// The index of the focus that the focus at `i` is placed relative to.
pub fn position_parent_index(tree: &FocusTree, i: usize) -> (r: Option<usize>)
    requires
        i < tree.focuses@.len(),
    ensures
        r matches Some(p) ==> position_parent(tree@.focuses, i as int) == Some(p as int),
        r is None ==> position_parent(tree@.focuses, i as int) is None,
{
    let ghost ns = tree@.focuses;
    assert(ns[i as int] == tree.focuses@[i as int]@);
    match &tree.focuses[i].relative_position_id {
        None => None,
        Some(pid) => {
            let mut k: usize = 0;
            assert(ns[i as int].relative_position_id == Some(pid@));
            while k < tree.focuses.len()
                invariant
                    i < ns.len(),
                    ns[i as int].relative_position_id == Some(pid@),
                    k <= tree.focuses@.len(),
                    ns == tree@.focuses,
                    ns.len() == tree.focuses@.len(),
                    forall|j: int| 0 <= j < k ==> #[trigger] ns[j].id != pid@,
                decreases tree.focuses@.len() - k,
            {
                assert(ns[k as int] == tree.focuses@[k as int]@);
                if tree.focuses[k].id == *pid {
                    proof {
                        assert(tree.focuses@[k as int].id@ == pid@);
                        assert(ns[k as int].id == pid@);
                        assert(is_first_index(ns, pid@, k as int));
                        let c = choose|c: int| is_first_index(ns, pid@, c);
                        lemma_first_index_unique(ns, pid@, c, k as int);
                        assert(first_index(ns, pid@) == Some(k as int));
                    }
                    return Some(k);
                }
                k = k + 1;
            }
            proof {
                assert(ns[i as int].relative_position_id == Some(pid@));
                assert forall|c: int| !is_first_index(ns, pid@, c) by {
                    if 0 <= c < ns.len() {
                        assert(ns[c].id != pid@);
                    }
                }
            }
            None
        },
    }
}

/// The chain of focuses that place the focus at `i`: the focus itself, the
/// focus it is placed relative to, and so on, as indices. `None` when the
/// chain runs on for more steps than there are focuses, that is when it runs
/// in a cycle and never ends.
pub fn position_chain(tree: &FocusTree, i: usize) -> (r: Option<Vec<usize>>)
    requires
        i < tree.focuses@.len(),
    ensures
        r matches Some(c) ==> {
            &&& 0 < c@.len() <= tree@.focuses.len()
            &&& forall|k: int| 0 <= k < c@.len() ==> position_walk(tree@.focuses, i as int, k as nat) == Some(#[trigger] c@[k] as int)
            &&& position_walk(tree@.focuses, i as int, c@.len()) is None
        },
        r is None ==> forall|k: nat| k <= tree@.focuses.len() ==> #[trigger] position_walk(tree@.focuses, i as int, k) is Some,
{
    let ghost ns = tree@.focuses;
    let n = tree.focuses.len();
    let mut c: Vec<usize> = Vec::new();
    c.push(i);
    let mut cur = i;
    assert(position_walk(ns, i as int, 0) == Some(i as int));
    loop
        invariant
            ns == tree@.focuses,
            n == ns.len(),
            0 < c@.len() <= n,
            cur < n,
            cur == c@.last(),
            forall|k: int| 0 <= k < c@.len() ==> position_walk(ns, i as int, k as nat) == Some(#[trigger] c@[k] as int),
            forall|k: int| 0 <= k < c@.len() ==> #[trigger] c@[k] < n,
        decreases n - c@.len(),
    {
        let ghost m = c@.len();
        assert(position_walk(ns, i as int, (m - 1) as nat) == Some(cur as int));
        assert(position_walk(ns, i as int, m as nat) == position_parent(ns, cur as int));
        match position_parent_index(tree, cur) {
            None => {
                return Some(c);
            },
            Some(p) => {
                proof {
                    assert(is_first_index(ns, ns[cur as int].relative_position_id->0, p as int));
                }
                if c.len() == n {
                    proof {
                        assert forall|k: nat| k <= ns.len() implies #[trigger] position_walk(ns, i as int, k) is Some by {
                            if k < n {
                                assert(position_walk(ns, i as int, k as nat) == Some(c@[k as int] as int));
                            }
                        }
                    }
                    return None;
                }
                c.push(p);
                cur = p;
                proof {
                    assert forall|k: int| 0 <= k < c@.len() implies position_walk(ns, i as int, k as nat) == Some(#[trigger] c@[k] as int) by {
                        if k < m {
                            assert(c@[k] == c@.drop_last()[k]);
                        }
                    }
                }
            },
        }
    }
}

// ------------------------------------------------------------------------
// Display name and category
// ------------------------------------------------------------------------

/// The id without its `TAG_` prefix: what follows the first `_` when a
/// non-empty tag stands before it, and the whole id otherwise.
pub open spec fn display_name_of(id: Seq<char>) -> Seq<char> {
    match find_char(id, '_') {
        Some(i) => if i > 0 {
            id.skip(i + 1)
        } else {
            id
        },
        None => id,
    }
}

/// The category of a focus, read from its search filters.
#[derive(Clone, Copy, Debug, PartialEq, Eq)]
pub enum Category {
    Industry,
    Military,
    Political,
    Research,
    Foreign,
    Other,
}

/// The category a single search filter names, if any.
pub open spec fn filter_category(f: Seq<char>) -> Option<Category> {
    if contains_text(f, "INDUSTRY"@) || contains_text(f, "ECONOMY"@) {
        Some(Category::Industry)
    } else if contains_text(f, "MILITARY"@) || contains_text(f, "ARMY"@) || contains_text(
        f,
        "NAVY"@,
    ) || contains_text(f, "AIR"@) {
        Some(Category::Military)
    } else if contains_text(f, "POLITICAL"@) {
        Some(Category::Political)
    } else if contains_text(f, "RESEARCH"@) {
        Some(Category::Research)
    } else if contains_text(f, "FOREIGN"@) {
        Some(Category::Foreign)
    } else {
        None
    }
}

/// How a search filter names a category: `INDUSTRY` or `ECONOMY` name
/// Industry; otherwise `MILITARY`, `ARMY`, `NAVY` or `AIR` name Military;
/// otherwise `POLITICAL`, `RESEARCH` and `FOREIGN` name their categories, in
/// that order; a filter with none of these words names none.
pub proof fn lemma_filter_category_words(f: Seq<char>)
    ensures
        (contains_text(f, "INDUSTRY"@) || contains_text(f, "ECONOMY"@)) ==> filter_category(f)
            == Some(Category::Industry),
        !(contains_text(f, "INDUSTRY"@) || contains_text(f, "ECONOMY"@)) && (contains_text(
            f,
            "MILITARY"@,
        ) || contains_text(f, "ARMY"@) || contains_text(f, "NAVY"@) || contains_text(f, "AIR"@))
            ==> filter_category(f) == Some(Category::Military),
        filter_category(f) == Some(Category::Political) <==> (!contains_text(f, "INDUSTRY"@)
            && !contains_text(f, "ECONOMY"@) && !contains_text(f, "MILITARY"@) && !contains_text(
            f,
            "ARMY"@,
        ) && !contains_text(f, "NAVY"@) && !contains_text(f, "AIR"@) && contains_text(
            f,
            "POLITICAL"@,
        )),
        filter_category(f) == Some(Category::Research) <==> (!contains_text(f, "INDUSTRY"@)
            && !contains_text(f, "ECONOMY"@) && !contains_text(f, "MILITARY"@) && !contains_text(
            f,
            "ARMY"@,
        ) && !contains_text(f, "NAVY"@) && !contains_text(f, "AIR"@) && !contains_text(
            f,
            "POLITICAL"@,
        ) && contains_text(f, "RESEARCH"@)),
        filter_category(f) == Some(Category::Foreign) <==> (!contains_text(f, "INDUSTRY"@)
            && !contains_text(f, "ECONOMY"@) && !contains_text(f, "MILITARY"@) && !contains_text(
            f,
            "ARMY"@,
        ) && !contains_text(f, "NAVY"@) && !contains_text(f, "AIR"@) && !contains_text(
            f,
            "POLITICAL"@,
        ) && !contains_text(f, "RESEARCH"@) && contains_text(f, "FOREIGN"@)),
        filter_category(f) is None <==> (!contains_text(f, "INDUSTRY"@) && !contains_text(
            f,
            "ECONOMY"@,
        ) && !contains_text(f, "MILITARY"@) && !contains_text(f, "ARMY"@) && !contains_text(
            f,
            "NAVY"@,
        ) && !contains_text(f, "AIR"@) && !contains_text(f, "POLITICAL"@) && !contains_text(
            f,
            "RESEARCH"@,
        ) && !contains_text(f, "FOREIGN"@)),
        filter_category(f) != Some(Category::Other),
{
}

/// A focus's category is the one that its first naming filter names: the
/// filters before it name none; `Other` when no filter names one.
pub proof fn lemma_category_first_naming(fs: Seq<Seq<char>>)
    ensures
        category_of(fs) == Category::Other <==> forall|i: int|
            0 <= i < fs.len() ==> #[trigger] filter_category(fs[i]) is None,
        category_of(fs) != Category::Other ==> exists|i: int|
            0 <= i < fs.len() && filter_category(fs[i]) == Some(category_of(fs)) && forall|j: int|
                0 <= j < i ==> #[trigger] filter_category(fs[j]) is None,
    decreases fs.len(),
{
    if fs.len() > 0 {
        let rest = fs.drop_first();
        lemma_category_first_naming(rest);
        lemma_filter_category_words(fs[0]);
        assert forall|i: int| 0 < i < fs.len() implies fs[i] == rest[i - 1] by {}
        if filter_category(fs[0]) is None {
            if category_of(fs) != Category::Other {
                let k = choose|k: int|
                    0 <= k < rest.len() && filter_category(rest[k]) == Some(category_of(rest))
                        && forall|j: int| 0 <= j < k ==> #[trigger] filter_category(rest[j]) is None;
                assert(filter_category(fs[k + 1]) == Some(category_of(fs)));
                assert forall|j: int| 0 <= j < k + 1 implies #[trigger] filter_category(fs[j]) is None by {
                    if j > 0 {
                        assert(fs[j] == rest[j - 1]);
                    }
                }
            }
        } else {
            assert(filter_category(fs[0]) == Some(category_of(fs)));
        }
    }
}

/// The category of the first search filter that names one; `Other` if none does.
pub open spec fn category_of(filters: Seq<Seq<char>>) -> Category
    decreases filters.len(),
{
    if filters.len() == 0 {
        Category::Other
    } else {
        match filter_category(filters[0]) {
            Some(c) => c,
            None => category_of(filters.drop_first()),
        }
    }
}

pub open spec fn category_name(c: Category) -> Seq<char> {
    match c {
        Category::Industry => "Industry"@,
        Category::Military => "Military"@,
        Category::Political => "Political"@,
        Category::Research => "Research"@,
        Category::Foreign => "Foreign"@,
        Category::Other => "Other"@,
    }
}

pub open spec fn category_icon_text(c: Category) -> Seq<char> {
    match c {
        Category::Industry => "🏭"@,
        Category::Military => "⚔️"@,
        Category::Political => "🏛️"@,
        Category::Research => "🔬"@,
        Category::Foreign => "🌍"@,
        Category::Other => "📋"@,
    }
}

impl Category {
    /// The category's name.
    pub fn name(&self) -> (s: &'static str)
        ensures
            s@ == category_name(*self),
    {
        match self {
            Category::Industry => "Industry",
            Category::Military => "Military",
            Category::Political => "Political",
            Category::Research => "Research",
            Category::Foreign => "Foreign",
            Category::Other => "Other",
        }
    }

    /// The category's icon.
    pub fn icon(&self) -> (s: &'static str)
        ensures
            s@ == category_icon_text(*self),
    {
        match self {
            Category::Industry => "🏭",
            Category::Military => "⚔️",
            Category::Political => "🏛️",
            Category::Research => "🔬",
            Category::Foreign => "🌍",
            Category::Other => "📋",
        }
    }
}

/// The category a single search filter names, if any.
pub fn filter_category_of(f: &String) -> (r: Option<Category>)
    ensures
        r == filter_category(f@),
{
    let cs = chars_of(f.as_str());
    if contains_str(&cs, "INDUSTRY") || contains_str(&cs, "ECONOMY") {
        Some(Category::Industry)
    } else if contains_str(&cs, "MILITARY") || contains_str(&cs, "ARMY") || contains_str(
        &cs,
        "NAVY",
    ) || contains_str(&cs, "AIR") {
        Some(Category::Military)
    } else if contains_str(&cs, "POLITICAL") {
        Some(Category::Political)
    } else if contains_str(&cs, "RESEARCH") {
        Some(Category::Research)
    } else if contains_str(&cs, "FOREIGN") {
        Some(Category::Foreign)
    } else {
        None
    }
}

impl FocusNode {
    /// The display name: the id without its `TAG_` prefix.
    pub fn display_name(&self) -> (s: &str)
        ensures
            s@ == display_name_of(self.id@),
    {
        let cs = chars_of(self.id.as_str());
        match find_char_in(&cs, '_') {
            Some(i) => if i > 0 {
                proof {
                    crate::text::lemma_find_char(cs@, '_');
                }
                self.id.as_str().substring_char(i + 1, cs.len())
            } else {
                self.id.as_str()
            },
            None => self.id.as_str(),
        }
    }

    /// The category that the search filters give.
    pub fn category_kind(&self) -> (c: Category)
        ensures
            c == category_of(texts(self.search_filters@)),
    {
        let n = self.search_filters.len();
        let mut i: usize = 0;
        assert(texts(self.search_filters@).skip(0) == texts(self.search_filters@));
        while i < n
            invariant
                i <= n == self.search_filters@.len(),
                category_of(texts(self.search_filters@)) == category_of(
                    texts(self.search_filters@).skip(i as int),
                ),
            decreases n - i,
        {
            let ghost rest = texts(self.search_filters@).skip(i as int);
            assert(rest[0] == self.search_filters@[i as int]@);
            assert(rest.drop_first() == texts(self.search_filters@).skip(i + 1));
            match filter_category_of(&self.search_filters[i]) {
                Some(c) => {
                    return c;
                },
                None => {},
            }
            i = i + 1;
        }
        Category::Other
    }

    /// The category's name: `Industry`, `Military`, `Political`, `Research`,
    /// `Foreign` or `Other`.
    pub fn category(&self) -> (s: &str)
        ensures
            s@ == category_name(category_of(texts(self.search_filters@))),
    {
        self.category_kind().name()
    }

    /// The category's icon.
    pub fn category_icon(&self) -> (s: &str)
        ensures
            s@ == category_icon_text(category_of(texts(self.search_filters@))),
    {
        self.category_kind().icon()
    }
}

// ------------------------------------------------------------------------
// Validation findings
// ------------------------------------------------------------------------

/// A validation finding for a focus.
pub enum ValidationError {
    /// The focus id does not have the expected `TAG_` form.
    InvalidIdFormat(String),
    /// A prerequisite focus does not exist.
    MissingPrerequisite(String),
    /// A mutually exclusive focus does not exist.
    MissingMutuallyExclusive(String),
    /// A focus id occurs more than once.
    DuplicateId(String),
    /// The cost is outside the normal range `min..=max`.
    UnusualCost { cost: Cost, min: Cost, max: Cost },
    /// The position is outside reasonable bounds.
    PositionOutOfBounds { x: i32, y: i32 },
    /// The focus has a completion reward but no `ai_will_do`.
    MissingAiWillDo(String),
    /// A general, non-blocking warning.
    Warning(String),
}

/// The abstract value of a validation finding.
pub ghost enum IssueView {
    InvalidIdFormat(Seq<char>),
    MissingPrerequisite(Seq<char>),
    MissingMutuallyExclusive(Seq<char>),
    DuplicateId(Seq<char>),
    UnusualCost(CostView, CostView, CostView),
    PositionOutOfBounds(i32, i32),
    MissingAiWillDo(Seq<char>),
    Warning(Seq<char>),
}

impl View for ValidationError {
    type V = IssueView;

    open spec fn view(&self) -> IssueView {
        match self {
            ValidationError::InvalidIdFormat(s) => IssueView::InvalidIdFormat(s@),
            ValidationError::MissingPrerequisite(s) => IssueView::MissingPrerequisite(s@),
            ValidationError::MissingMutuallyExclusive(s) => IssueView::MissingMutuallyExclusive(
                s@,
            ),
            ValidationError::DuplicateId(s) => IssueView::DuplicateId(s@),
            ValidationError::UnusualCost { cost, min, max } => IssueView::UnusualCost(
                cost@,
                min@,
                max@,
            ),
            ValidationError::PositionOutOfBounds { x, y } => IssueView::PositionOutOfBounds(
                *x,
                *y,
            ),
            ValidationError::MissingAiWillDo(s) => IssueView::MissingAiWillDo(s@),
            ValidationError::Warning(s) => IssueView::Warning(s@),
        }
    }
}

/// The values of a sequence of findings.
pub open spec fn issue_views(v: Seq<ValidationError>) -> Seq<IssueView> {
    v.map_values(|e: ValidationError| e@)
}

/// The human-readable text of a finding.
pub open spec fn issue_message(e: IssueView) -> Seq<char> {
    match e {
        IssueView::InvalidIdFormat(id) => "Invalid ID format: '"@ + id + "' should contain '_'"@,
        IssueView::MissingPrerequisite(id) => "Missing prerequisite: '"@ + id + "'"@,
        IssueView::MissingMutuallyExclusive(id) => "Missing mutually exclusive: '"@ + id + "'"@,
        IssueView::DuplicateId(id) => "Duplicate ID: '"@ + id + "'"@,
        IssueView::UnusualCost(c, lo, hi) => "Unusual cost "@ + cost_display_text(c)
            + " (normal "@ + cost_display_text(lo) + "-"@ + cost_display_text(hi) + ")"@,
        IssueView::PositionOutOfBounds(x, y) => "Position ("@ + int_text(x as int) + ", "@
            + int_text(y as int) + ") out of bounds"@,
        IssueView::MissingAiWillDo(id) => "Focus '"@ + id + "' missing ai_will_do"@,
        IssueView::Warning(msg) => "Warning: "@ + msg,
    }
}

impl ValidationError {
    /// The human-readable text of the finding.
    pub fn message(&self) -> (s: String)
        ensures
            s@ == issue_message(self@),
    {
        let mut out: Vec<char> = Vec::new();
        match self {
            ValidationError::InvalidIdFormat(id) => {
                push_str(&mut out, "Invalid ID format: '");
                push_str(&mut out, id.as_str());
                push_str(&mut out, "' should contain '_'");
            },
            ValidationError::MissingPrerequisite(id) => {
                push_str(&mut out, "Missing prerequisite: '");
                push_str(&mut out, id.as_str());
                push_str(&mut out, "'");
            },
            ValidationError::MissingMutuallyExclusive(id) => {
                push_str(&mut out, "Missing mutually exclusive: '");
                push_str(&mut out, id.as_str());
                push_str(&mut out, "'");
            },
            ValidationError::DuplicateId(id) => {
                push_str(&mut out, "Duplicate ID: '");
                push_str(&mut out, id.as_str());
                push_str(&mut out, "'");
            },
            ValidationError::UnusualCost { cost, min, max } => {
                push_str(&mut out, "Unusual cost ");
                cost.push_display_text(&mut out);
                push_str(&mut out, " (normal ");
                min.push_display_text(&mut out);
                push_str(&mut out, "-");
                max.push_display_text(&mut out);
                push_str(&mut out, ")");
            },
            ValidationError::PositionOutOfBounds { x, y } => {
                push_str(&mut out, "Position (");
                push_int_text(&mut out, *x as i64);
                push_str(&mut out, ", ");
                push_int_text(&mut out, *y as i64);
                push_str(&mut out, ") out of bounds");
            },
            ValidationError::MissingAiWillDo(id) => {
                push_str(&mut out, "Focus '");
                push_str(&mut out, id.as_str());
                push_str(&mut out, "' missing ai_will_do");
            },
            ValidationError::Warning(msg) => {
                push_str(&mut out, "Warning: ");
                push_str(&mut out, msg.as_str());
            },
        }
        assert(out@ =~= issue_message(self@));
        string_of(&out)
    }
}

/// The result of a validation: blocking errors and warnings.
pub struct ValidationResult {
    pub errors: Vec<ValidationError>,
    pub warnings: Vec<ValidationError>,
}

impl ValidationResult {
    /// No errors were found (warnings do not count).
    pub fn is_ok(&self) -> (b: bool)
        ensures
            b == (self.errors@.len() == 0),
    {
        self.errors.len() == 0
    }

    /// The number of errors and warnings together.
    pub fn total_issues(&self) -> (n: usize)
        requires
            self.errors@.len() + self.warnings@.len() <= usize::MAX,
        ensures
            n == self.errors@.len() + self.warnings@.len(),
    {
        self.errors.len() + self.warnings.len()
    }
}

} // verus!
