//! The editor's state and what each command does to it: loading, saving,
//! validating, editing, deleting and duplicating focuses, and the undo history.
use vstd::prelude::*;
use crate::cost::{Cost, normalize};
use crate::model::{
    FocusNode, FocusTree, IssueView, NodeView, TreeView, ValidationResult, issue_views, opt_text,
};
use crate::parser::{ParseError, parse_error_message, parse_focus_file, parse_tree};
use crate::model::{Category, category_name, category_of, display_name_of};
use crate::parser::chars_eq_str;
use crate::text::{
    chars_of, contains_str, contains_text, find_char, lemma_find_char, lemma_find_char_at, nat_text,
    push_all, push_nat_text, push_str, slice_chars, string_of, trim, trim_chars,
};
use crate::validate::{validate_tree, validation_errors, validation_warnings};
use crate::writer::{tree_text, write_focus_tree};

verus! {

/// How the focuses are shown.
#[derive(Clone, Copy, Debug, PartialEq, Eq)]
pub enum AppView {
    /// A table of focuses.
    List,
    /// A graph of nodes.
    Canvas,
}

/// What a key press asks of the editor.
#[derive(Clone, Copy, Debug, PartialEq, Eq, Structural)]
pub enum KeyCommand {
    Save,
    Undo,
    Redo,
    Reload,
    Delete,
    Duplicate,
    Edit,
}

/// The keys pressed in one frame, and whether Ctrl is held.
#[derive(Clone, Copy, Debug)]
pub struct KeyPresses {
    pub ctrl: bool,
    pub s: bool,
    pub z: bool,
    pub y: bool,
    pub f5: bool,
    pub delete: bool,
    pub d: bool,
    pub e: bool,
}

pub open spec fn opt_command(b: bool, c: KeyCommand) -> Seq<KeyCommand> {
    if b {
        seq![c]
    } else {
        Seq::empty()
    }
}

/// The commands that the keys of one frame give, in the order the editor
/// runs them: Ctrl+S saves, Ctrl+Z undoes, Ctrl+Y redoes, F5 reloads, Delete
/// deletes, Ctrl+D duplicates, and E without Ctrl opens the editor.
pub open spec fn key_command_seq(k: KeyPresses) -> Seq<KeyCommand> {
    opt_command(k.ctrl && k.s, KeyCommand::Save) + opt_command(k.ctrl && k.z, KeyCommand::Undo)
        + opt_command(k.ctrl && k.y, KeyCommand::Redo) + opt_command(k.f5, KeyCommand::Reload)
        + opt_command(k.delete, KeyCommand::Delete) + opt_command(
        k.ctrl && k.d,
        KeyCommand::Duplicate,
    ) + opt_command(k.e && !k.ctrl, KeyCommand::Edit)
}

/// The order in which the editor runs the commands of one frame.
pub open spec fn command_rank(c: KeyCommand) -> int {
    match c {
        KeyCommand::Save => 0,
        KeyCommand::Undo => 1,
        KeyCommand::Redo => 2,
        KeyCommand::Reload => 3,
        KeyCommand::Delete => 4,
        KeyCommand::Duplicate => 5,
        KeyCommand::Edit => 6,
    }
}

/// The commands are in the editor's order, each at most once.
pub open spec fn rank_sorted(q: Seq<KeyCommand>) -> bool {
    forall|i: int, j: int| 0 <= i < j < q.len() ==> command_rank(#[trigger] q[i]) < command_rank(#[trigger] q[j])
}

proof fn lemma_concat_contains(a: Seq<KeyCommand>, b: Seq<KeyCommand>, c: KeyCommand)
    ensures
        (a + b).contains(c) <==> (a.contains(c) || b.contains(c)),
{
    if a.contains(c) {
        let i = choose|i: int| 0 <= i < a.len() && a[i] == c;
        assert((a + b)[i] == c);
    }
    if b.contains(c) {
        let i = choose|i: int| 0 <= i < b.len() && b[i] == c;
        assert((a + b)[a.len() + i] == c);
    }
    if (a + b).contains(c) {
        let i = choose|i: int| 0 <= i < (a + b).len() && (a + b)[i] == c;
        if i < a.len() {
            assert(a[i] == c);
        } else {
            assert(b[i - a.len()] == c);
        }
    }
}

proof fn lemma_opt_contains(b: bool, c: KeyCommand, d: KeyCommand)
    ensures
        opt_command(b, c).contains(d) <==> (b && c == d),
{
    if b {
        assert(opt_command(b, c)[0] == c);
    }
}

/// Appending a command of a higher rank keeps the commands in order.
proof fn lemma_sorted_append(a: Seq<KeyCommand>, b: bool, c: KeyCommand)
    requires
        rank_sorted(a),
        forall|i: int| 0 <= i < a.len() ==> command_rank(#[trigger] a[i]) < command_rank(c),
    ensures
        rank_sorted(a + opt_command(b, c)),
        forall|i: int| 0 <= i < (a + opt_command(b, c)).len() ==> command_rank(
            #[trigger] (a + opt_command(b, c))[i],
        ) <= command_rank(c),
{
    let q = a + opt_command(b, c);
    assert forall|i: int| 0 <= i < q.len() implies command_rank(#[trigger] q[i]) <= command_rank(c)
        && (i < a.len() ==> q[i] == a[i]) && (i >= a.len() ==> q[i] == c) by {}
}

/// Each command comes from its own keys: Save, Undo, Redo and Duplicate only
/// with Ctrl held (S, Z, Y, D), Reload from F5 and Delete from Delete whatever
/// the modifiers, and Edit from E only without Ctrl.
pub proof fn lemma_key_commands_keys(k: KeyPresses)
    ensures
        key_command_seq(k).contains(KeyCommand::Save) <==> (k.ctrl && k.s),
        key_command_seq(k).contains(KeyCommand::Undo) <==> (k.ctrl && k.z),
        key_command_seq(k).contains(KeyCommand::Redo) <==> (k.ctrl && k.y),
        key_command_seq(k).contains(KeyCommand::Reload) <==> k.f5,
        key_command_seq(k).contains(KeyCommand::Delete) <==> k.delete,
        key_command_seq(k).contains(KeyCommand::Duplicate) <==> (k.ctrl && k.d),
        key_command_seq(k).contains(KeyCommand::Edit) <==> (k.e && !k.ctrl),
{
    lemma_members(k, KeyCommand::Save);
    lemma_members(k, KeyCommand::Undo);
    lemma_members(k, KeyCommand::Redo);
    lemma_members(k, KeyCommand::Reload);
    lemma_members(k, KeyCommand::Delete);
    lemma_members(k, KeyCommand::Duplicate);
    lemma_members(k, KeyCommand::Edit);
}

proof fn lemma_members(k: KeyPresses, c: KeyCommand)
    ensures
        key_command_seq(k).contains(c) <==> {
        ||| (k.ctrl && k.s && c == KeyCommand::Save)
        ||| (k.ctrl && k.z && c == KeyCommand::Undo)
        ||| (k.ctrl && k.y && c == KeyCommand::Redo)
        ||| (k.f5 && c == KeyCommand::Reload)
        ||| (k.delete && c == KeyCommand::Delete)
        ||| (k.ctrl && k.d && c == KeyCommand::Duplicate)
        ||| (k.e && !k.ctrl && c == KeyCommand::Edit)
        },
{
    let o0 = opt_command(k.ctrl && k.s, KeyCommand::Save);
    let o1 = opt_command(k.ctrl && k.z, KeyCommand::Undo);
    let o2 = opt_command(k.ctrl && k.y, KeyCommand::Redo);
    let o3 = opt_command(k.f5, KeyCommand::Reload);
    let o4 = opt_command(k.delete, KeyCommand::Delete);
    let o5 = opt_command(k.ctrl && k.d, KeyCommand::Duplicate);
    let o6 = opt_command(k.e && !k.ctrl, KeyCommand::Edit);
    lemma_concat_contains(o0, o1, c);
    lemma_concat_contains(o0 + o1, o2, c);
    lemma_concat_contains(o0 + o1 + o2, o3, c);
    lemma_concat_contains(o0 + o1 + o2 + o3, o4, c);
    lemma_concat_contains(o0 + o1 + o2 + o3 + o4, o5, c);
    lemma_concat_contains(o0 + o1 + o2 + o3 + o4 + o5, o6, c);
    lemma_opt_contains(k.ctrl && k.s, KeyCommand::Save, c);
    lemma_opt_contains(k.ctrl && k.z, KeyCommand::Undo, c);
    lemma_opt_contains(k.ctrl && k.y, KeyCommand::Redo, c);
    lemma_opt_contains(k.f5, KeyCommand::Reload, c);
    lemma_opt_contains(k.delete, KeyCommand::Delete, c);
    lemma_opt_contains(k.ctrl && k.d, KeyCommand::Duplicate, c);
    lemma_opt_contains(k.e && !k.ctrl, KeyCommand::Edit, c);
}

/// The commands of one frame come in the editor's fixed order, each at most
/// once.
pub proof fn lemma_key_commands_order(k: KeyPresses)
    ensures
        rank_sorted(key_command_seq(k)),
        key_command_seq(k).len() <= 7,
{
    let e = Seq::<KeyCommand>::empty();
    assert(e + opt_command(k.ctrl && k.s, KeyCommand::Save) =~= opt_command(k.ctrl && k.s, KeyCommand::Save));
    lemma_sorted_append(e, k.ctrl && k.s, KeyCommand::Save);
    let s0 = opt_command(k.ctrl && k.s, KeyCommand::Save);
    lemma_sorted_append(s0, k.ctrl && k.z, KeyCommand::Undo);
    let s1 = s0 + opt_command(k.ctrl && k.z, KeyCommand::Undo);
    lemma_sorted_append(s1, k.ctrl && k.y, KeyCommand::Redo);
    let s2 = s1 + opt_command(k.ctrl && k.y, KeyCommand::Redo);
    lemma_sorted_append(s2, k.f5, KeyCommand::Reload);
    let s3 = s2 + opt_command(k.f5, KeyCommand::Reload);
    lemma_sorted_append(s3, k.delete, KeyCommand::Delete);
    let s4 = s3 + opt_command(k.delete, KeyCommand::Delete);
    lemma_sorted_append(s4, k.ctrl && k.d, KeyCommand::Duplicate);
    let s5 = s4 + opt_command(k.ctrl && k.d, KeyCommand::Duplicate);
    lemma_sorted_append(s5, k.e && !k.ctrl, KeyCommand::Edit);
}

fn push_command(v: &mut Vec<KeyCommand>, b: bool, c: KeyCommand)
    ensures
        final(v)@ == old(v)@ + opt_command(b, c),
{
    if b {
        v.push(c);
    } else {
        assert(old(v)@ + opt_command(b, c) =~= old(v)@);
    }
}

/// The commands that the keys of one frame give (see [`key_command_seq`]).
pub fn key_commands(k: &KeyPresses) -> (r: Vec<KeyCommand>)
    ensures
        r@ == key_command_seq(*k),
{
    let mut v: Vec<KeyCommand> = Vec::new();
    push_command(&mut v, k.ctrl && k.s, KeyCommand::Save);
    push_command(&mut v, k.ctrl && k.z, KeyCommand::Undo);
    push_command(&mut v, k.ctrl && k.y, KeyCommand::Redo);
    push_command(&mut v, k.f5, KeyCommand::Reload);
    push_command(&mut v, k.delete, KeyCommand::Delete);
    push_command(&mut v, k.ctrl && k.d, KeyCommand::Duplicate);
    push_command(&mut v, k.e && !k.ctrl, KeyCommand::Edit);
    assert(v@ =~= key_command_seq(*k));
    v
}

/// The editor's state.
pub struct FocusFlowApp {
    /// The focus tree being edited.
    pub tree: Option<FocusTree>,
    /// The tree as it was loaded or last saved (for the diff).
    pub original_tree: Option<FocusTree>,
    /// The file the tree was loaded from, as shown to the user.
    pub file_path: Option<String>,
    /// The index of the selected focus.
    pub selected_focus_idx: Option<usize>,
    /// The search text.
    pub search_filter: String,
    /// The category filter.
    pub category_filter: String,
    /// The last validation result.
    pub validation: Option<ValidationResult>,
    /// The status line.
    pub status_message: String,
    /// The editor panel is visible.
    pub show_editor: bool,
    /// The validation panel is visible.
    pub show_validation: bool,
    /// The current view.
    pub view_mode: AppView,
    /// The focus being edited (a copy).
    pub editing_focus: Option<FocusNode>,
    /// The focus being edited is a new one.
    pub creating_new: bool,
    /// The path typed by the user.
    pub file_path_input: String,
    /// The save confirmation is shown.
    pub show_save_dialog: bool,
    /// The diff preview is shown.
    pub show_diff: bool,
    /// Earlier trees, the latest last.
    pub undo_stack: Vec<FocusTree>,
    /// Undone trees, the latest last.
    pub redo_stack: Vec<FocusTree>,
}

/// The abstract value of the editor's state.
pub ghost struct EditorView {
    pub tree: Option<TreeView>,
    pub original_tree: Option<TreeView>,
    pub file_path: Option<Seq<char>>,
    pub selected_focus_idx: Option<usize>,
    pub search_filter: Seq<char>,
    pub category_filter: Seq<char>,
    pub validation: Option<(Seq<IssueView>, Seq<IssueView>)>,
    pub status_message: Seq<char>,
    pub show_editor: bool,
    pub show_validation: bool,
    pub view_mode: AppView,
    pub editing_focus: Option<NodeView>,
    pub creating_new: bool,
    pub file_path_input: Seq<char>,
    pub show_save_dialog: bool,
    pub show_diff: bool,
    pub undo_stack: Seq<TreeView>,
    pub redo_stack: Seq<TreeView>,
}

/// The value of an optional tree.
pub open spec fn opt_tree(o: Option<FocusTree>) -> Option<TreeView> {
    match o {
        Some(t) => Some(t@),
        None => None,
    }
}

/// The value of an optional node.
pub open spec fn opt_node(o: Option<FocusNode>) -> Option<NodeView> {
    match o {
        Some(n) => Some(n@),
        None => None,
    }
}

/// The values of a sequence of trees.
pub open spec fn tree_views(v: Seq<FocusTree>) -> Seq<TreeView> {
    v.map_values(|t: FocusTree| t@)
}

/// The value of an optional validation result: its errors and warnings.
pub open spec fn opt_validation(o: Option<ValidationResult>) -> Option<
    (Seq<IssueView>, Seq<IssueView>),
> {
    match o {
        Some(r) => Some((issue_views(r.errors@), issue_views(r.warnings@))),
        None => None,
    }
}

impl View for FocusFlowApp {
    type V = EditorView;

    open spec fn view(&self) -> EditorView {
        EditorView {
            tree: opt_tree(self.tree),
            original_tree: opt_tree(self.original_tree),
            file_path: crate::model::opt_text(self.file_path),
            selected_focus_idx: self.selected_focus_idx,
            search_filter: self.search_filter@,
            category_filter: self.category_filter@,
            validation: opt_validation(self.validation),
            status_message: self.status_message@,
            show_editor: self.show_editor,
            show_validation: self.show_validation,
            view_mode: self.view_mode,
            editing_focus: opt_node(self.editing_focus),
            creating_new: self.creating_new,
            file_path_input: self.file_path_input@,
            show_save_dialog: self.show_save_dialog,
            show_diff: self.show_diff,
            undo_stack: tree_views(self.undo_stack@),
            redo_stack: tree_views(self.redo_stack@),
        }
    }
}

/// The most trees the undo history keeps.
pub const HISTORY_LIMIT: usize = 50;

/// The undo and redo histories together hold at most [`HISTORY_LIMIT`] trees.
pub open spec fn history_bounded(v: EditorView) -> bool {
    v.undo_stack.len() + v.redo_stack.len() <= HISTORY_LIMIT
}

/// The status line shown before anything is loaded.
pub open spec fn welcome_text() -> Seq<char> {
    "FocusFlow — HOI4 Focus Tree Editor"@
}

/// The state of a newly started editor.
pub open spec fn initial_view() -> EditorView {
    EditorView {
        tree: None,
        original_tree: None,
        file_path: None,
        selected_focus_idx: None,
        search_filter: Seq::empty(),
        category_filter: Seq::empty(),
        validation: None,
        status_message: welcome_text(),
        show_editor: false,
        show_validation: false,
        view_mode: AppView::List,
        editing_focus: None,
        creating_new: false,
        file_path_input: Seq::empty(),
        show_save_dialog: false,
        show_diff: false,
        undo_stack: Seq::empty(),
        redo_stack: Seq::empty(),
    }
}

/// What recording the current tree in the history does: the tree is pushed
/// on the undo history, whose oldest entry goes when it grows past the limit,
/// and the redo history is emptied. Without a tree nothing changes.
pub open spec fn after_save_undo(v: EditorView) -> EditorView {
    match v.tree {
        Some(t) => {
            let pushed = v.undo_stack.push(t);
            EditorView {
                undo_stack: if pushed.len() > HISTORY_LIMIT {
                    pushed.drop_first()
                } else {
                    pushed
                },
                redo_stack: Seq::empty(),
                ..v
            }
        },
        None => v,
    }
}

/// What stepping back in the history does: the latest earlier tree becomes the
/// tree, and the tree that was there (if any) goes on the redo history.
pub open spec fn after_undo(v: EditorView) -> EditorView {
    if v.undo_stack.len() == 0 {
        v
    } else {
        EditorView {
            tree: Some(v.undo_stack.last()),
            undo_stack: v.undo_stack.drop_last(),
            redo_stack: match v.tree {
                Some(t) => v.redo_stack.push(t),
                None => v.redo_stack,
            },
            status_message: "↩️ Undo"@,
            ..v
        }
    }
}

/// What stepping forward in the history does: the latest undone tree becomes
/// the tree, and the tree that was there (if any) goes on the undo history.
pub open spec fn after_redo(v: EditorView) -> EditorView {
    if v.redo_stack.len() == 0 {
        v
    } else {
        EditorView {
            tree: Some(v.redo_stack.last()),
            redo_stack: v.redo_stack.drop_last(),
            undo_stack: match v.tree {
                Some(t) => v.undo_stack.push(t),
                None => v.undo_stack,
            },
            status_message: "↩️ Redo"@,
            ..v
        }
    }
}

/// The value of a read result.
pub open spec fn parsed_view(r: Result<FocusTree, ParseError>) -> Result<TreeView, ParseError> {
    match r {
        Ok(t) => Ok(t@),
        Err(e) => Err(e),
    }
}

/// The status line after a tree was loaded.
pub open spec fn loaded_text(t: TreeView) -> Seq<char> {
    "✅ Loaded: "@ + t.id + " — "@ + nat_text(t.focuses.len()) + " focuses"@
}

/// What loading the file shown as `path`, read as `parsed`, does: a tree
/// becomes both the tree and the original, the selection, the validation and
/// the histories are cleared; an error only sets the status line.
pub open spec fn after_load(
    v: EditorView,
    path: Seq<char>,
    parsed: Result<TreeView, ParseError>,
) -> EditorView {
    match parsed {
        Ok(t) => EditorView {
            original_tree: Some(t),
            status_message: loaded_text(t),
            tree: Some(t),
            file_path: Some(path),
            selected_focus_idx: None,
            validation: None,
            file_path_input: path,
            undo_stack: Seq::empty(),
            redo_stack: Seq::empty(),
            show_diff: false,
            ..v
        },
        Err(e) => EditorView {
            status_message: "❌ Parse error: "@ + parse_error_message(e),
            ..v
        },
    }
}

/// What saving does once the file was written: the tree is no longer
/// modified and becomes the original. Without a tree or a file nothing changes.
pub open spec fn after_saved(v: EditorView) -> EditorView {
    match (v.tree, v.file_path) {
        (Some(t), Some(path)) => {
            let saved = TreeView { modified: false, ..t };
            EditorView {
                status_message: "✅ Saved: "@ + path + " (backup created)"@,
                tree: Some(saved),
                original_tree: Some(saved),
                ..v
            }
        },
        _ => v,
    }
}

/// The status line after a validation.
pub open spec fn validation_text(errors: nat, warnings: nat) -> Seq<char> {
    "Validation: "@ + nat_text(errors) + " errors, "@ + nat_text(warnings) + " warnings"@
}

/// What validating does: the tree's errors and warnings are kept and shown.
pub open spec fn after_validation(v: EditorView) -> EditorView {
    match v.tree {
        Some(t) => {
            let errors = validation_errors(t);
            let warnings = validation_warnings(t);
            EditorView {
                status_message: validation_text(errors.len(), warnings.len()),
                validation: Some((errors, warnings)),
                show_validation: true,
                ..v
            }
        },
        None => v,
    }
}

/// The selected focus, if the selection points into the tree.
pub open spec fn selected_node(v: EditorView) -> Option<NodeView> {
    match (v.tree, v.selected_focus_idx) {
        (Some(t), Some(i)) => if i < t.focuses.len() {
            Some(t.focuses[i as int])
        } else {
            None
        },
        _ => None,
    }
}

/// What opening the editor does: a copy of the selected focus is edited.
pub open spec fn after_open_editor(v: EditorView) -> EditorView {
    match selected_node(v) {
        Some(n) => EditorView {
            editing_focus: Some(n),
            creating_new: false,
            show_editor: true,
            ..v
        },
        None => v,
    }
}

/// A new focus for a tree with `count` focuses.
pub open spec fn new_focus_view(count: nat) -> NodeView {
    NodeView {
        id: "VEN_new_focus_"@ + nat_text(count + 1),
        icon: Some("generic_industry"@),
        x: 0,
        y: 0,
        relative_position_id: None,
        cost: Some(normalize(false, 5, 0)),
        prerequisites: Seq::empty(),
        mutually_exclusive: Seq::empty(),
        bypass_if_unavailable: false,
        available_raw: None,
        completion_reward_raw: Some("{\n\t\t\tadd_political_power = 50\n\t\t}"@),
        immediate_raw: None,
        ai_will_do_raw: Some("{\n\t\t\tbase = 10\n\t\t}"@),
        search_filters: seq!["FOCUS_FILTER_POLITICAL"@],
        bypass_raw: None,
    }
}

/// What starting a new focus does: the tree is recorded in the history and a
/// new focus (not yet in the tree) is edited.
pub open spec fn after_create_new(v: EditorView) -> EditorView {
    match v.tree {
        Some(t) => EditorView {
            editing_focus: Some(new_focus_view(t.focuses.len())),
            creating_new: true,
            show_editor: true,
            ..after_save_undo(v)
        },
        None => v,
    }
}

/// What saving the edited focus does: the tree is recorded in the history; a
/// new focus is appended to the tree, an edited one replaces the selected
/// focus; either way the tree is marked modified and the editor closes.
pub open spec fn after_save_edited(v: EditorView) -> EditorView {
    match v.editing_focus {
        None => v,
        Some(e) => {
            let w = after_save_undo(EditorView { editing_focus: None, ..v });
            let changed = if v.creating_new {
                EditorView {
                    tree: match w.tree {
                        Some(t) => Some(TreeView { focuses: t.focuses.push(e), modified: true, ..t }),
                        None => None,
                    },
                    status_message: "✅ Created new focus: "@ + e.id,
                    ..w
                }
            } else {
                match (v.selected_focus_idx, w.tree) {
                    (Some(i), Some(t)) => EditorView {
                        tree: Some(
                            if i < t.focuses.len() {
                                TreeView {
                                    focuses: t.focuses.update(i as int, e),
                                    modified: true,
                                    ..t
                                }
                            } else {
                                t
                            },
                        ),
                        status_message: "✅ Updated focus: "@ + e.id,
                        ..w
                    },
                    _ => w,
                }
            };
            EditorView { show_editor: false, creating_new: false, ..changed }
        },
    }
}

/// What deleting does: the tree is recorded in the history and the selected
/// focus leaves it.
pub open spec fn after_delete(v: EditorView) -> EditorView {
    match (selected_node(v), v.selected_focus_idx) {
        (Some(n), Some(i)) => {
            let w = after_save_undo(v);
            let t = w.tree->0;
            EditorView {
                tree: Some(TreeView { focuses: t.focuses.remove(i as int), modified: true, ..t }),
                selected_focus_idx: None,
                status_message: "🗑️ Deleted focus: "@ + n.id,
                ..w
            }
        },
        _ => v,
    }
}

/// A copy of a focus, one column to the right, with `_copy` after its id.
pub open spec fn copy_of(n: NodeView) -> NodeView {
    NodeView { id: n.id + "_copy"@, x: (n.x + 1) as i32, ..n }
}

/// What duplicating does: the tree is recorded in the history and a copy of
/// the selected focus is appended.
pub open spec fn after_duplicate(v: EditorView) -> EditorView {
    match selected_node(v) {
        Some(n) => {
            let c = copy_of(n);
            let w = after_save_undo(v);
            let t = w.tree->0;
            EditorView {
                tree: Some(TreeView { focuses: t.focuses.push(c), modified: true, ..t }),
                status_message: "📋 Duplicated: "@ + c.id,
                ..w
            }
        },
        None => v,
    }
}

/// What `str::to_lowercase` gives for a text.
pub uninterp spec fn lowercase(s: Seq<char>) -> Seq<char>;

/// `str::to_lowercase`: the text with every character replaced by its
/// lowercase mapping under Unicode's rules. The contract only names the result
/// (see [`lowercase`]): it depends on the text alone.
#[verifier::external_body]
fn to_lowercase(s: &str) -> (r: String)
    ensures
        r@ == lowercase(s@),
{
    s.to_lowercase()
}

/// A focus matches the search text when the text is empty or its lowercase
/// form occurs in the lowercase id or display name.
pub open spec fn matches_search(n: NodeView, search: Seq<char>) -> bool {
    ||| search.len() == 0
    ||| contains_text(lowercase(n.id), lowercase(search))
    ||| contains_text(lowercase(display_name_of(n.id)), lowercase(search))
}

/// The name of a focus's category.
pub open spec fn node_category_name(n: NodeView) -> Seq<char> {
    category_name(category_of(n.search_filters))
}

/// A focus matches the category filter when it is empty, `All`, or the
/// focus's category name.
pub open spec fn matches_category(n: NodeView, filter: Seq<char>) -> bool {
    ||| filter.len() == 0
    ||| filter == "All"@
    ||| node_category_name(n) == filter
}

/// The indices of the focuses that match both filters, in order.
pub open spec fn filtered_indices(ns: Seq<NodeView>, search: Seq<char>, filter: Seq<char>) -> Seq<
    int,
>
    decreases ns.len(),
{
    if ns.len() == 0 {
        Seq::empty()
    } else {
        filtered_indices(ns.drop_last(), search, filter) + if matches_search(ns.last(), search)
            && matches_category(ns.last(), filter) {
            seq![ns.len() - 1]
        } else {
            Seq::empty()
        }
    }
}

/// The values of a sequence of indices.
pub open spec fn index_values(v: Seq<usize>) -> Seq<int> {
    v.map_values(|i: usize| i as int)
}

/// How many focuses have the category named `name`.
pub open spec fn count_named(ns: Seq<NodeView>, name: Seq<char>) -> nat
    decreases ns.len(),
{
    if ns.len() == 0 {
        0
    } else {
        count_named(ns.drop_last(), name) + if node_category_name(ns.last()) == name {
            1nat
        } else {
            0nat
        }
    }
}

/// `s` names a category.
pub open spec fn is_category_name(s: Seq<char>) -> bool {
    exists|c: Category| category_name(c) == s
}

/// `r` lists, once each, every category that some focus of `ns` has, with the
/// number of focuses that have it, the largest counts first.
pub open spec fn counts_ranked(ns: Seq<NodeView>, r: Seq<(Seq<char>, usize)>) -> bool {
    &&& forall|i: int|
        0 <= i < r.len() ==> is_category_name(#[trigger] r[i].0) && r[i].1 == count_named(
            ns,
            r[i].0,
        ) && r[i].1 > 0
    &&& forall|i: int, k: int|
        0 <= i < k < r.len() ==> #[trigger] r[i].0 != #[trigger] r[k].0 && r[i].1 >= r[k].1
    &&& forall|c: Category|
        count_named(ns, #[trigger] category_name(c)) > 0 ==> exists|i: int|
            0 <= i < r.len() && r[i].0 == category_name(c)
}

/// The values of a list of named counts.
pub open spec fn count_views(v: Seq<(String, usize)>) -> Seq<(Seq<char>, usize)> {
    v.map_values(|p: (String, usize)| (p.0@, p.1))
}

/// The categories in a fixed order.
pub open spec fn category_at(j: int) -> Category {
    if j == 0 {
        Category::Industry
    } else if j == 1 {
        Category::Military
    } else if j == 2 {
        Category::Political
    } else if j == 3 {
        Category::Research
    } else if j == 4 {
        Category::Foreign
    } else {
        Category::Other
    }
}

/// The place of a category in the fixed order.
pub open spec fn category_index(c: Category) -> int {
    match c {
        Category::Industry => 0,
        Category::Military => 1,
        Category::Political => 2,
        Category::Research => 3,
        Category::Foreign => 4,
        Category::Other => 5,
    }
}

/// Different categories have different names.
pub proof fn lemma_category_names_distinct()
    ensures
        forall|a: Category, b: Category| a != b ==> category_name(a) != category_name(b),
{
    reveal_strlit("Industry");
    reveal_strlit("Military");
    reveal_strlit("Political");
    reveal_strlit("Research");
    reveal_strlit("Foreign");
    reveal_strlit("Other");
    assert forall|a: Category, b: Category| a != b implies category_name(a) != category_name(
        b,
    ) by {
        if category_name(a) == category_name(b) {
            assert(category_name(a)[0] == category_name(b)[0]);
            assert(category_name(a)[1] == category_name(b)[1]);
        }
    }
}

fn index_of_category(c: Category) -> (j: usize)
    ensures
        j == category_index(c),
        category_at(j as int) == c,
{
    match c {
        Category::Industry => 0,
        Category::Military => 1,
        Category::Political => 2,
        Category::Research => 3,
        Category::Foreign => 4,
        Category::Other => 5,
    }
}

fn category_at_index(j: usize) -> (c: Category)
    requires
        j < 6,
    ensures
        c == category_at(j as int),
        category_index(c) == j,
{
    if j == 0 {
        Category::Industry
    } else if j == 1 {
        Category::Military
    } else if j == 2 {
        Category::Political
    } else if j == 3 {
        Category::Research
    } else if j == 4 {
        Category::Foreign
    } else {
        Category::Other
    }
}


/// Undoing after any command that recorded the tree in the history, and that
/// left the history as it made it, brings that tree back.
pub proof fn lemma_undo_restores(v: EditorView, w: EditorView)
    requires
        v.tree is Some,
        w.undo_stack == after_save_undo(v).undo_stack,
    ensures
        after_undo(w).tree == v.tree,
{
}

/// Deleting the selected focus leaves the other focuses, in their order, and
/// clears the selection; the tree is then modified and the tree before goes on
/// the undo history.
pub proof fn lemma_delete_removes(v: EditorView)
    requires
        v.tree matches Some(t) && v.selected_focus_idx matches Some(i) && i < t.focuses.len(),
    ensures
        ({
            let t = v.tree->0;
            let i = v.selected_focus_idx->0 as int;
            let w = after_delete(v);
            &&& w.tree matches Some(t2) && {
                &&& t2.focuses.len() == t.focuses.len() - 1
                &&& forall|j: int| 0 <= j < i ==> #[trigger] t2.focuses[j] == t.focuses[j]
                &&& forall|j: int| i <= j < t2.focuses.len() ==> #[trigger] t2.focuses[j] == t.focuses[j + 1]
                &&& t2.modified
                &&& t2.id == t.id
            }
            &&& w.selected_focus_idx is None
            &&& w.undo_stack.last() == t
            &&& w.redo_stack.len() == 0
        }),
{
}

/// Recording the tree in the history keeps at most [`HISTORY_LIMIT`] earlier
/// trees: the most recent ones, the current tree last; the redo history is
/// cleared.
pub proof fn lemma_history_keeps_latest(v: EditorView)
    requires
        v.tree is Some,
        v.undo_stack.len() <= HISTORY_LIMIT,
    ensures
        ({
            let w = after_save_undo(v);
            let all = v.undo_stack.push(v.tree->0);
            &&& w.undo_stack.len() == if all.len() > HISTORY_LIMIT { HISTORY_LIMIT as int } else { all.len() as int }
            &&& w.undo_stack.len() <= HISTORY_LIMIT
            &&& w.undo_stack == all.subrange(all.len() - w.undo_stack.len(), all.len() as int)
            &&& w.undo_stack.last() == v.tree->0
            &&& w.redo_stack.len() == 0
            &&& w.tree == v.tree
        }),
{
    let all = v.undo_stack.push(v.tree->0);
    let w = after_save_undo(v);
    if all.len() > HISTORY_LIMIT {
        assert(all.drop_first() =~= all.subrange(1, all.len() as int));
    } else {
        assert(all =~= all.subrange(0, all.len() as int));
    }
}

/// Saving an edited focus puts it in place of the selected focus, or appends
/// a new one; the other focuses stay, and the editor closes.
pub proof fn lemma_save_edited_places(v: EditorView)
    requires
        v.tree is Some,
        v.editing_focus is Some,
    ensures
        ({
            let t = v.tree->0;
            let e = v.editing_focus->0;
            let w = after_save_edited(v);
            &&& w.editing_focus is None
            &&& v.creating_new ==> w.tree == Some(TreeView { focuses: t.focuses.push(e), modified: true, ..t })
            &&& (!v.creating_new && v.selected_focus_idx is Some && v.selected_focus_idx->0 < t.focuses.len())
                ==> w.tree == Some(TreeView { focuses: t.focuses.update(v.selected_focus_idx->0 as int, e), modified: true, ..t })
            &&& w.undo_stack.last() == t
        }),
{
}

/// Duplicating the selected focus keeps every focus and appends one copy of
/// it that differs only in its id (`_copy` appended) and its column (one
/// further right): the same row, icon, relative position, cost,
/// prerequisites, exclusions, bypass flag, search filters and raw blocks. The
/// tree is then modified and the tree before goes on the undo history.
pub proof fn lemma_duplicate_copies(v: EditorView)
    requires
        v.tree matches Some(t) && v.selected_focus_idx matches Some(i) && i < t.focuses.len()
            && t.focuses[i as int].x < i32::MAX,
    ensures
        ({
            let t = v.tree->0;
            let n = t.focuses[v.selected_focus_idx->0 as int];
            let w = after_duplicate(v);
            &&& w.tree matches Some(t2) && {
                let c = t2.focuses.last();
                &&& t2.focuses.len() == t.focuses.len() + 1
                &&& t2.focuses.take(t.focuses.len() as int) == t.focuses
                &&& c.id == n.id + "_copy"@
                &&& c.x == n.x + 1
                &&& c.y == n.y
                &&& c.icon == n.icon
                &&& c.relative_position_id == n.relative_position_id
                &&& c.cost == n.cost
                &&& c.prerequisites == n.prerequisites
                &&& c.mutually_exclusive == n.mutually_exclusive
                &&& c.bypass_if_unavailable == n.bypass_if_unavailable
                &&& c.available_raw == n.available_raw
                &&& c.completion_reward_raw == n.completion_reward_raw
                &&& c.immediate_raw == n.immediate_raw
                &&& c.ai_will_do_raw == n.ai_will_do_raw
                &&& c.search_filters == n.search_filters
                &&& c.bypass_raw == n.bypass_raw
                &&& t2.modified
                &&& t2.id == t.id
                &&& t2.shortcuts == t.shortcuts
            }
            &&& w.undo_stack.last() == t
            &&& w.redo_stack.len() == 0
            &&& w.selected_focus_idx == v.selected_focus_idx
        }),
{
    let t = v.tree->0;
    let w = after_duplicate(v);
    assert(w.tree->0.focuses.take(t.focuses.len() as int) =~= t.focuses);
}

/// Undoing right after deleting, duplicating or saving an edited focus brings
/// the tree back as it was before.
pub proof fn lemma_undo_after_edit(v: EditorView)
    requires
        v.tree is Some,
    ensures
        selected_node(v) is Some ==> after_undo(after_delete(v)).tree == v.tree,
        selected_node(v) is Some ==> after_undo(after_duplicate(v)).tree == v.tree,
        v.editing_focus is Some ==> after_undo(after_save_edited(v)).tree == v.tree,
{
}

/// Redoing right after undoing restores the tree and both histories.
pub proof fn lemma_redo_after_undo(v: EditorView)
    requires
        v.tree is Some,
        v.undo_stack.len() > 0,
    ensures
        after_redo(after_undo(v)).tree == v.tree,
        after_redo(after_undo(v)).undo_stack == v.undo_stack,
        after_redo(after_undo(v)).redo_stack == v.redo_stack,
{
    assert(after_undo(v).redo_stack.drop_last() =~= v.redo_stack);
    assert(v.undo_stack.drop_last().push(v.undo_stack.last()) =~= v.undo_stack);
}

/// Undoing right after redoing restores the tree and both histories.
pub proof fn lemma_undo_after_redo(v: EditorView)
    requires
        v.tree is Some,
        v.redo_stack.len() > 0,
    ensures
        after_undo(after_redo(v)).tree == v.tree,
        after_undo(after_redo(v)).undo_stack == v.undo_stack,
        after_undo(after_redo(v)).redo_stack == v.redo_stack,
{
    assert(after_redo(v).undo_stack.drop_last() =~= v.undo_stack);
    assert(v.redo_stack.drop_last().push(v.redo_stack.last()) =~= v.redo_stack);
}

/// Recording the tree empties the redo history.
pub proof fn lemma_record_clears_redo(v: EditorView)
    requires
        v.tree is Some,
    ensures
        after_save_undo(v).redo_stack.len() == 0,
        after_save_undo(v).undo_stack.last() == v.tree->0,
{
}

/// After saving, the tree is unmodified and is the original that the diff
/// compares with.
pub proof fn lemma_saved_is_original(v: EditorView)
    requires
        v.tree is Some,
        v.file_path is Some,
    ensures
        after_saved(v).original_tree == after_saved(v).tree,
        after_saved(v).tree->0.modified == false,
        after_saved(v).tree->0.focuses == v.tree->0.focuses,
{
}

/// Editing commands mark the tree modified.
pub proof fn lemma_edits_mark_modified(v: EditorView)
    requires
        v.tree is Some,
    ensures
        selected_node(v) is Some ==> after_delete(v).tree->0.modified,
        selected_node(v) is Some ==> after_duplicate(v).tree->0.modified,
        v.editing_focus is Some && v.creating_new ==> after_save_edited(v).tree->0.modified,
{
}


// ------------------------------------------------------------------------
// Id lists in the editor: `A, B, C`
// ------------------------------------------------------------------------

/// The pieces of `s` between commas (`str::split(',')`).
pub open spec fn comma_pieces(s: Seq<char>) -> Seq<Seq<char>>
    decreases s.len(),
{
    match find_char(s, ',') {
        None => seq![s],
        Some(i) => {
            proof {
                lemma_find_char(s, ',');
            }
            seq![s.take(i)] + comma_pieces(s.skip(i + 1))
        },
    }
}

/// The pieces trimmed, without the empty ones.
pub open spec fn trimmed_nonempty(ps: Seq<Seq<char>>) -> Seq<Seq<char>>
    decreases ps.len(),
{
    if ps.len() == 0 {
        Seq::empty()
    } else {
        (if trim(ps[0]).len() > 0 {
            seq![trim(ps[0])]
        } else {
            Seq::<Seq<char>>::empty()
        }) + trimmed_nonempty(ps.drop_first())
    }
}

/// The ids that a comma-separated text lists.
pub open spec fn id_list(s: Seq<char>) -> Seq<Seq<char>> {
    trimmed_nonempty(comma_pieces(s))
}

/// The ids joined by `, `.
pub open spec fn joined_ids(v: Seq<Seq<char>>) -> Seq<char>
    decreases v.len(),
{
    if v.len() == 0 {
        Seq::empty()
    } else if v.len() == 1 {
        v[0]
    } else {
        joined_ids(v.drop_last()) + ", "@ + v.last()
    }
}

proof fn lemma_trimmed_concat(a: Seq<Seq<char>>, b: Seq<Seq<char>>)
    ensures
        trimmed_nonempty(a + b) == trimmed_nonempty(a) + trimmed_nonempty(b),
    decreases a.len(),
{
    if a.len() == 0 {
        assert(a + b =~= b);
        assert(trimmed_nonempty(a) + trimmed_nonempty(b) =~= trimmed_nonempty(b));
    } else {
        assert((a + b)[0] == a[0]);
        assert((a + b).drop_first() =~= a.drop_first() + b);
        lemma_trimmed_concat(a.drop_first(), b);
        assert(trimmed_nonempty(a + b) =~= trimmed_nonempty(a) + trimmed_nonempty(b));
    }
}

/// An id that an id list can hold: not empty, without whitespace at its ends,
/// and without a comma.
pub open spec fn list_id_ok(s: Seq<char>) -> bool {
    crate::roundtrip::solid(s) && forall|i: int| 0 <= i < s.len() ==> #[trigger] s[i] != ','
}

/// Splitting at a comma splits the pieces.
proof fn lemma_comma_pieces_concat(a: Seq<char>, b: Seq<char>)
    ensures
        comma_pieces(a + seq![','] + b) == comma_pieces(a) + comma_pieces(b),
    decreases a.len(),
{
    let s = a + seq![','] + b;
    lemma_find_char(a, ',');
    match find_char(a, ',') {
        Some(i) => {
            assert(s[i] == ',');
            assert forall|j: int| 0 <= j < i implies s[j] != ',' by {
                assert(s[j] == a[j]);
            }
            lemma_find_char_at(s, ',', i);
            assert(s.take(i) =~= a.take(i));
            assert(s.skip(i + 1) =~= a.skip(i + 1) + seq![','] + b);
            lemma_comma_pieces_concat(a.skip(i + 1), b);
            assert(comma_pieces(s) =~= comma_pieces(a) + comma_pieces(b));
        },
        None => {
            let k = a.len() as int;
            assert(s[k] == ',');
            assert forall|j: int| 0 <= j < k implies s[j] != ',' by {
                assert(s[j] == a[j]);
            }
            lemma_find_char_at(s, ',', k);
            assert(s.take(k) =~= a);
            assert(s.skip(k + 1) =~= b);
            assert(comma_pieces(a) == seq![a]);
        },
    }
}

/// Joining ids and splitting the text again gives the ids back: what the
/// editor shows of an id list reads back as that list.
pub proof fn lemma_id_list_roundtrip(v: Seq<Seq<char>>)
    requires
        forall|i: int| 0 <= i < v.len() ==> list_id_ok(#[trigger] v[i]),
    ensures
        id_list(joined_ids(v)) == v,
    decreases v.len(),
{
    if v.len() == 0 {
        let e = Seq::<char>::empty();
        lemma_find_char(e, ',');
        assert(joined_ids(v) =~= e);
        assert(comma_pieces(e) == seq![e]);
        assert(trim(e) =~= e);
        assert(seq![e].drop_first() =~= Seq::<Seq<char>>::empty());
        assert(seq![e][0] == e);
        assert(trimmed_nonempty(Seq::<Seq<char>>::empty()) =~= Seq::<Seq<char>>::empty());
        assert(trimmed_nonempty(seq![e]) =~= Seq::<Seq<char>>::empty());
        assert(id_list(joined_ids(v)) =~= v);
    } else {
        let last = v.last();
        assert(list_id_ok(v[v.len() - 1]));
        let y = seq![' '] + last;
        assert forall|j: int| 0 <= j < y.len() implies y[j] != ',' by {
            if j > 0 {
                assert(y[j] == last[j - 1]);
            }
        }
        crate::text::lemma_find_char_none(y, ',');
        assert(crate::roundtrip::all_ws(seq![' '])) by {
            assert(seq![' '][0] == ' ');
        }
        crate::roundtrip::lemma_trim_ws_solid(seq![' '], last);
        assert(trimmed_nonempty(seq![y]) =~= seq![last]) by {
            assert(seq![y].drop_first() =~= Seq::<Seq<char>>::empty());
            assert(seq![y][0] == y);
            assert(seq![' '] + last =~= y);
            assert(trim(y) == last);
            assert(trimmed_nonempty(Seq::<Seq<char>>::empty()) =~= Seq::<Seq<char>>::empty());
        }
        if v.len() == 1 {
            crate::text::lemma_find_char_none(last, ',');
            crate::roundtrip::lemma_trim_solid(last);
            assert(seq![last].drop_first() =~= Seq::<Seq<char>>::empty());
            assert(seq![last][0] == last);
            assert(v =~= seq![last]);
            assert(id_list(joined_ids(v)) =~= v);
        } else {
            let init = v.drop_last();
            assert forall|i: int| 0 <= i < init.len() implies list_id_ok(#[trigger] init[i]) by {
                assert(init[i] == v[i]);
            }
            lemma_id_list_roundtrip(init);
            reveal_strlit(", ");
            assert(joined_ids(v) =~= joined_ids(init) + seq![','] + y);
            lemma_comma_pieces_concat(joined_ids(init), y);
            lemma_trimmed_concat(comma_pieces(joined_ids(init)), comma_pieces(y));
            assert(v =~= init + seq![last]);
        }
    }
}

/// The ids listed in a comma-separated text (see [`id_list`]).
pub fn split_id_list(text: &str) -> (r: Vec<String>)
    ensures
        crate::model::texts(r@) == id_list(text@),
{
    let s = chars_of(text);
    let n = s.len();
    let mut r: Vec<String> = Vec::new();
    let mut start: usize = 0;
    let mut i: usize = 0;
    assert(s@.skip(0) =~= s@);
    assert(crate::model::texts(r@) =~= Seq::<Seq<char>>::empty());
    while i < n
        invariant
            start <= i <= n == s@.len(),
            forall|j: int| start <= j < i ==> s@[j] != ',',
            crate::model::texts(r@) + trimmed_nonempty(comma_pieces(s@.skip(start as int)))
                == id_list(s@),
        decreases n - i,
    {
        if s[i] == ',' {
            let ghost rest = s@.skip(start as int);
            assert forall|j: int| 0 <= j < i - start implies rest[j] != ',' by {
                assert(rest[j] == s@[start + j]);
            }
            assert(rest[i - start] == ',');
            proof {
                lemma_find_char_at(rest, ',', (i - start) as int);
            }
            assert(rest.take(i - start) =~= s@.subrange(start as int, i as int));
            assert(rest.skip(i - start + 1) =~= s@.skip(i + 1));
            let piece = slice_chars(&s, start, i);
            let t = trim_chars(&piece);
            let ghost before = r@;
            proof {
                lemma_trimmed_concat(seq![piece@], comma_pieces(s@.skip(i as int + 1)));
            }
            assert(seq![piece@].drop_first() =~= Seq::<Seq<char>>::empty());
            assert(seq![piece@][0] == piece@);
            assert(trimmed_nonempty(Seq::<Seq<char>>::empty()) =~= Seq::<Seq<char>>::empty());
            let ghost one = if t@.len() > 0 {
                seq![t@]
            } else {
                Seq::<Seq<char>>::empty()
            };
            assert(trimmed_nonempty(seq![piece@]) =~= one);
            if t.len() > 0 {
                r.push(string_of(&t));
                assert(crate::model::texts(r@) =~= crate::model::texts(before) + seq![t@]);
            } else {
                assert(crate::model::texts(r@) =~= crate::model::texts(before) + one);
            }
            assert(comma_pieces(rest) == seq![piece@] + comma_pieces(s@.skip(i + 1)));
            assert(crate::model::texts(r@) + trimmed_nonempty(comma_pieces(s@.skip(i + 1)))
                =~= crate::model::texts(before) + trimmed_nonempty(comma_pieces(rest)));
            start = i + 1;
        }
        i = i + 1;
    }
    let ghost rest = s@.skip(start as int);
    assert forall|j: int| 0 <= j < rest.len() implies rest[j] != ',' by {
        assert(rest[j] == s@[start + j]);
    }
    proof {
        crate::text::lemma_find_char_none(rest, ',');
    }
    let piece = slice_chars(&s, start, n);
    assert(piece@ =~= rest);
    let t = trim_chars(&piece);
    let ghost before = r@;
    assert(seq![rest].drop_first() =~= Seq::<Seq<char>>::empty());
    assert(seq![rest][0] == rest);
    assert(trimmed_nonempty(Seq::<Seq<char>>::empty()) =~= Seq::<Seq<char>>::empty());
    assert(comma_pieces(rest) == seq![rest]);
    if t.len() > 0 {
        r.push(string_of(&t));
        assert(crate::model::texts(r@) =~= crate::model::texts(before) + seq![t@]);
        assert(trimmed_nonempty(seq![rest]) =~= seq![t@]);
    } else {
        assert(trimmed_nonempty(seq![rest]) =~= Seq::<Seq<char>>::empty());
    }
    assert(crate::model::texts(r@) =~= id_list(s@));
    r
}

// ------------------------------------------------------------------------
// Editor form fields
// ------------------------------------------------------------------------

/// The text shown for an optional field: the value, or nothing.
pub open spec fn shown_text(o: Option<Seq<char>>) -> Seq<char> {
    match o {
        Some(t) => t,
        None => Seq::empty(),
    }
}

/// The text of an optional field for the form: the value, or the empty text.
pub fn text_or_empty(o: &Option<String>) -> (r: String)
    ensures
        r@ == shown_text(crate::model::opt_text(*o)),
{
    match o {
        Some(t) => t.clone(),
        None => String::new(),
    }
}

/// The field that an edited text gives: none for the empty text.
pub fn optional_text(s: String) -> (r: Option<String>)
    ensures
        crate::model::opt_text(r) == (if s@.len() == 0 {
            None
        } else {
            Some(s@)
        }),
{
    if s.as_str().unicode_len() == 0 {
        None
    } else {
        Some(s)
    }
}

/// The text shown for a raw block in the form: the block, or `default` when
/// there is none.
pub open spec fn raw_or(o: Option<Seq<char>>, default: Seq<char>) -> Seq<char> {
    match o {
        Some(t) => t,
        None => default,
    }
}

/// The completion reward shown in the form: the block, or an empty block.
pub fn completion_reward_text(f: &FocusNode) -> (r: String)
    ensures
        r@ == raw_or(f@.completion_reward_raw, "{\n}"@),
{
    match &f.completion_reward_raw {
        Some(t) => t.clone(),
        None => String::from_str("{\n}"),
    }
}

/// The AI weights shown in the form: the block, or a base weight of 10.
pub fn ai_will_do_text(f: &FocusNode) -> (r: String)
    ensures
        r@ == raw_or(f@.ai_will_do_raw, "{\n\tbase = 10\n}"@),
{
    match &f.ai_will_do_raw {
        Some(t) => t.clone(),
        None => String::from_str("{\n\tbase = 10\n}"),
    }
}

/// The ids joined by `, ` (see [`joined_ids`]).
pub fn join_id_list(v: &Vec<String>) -> (s: String)
    ensures
        s@ == joined_ids(crate::model::texts(v@)),
{
    let ghost ts = crate::model::texts(v@);
    let mut out: Vec<char> = Vec::new();
    let mut i: usize = 0;
    assert(ts.take(0) =~= Seq::<Seq<char>>::empty());
    while i < v.len()
        invariant
            i <= v@.len(),
            ts == crate::model::texts(v@),
            out@ == joined_ids(ts.take(i as int)),
        decreases v@.len() - i,
    {
        assert(ts.take(i + 1).drop_last() =~= ts.take(i as int));
        assert(ts.take(i + 1).last() == v@[i as int]@);
        if i > 0 {
            push_str(&mut out, ", ");
        } else {
            assert(ts.take(1) =~= seq![v@[0]@]);
        }
        push_str(&mut out, v[i].as_str());
        assert(out@ =~= joined_ids(ts.take(i + 1)));
        i = i + 1;
    }
    assert(ts.take(v@.len() as int) =~= ts);
    string_of(&out)
}

impl FocusFlowApp {
    /// A newly started editor with nothing loaded.
    pub fn new() -> (r: FocusFlowApp)
        ensures
            r@ == initial_view(),
            history_bounded(r@),
    {
        let r = FocusFlowApp {
            tree: None,
            original_tree: None,
            file_path: None,
            selected_focus_idx: None,
            search_filter: String::new(),
            category_filter: String::new(),
            validation: None,
            status_message: String::from_str("FocusFlow — HOI4 Focus Tree Editor"),
            show_editor: false,
            show_validation: false,
            view_mode: AppView::List,
            editing_focus: None,
            creating_new: false,
            file_path_input: String::new(),
            show_save_dialog: false,
            show_diff: false,
            undo_stack: Vec::new(),
            redo_stack: Vec::new(),
        };
        assert(r@.undo_stack =~= Seq::<TreeView>::empty());
        assert(r@.redo_stack =~= Seq::<TreeView>::empty());
        r
    }

    /// Records the current tree in the undo history (see [`after_save_undo`]).
    pub fn save_undo(&mut self)
        ensures
            final(self)@ == after_save_undo(old(self)@),
            history_bounded(old(self)@) ==> history_bounded(final(self)@),
    {
        match &self.tree {
            Some(t) => {
                let snapshot = t.duplicate();
                self.undo_stack.push(snapshot);
                assert(tree_views(self.undo_stack@) =~= tree_views(old(self).undo_stack@).push(
                    t@,
                ));
                if self.undo_stack.len() > HISTORY_LIMIT {
                    let ghost pushed = self.undo_stack@;
                    self.undo_stack.remove(0);
                    assert(tree_views(self.undo_stack@) =~= tree_views(pushed).drop_first());
                }
                self.redo_stack.clear();
                assert(tree_views(self.redo_stack@) =~= Seq::<TreeView>::empty());
            },
            None => {},
        }
    }

    /// Steps back in the history (see [`after_undo`]).
    pub fn undo(&mut self)
        ensures
            final(self)@ == after_undo(old(self)@),
            history_bounded(old(self)@) ==> history_bounded(final(self)@),
    {
        match self.undo_stack.pop() {
            Some(snapshot) => {
                assert(tree_views(self.undo_stack@) =~= tree_views(old(self).undo_stack@).drop_last());
                match &self.tree {
                    Some(current) => {
                        let c = current.duplicate();
                        self.redo_stack.push(c);
                        assert(tree_views(self.redo_stack@) =~= tree_views(
                            old(self).redo_stack@,
                        ).push(current@));
                    },
                    None => {},
                }
                self.tree = Some(snapshot);
                self.status_message = String::from_str("↩️ Undo");
            },
            None => {},
        }
    }

    /// Steps forward in the history (see [`after_redo`]).
    pub fn redo(&mut self)
        ensures
            final(self)@ == after_redo(old(self)@),
            history_bounded(old(self)@) ==> history_bounded(final(self)@),
    {
        match self.redo_stack.pop() {
            Some(snapshot) => {
                assert(tree_views(self.redo_stack@) =~= tree_views(old(self).redo_stack@).drop_last());
                match &self.tree {
                    Some(current) => {
                        let c = current.duplicate();
                        self.undo_stack.push(c);
                        assert(tree_views(self.undo_stack@) =~= tree_views(
                            old(self).undo_stack@,
                        ).push(current@));
                    },
                    None => {},
                }
                self.tree = Some(snapshot);
                self.status_message = String::from_str("↩️ Redo");
            },
            None => {},
        }
    }

    /// Takes the result of reading the file shown as `path` (see [`after_load`]).
    pub fn load_parsed(&mut self, path: &str, parsed: Result<FocusTree, ParseError>)
        ensures
            final(self)@ == after_load(old(self)@, path@, parsed_view(parsed)),
            history_bounded(old(self)@) ==> history_bounded(final(self)@),
    {
        match parsed {
            Ok(tree) => {
                let mut msg: Vec<char> = Vec::new();
                push_str(&mut msg, "✅ Loaded: ");
                push_str(&mut msg, tree.id.as_str());
                push_str(&mut msg, " — ");
                push_nat_text(&mut msg, tree.focuses.len() as u128);
                push_str(&mut msg, " focuses");
                assert(msg@ =~= loaded_text(tree@));
                self.original_tree = Some(tree.duplicate());
                self.status_message = string_of(&msg);
                self.tree = Some(tree);
                self.file_path = Some(String::from_str(path));
                self.selected_focus_idx = None;
                self.validation = None;
                self.file_path_input = String::from_str(path);
                self.undo_stack = Vec::new();
                self.redo_stack = Vec::new();
                self.show_diff = false;
                assert(tree_views(self.undo_stack@) =~= Seq::<TreeView>::empty());
                assert(tree_views(self.redo_stack@) =~= Seq::<TreeView>::empty());
            },
            Err(e) => {
                let mut msg: Vec<char> = Vec::new();
                push_str(&mut msg, "❌ Parse error: ");
                let m = e.message();
                push_str(&mut msg, m.as_str());
                self.status_message = string_of(&msg);
                assert(self.status_message@ =~= "❌ Parse error: "@ + parse_error_message(e));
            },
        }
    }

    /// Reads `content`, the text of the file shown as `path`, and takes the
    /// result (see [`after_load`]): a tree that was read, or an error status.
    pub fn load_content(&mut self, path: &str, content: &str)
        ensures
            final(self)@ == after_load(old(self)@, path@, parse_tree(content@)),
    {
        let parsed = parse_focus_file(content);
        assert(parsed_view(parsed) == parse_tree(content@));
        self.load_parsed(path, parsed);
    }

    /// Reports that the file could not be read.
    pub fn report_file_error(&mut self, message: &str)
        ensures
            final(self)@ == (EditorView {
                status_message: "❌ File error: "@ + message@,
                ..old(self)@
            }),
    {
        let mut msg: Vec<char> = Vec::new();
        push_str(&mut msg, "❌ File error: ");
        push_str(&mut msg, message);
        self.status_message = string_of(&msg);
    }

    /// The text to write to the file: the tree in the focus-file format, when
    /// there are a tree and a file.
    pub fn save_output(&self) -> (r: Option<String>)
        ensures
            r is Some <==> (self.tree is Some && self.file_path is Some),
            r matches Some(s) ==> s@ == tree_text(self.tree->0@),
    {
        match (&self.tree, &self.file_path) {
            (Some(t), Some(_)) => Some(write_focus_tree(t)),
            _ => None,
        }
    }

    /// Takes note that the file was written (see [`after_saved`]).
    pub fn mark_saved(&mut self)
        ensures
            final(self)@ == after_saved(old(self)@),
    {
        match (self.tree.take(), &self.file_path) {
            (Some(t), Some(path)) => {
                let mut t = t;
                t.modified = false;
                let mut msg: Vec<char> = Vec::new();
                push_str(&mut msg, "✅ Saved: ");
                push_str(&mut msg, path.as_str());
                push_str(&mut msg, " (backup created)");
                self.status_message = string_of(&msg);
                self.original_tree = Some(t.duplicate());
                self.tree = Some(t);
            },
            (t, _) => {
                self.tree = t;
            },
        }
    }

    /// Reports that the file could not be written.
    pub fn report_save_error(&mut self, message: &str)
        ensures
            final(self)@ == (EditorView {
                status_message: "❌ Save error: "@ + message@,
                ..old(self)@
            }),
    {
        let mut msg: Vec<char> = Vec::new();
        push_str(&mut msg, "❌ Save error: ");
        push_str(&mut msg, message);
        self.status_message = string_of(&msg);
    }

    /// Validates the tree (see [`after_validation`]).
    pub fn run_validation(&mut self)
        ensures
            final(self)@ == after_validation(old(self)@),
    {
        match &self.tree {
            Some(t) => {
                let result = validate_tree(t);
                let mut msg: Vec<char> = Vec::new();
                push_str(&mut msg, "Validation: ");
                push_nat_text(&mut msg, result.errors.len() as u128);
                push_str(&mut msg, " errors, ");
                push_nat_text(&mut msg, result.warnings.len() as u128);
                push_str(&mut msg, " warnings");
                proof {
                    assert(result.errors@.len() == issue_views(result.errors@).len());
                    assert(result.warnings@.len() == issue_views(result.warnings@).len());
                }
                self.status_message = string_of(&msg);
                self.validation = Some(result);
                self.show_validation = true;
            },
            None => {},
        }
    }

    /// Opens the editor on a copy of the selected focus (see [`after_open_editor`]).
    pub fn open_editor(&mut self)
        ensures
            final(self)@ == after_open_editor(old(self)@),
    {
        match (&self.tree, self.selected_focus_idx) {
            (Some(t), Some(idx)) => {
                if idx < t.focuses.len() {
                    let copy = t.focuses[idx].duplicate();
                    self.editing_focus = Some(copy);
                    self.creating_new = false;
                    self.show_editor = true;
                }
            },
            _ => {},
        }
    }

    /// Starts a new focus (see [`after_create_new`]).
    pub fn create_new_focus(&mut self)
        ensures
            final(self)@ == after_create_new(old(self)@),
            history_bounded(old(self)@) ==> history_bounded(final(self)@),
    {
        let count = match &self.tree {
            Some(t) => t.focuses.len(),
            None => {
                return;
            },
        };
        let mut id: Vec<char> = Vec::new();
        push_str(&mut id, "VEN_new_focus_");
        push_nat_text(&mut id, count as u128 + 1);
        let mut filters: Vec<String> = Vec::new();
        filters.push(String::from_str("FOCUS_FILTER_POLITICAL"));
        self.save_undo();
        let node = FocusNode {
            id: string_of(&id),
            icon: Some(String::from_str("generic_industry")),
            x: 0,
            y: 0,
            relative_position_id: None,
            cost: Some(Cost::whole(5)),
            prerequisites: Vec::new(),
            mutually_exclusive: Vec::new(),
            bypass_if_unavailable: false,
            available_raw: None,
            completion_reward_raw: Some(
                String::from_str("{\n\t\t\tadd_political_power = 50\n\t\t}"),
            ),
            immediate_raw: None,
            ai_will_do_raw: Some(String::from_str("{\n\t\t\tbase = 10\n\t\t}")),
            search_filters: filters,
            bypass_raw: None,
        };
        assert(crate::model::texts(node.search_filters@) =~= seq!["FOCUS_FILTER_POLITICAL"@]);
        assert(crate::model::texts(node.prerequisites@) =~= Seq::<Seq<char>>::empty());
        assert(crate::model::texts(node.mutually_exclusive@) =~= Seq::<Seq<char>>::empty());
        assert(node@.id =~= new_focus_view(count as nat).id);
        assert(node@ =~= new_focus_view(count as nat));
        self.editing_focus = Some(node);
        self.creating_new = true;
        self.show_editor = true;
    }

    /// Saves the edited focus into the tree (see [`after_save_edited`]).
    pub fn save_edited_focus(&mut self)
        ensures
            final(self)@ == after_save_edited(old(self)@),
            history_bounded(old(self)@) ==> history_bounded(final(self)@),
    {
        let edited = self.editing_focus.take();
        let creating_new = self.creating_new;
        let idx = self.selected_focus_idx;
        match edited {
            Some(edited) => {
                let ghost e = edited@;
                let ghost cleared = self@;
                assert(cleared == (EditorView { editing_focus: None, ..old(self)@ }));
                self.save_undo();
                let mut msg: Vec<char> = Vec::new();
                if creating_new {
                    push_str(&mut msg, "✅ Created new focus: ");
                    push_str(&mut msg, edited.id.as_str());
                    match self.tree.take() {
                        Some(t) => {
                            let mut t = t;
                            t.focuses.push(edited);
                            t.modified = true;
                            assert(crate::model::node_views(t.focuses@) =~= old(self).tree->0@.focuses.push(e));
                            self.tree = Some(t);
                        },
                        None => {},
                    }
                    self.status_message = string_of(&msg);
                } else {
                    match idx {
                        Some(i) => {
                            match self.tree.take() {
                                Some(t) => {
                                    let mut t = t;
                                    push_str(&mut msg, "✅ Updated focus: ");
                                    push_str(&mut msg, edited.id.as_str());
                                    if i < t.focuses.len() {
                                        t.focuses.set(i, edited);
                                        t.modified = true;
                                        assert(crate::model::node_views(t.focuses@) =~= old(self).tree->0@.focuses.update(i as int, e));
                                    }
                                    self.tree = Some(t);
                                    self.status_message = string_of(&msg);
                                },
                                None => {},
                            }
                        },
                        None => {},
                    }
                }
                self.show_editor = false;
                self.creating_new = false;
            },
            None => {},
        }
    }

    /// Deletes the selected focus (see [`after_delete`]).
    pub fn delete_selected_focus(&mut self)
        ensures
            final(self)@ == after_delete(old(self)@),
            history_bounded(old(self)@) ==> history_bounded(final(self)@),
    {
        let idx = match (&self.tree, self.selected_focus_idx) {
            (Some(t), Some(i)) => {
                if i < t.focuses.len() {
                    i
                } else {
                    return;
                }
            },
            _ => {
                return;
            },
        };
        let mut msg: Vec<char> = Vec::new();
        push_str(&mut msg, "🗑️ Deleted focus: ");
        match &self.tree {
            Some(t) => {
                push_str(&mut msg, t.focuses[idx].id.as_str());
            },
            None => {},
        }
        self.save_undo();
        match self.tree.take() {
            Some(t) => {
                let mut t = t;
                t.focuses.remove(idx);
                t.modified = true;
                assert(crate::model::node_views(t.focuses@) =~= old(self).tree->0@.focuses.remove(idx as int));
                self.tree = Some(t);
            },
            None => {},
        }
        self.selected_focus_idx = None;
        self.status_message = string_of(&msg);
    }

    /// Appends a copy of the selected focus (see [`after_duplicate`]); its
    /// column must leave room for one more.
    pub fn duplicate_selected_focus(&mut self)
        requires
            selected_node(old(self)@) matches Some(n) ==> n.x < i32::MAX,
        ensures
            final(self)@ == after_duplicate(old(self)@),
            history_bounded(old(self)@) ==> history_bounded(final(self)@),
    {
        let copy = match (&self.tree, self.selected_focus_idx) {
            (Some(t), Some(i)) => {
                if i < t.focuses.len() {
                    let mut c = t.focuses[i].duplicate();
                    let mut id: Vec<char> = Vec::new();
                    push_str(&mut id, t.focuses[i].id.as_str());
                    push_str(&mut id, "_copy");
                    c.id = string_of(&id);
                    c.x = c.x + 1;
                    assert(c@ =~= copy_of(t.focuses@[i as int]@));
                    c
                } else {
                    return;
                }
            },
            _ => {
                return;
            },
        };
        let mut msg: Vec<char> = Vec::new();
        push_str(&mut msg, "📋 Duplicated: ");
        push_str(&mut msg, copy.id.as_str());
        self.save_undo();
        match self.tree.take() {
            Some(t) => {
                let mut t = t;
                let ghost c = copy@;
                t.focuses.push(copy);
                t.modified = true;
                assert(crate::model::node_views(t.focuses@) =~= old(self).tree->0@.focuses.push(c));
                self.tree = Some(t);
            },
            None => {},
        }
        self.status_message = string_of(&msg);
    }

    /// Whether the focus matches the search text and the category filter.
    fn focus_matches(&self, f: &FocusNode) -> (b: bool)
        ensures
            b == (matches_search(f@, self.search_filter@) && matches_category(
                f@,
                self.category_filter@,
            )),
    {
        let search = chars_of(self.search_filter.as_str());
        let matches_search = if search.len() == 0 {
            true
        } else {
            let needle = to_lowercase(self.search_filter.as_str());
            let id = chars_of(to_lowercase(f.id.as_str()).as_str());
            if contains_str(&id, needle.as_str()) {
                true
            } else {
                let name = chars_of(to_lowercase(f.display_name()).as_str());
                contains_str(&name, needle.as_str())
            }
        };
        let filter = chars_of(self.category_filter.as_str());
        let matches_category = if filter.len() == 0 {
            true
        } else if chars_eq_str(&filter, "All") {
            true
        } else {
            chars_eq_str(&filter, f.category())
        };
        matches_search && matches_category
    }

    /// The indices of the focuses that match the search text and the category
    /// filter, in order; none without a tree.
    pub fn filtered_focuses(&self) -> (r: Vec<usize>)
        ensures
            self.tree is None ==> r@.len() == 0,
            self.tree matches Some(t) ==> index_values(r@) == filtered_indices(
                t@.focuses,
                self.search_filter@,
                self.category_filter@,
            ),
    {
        let mut r: Vec<usize> = Vec::new();
        match &self.tree {
            Some(t) => {
                let ghost ns = t@.focuses;
                let mut i: usize = 0;
                assert(ns.take(0) =~= Seq::<NodeView>::empty());
                assert(index_values(r@) =~= Seq::<int>::empty());
                while i < t.focuses.len()
                    invariant
                        i <= t.focuses@.len(),
                        ns == t@.focuses,
                        index_values(r@) == filtered_indices(
                            ns.take(i as int),
                            self.search_filter@,
                            self.category_filter@,
                        ),
                    decreases t.focuses@.len() - i,
                {
                    let ghost before = r@;
                    assert(ns.take(i + 1).drop_last() == ns.take(i as int));
                    assert(ns.take(i + 1).last() == t.focuses@[i as int]@);
                    if self.focus_matches(&t.focuses[i]) {
                        r.push(i);
                        assert(index_values(r@) =~= index_values(before).push(i as int));
                    }
                    assert(index_values(r@) =~= filtered_indices(
                        ns.take(i + 1),
                        self.search_filter@,
                        self.category_filter@,
                    ));
                    i = i + 1;
                }
                assert(ns.take(t.focuses@.len() as int) == ns);
            },
            None => {},
        }
        r
    }

    /// How many focuses each category has (see [`counts_ranked`]); the order
    /// of categories with equal counts follows the order of [`category_at`].
    pub fn category_counts(&self) -> (r: Vec<(String, usize)>)
        ensures
            self.tree is None ==> r@.len() == 0,
            self.tree matches Some(t) ==> counts_ranked(t@.focuses, count_views(r@)),
    {
        let t = match &self.tree {
            Some(t) => t,
            None => {
                return Vec::new();
            },
        };
        let ghost ns = t@.focuses;
        proof {
            lemma_category_names_distinct();
        }
        let mut counts: Vec<usize> = vec![0, 0, 0, 0, 0, 0];
        let mut i: usize = 0;
        while i < t.focuses.len()
            invariant
                i <= t.focuses@.len(),
                ns == t@.focuses,
                counts@.len() == 6,
                forall|a: Category, b: Category| a != b ==> category_name(a) != category_name(b),
                forall|j: int|
                    0 <= j < 6 ==> #[trigger] counts@[j] == count_named(
                        ns.take(i as int),
                        category_name(category_at(j)),
                    ) && counts@[j] <= i,
            decreases t.focuses@.len() - i,
        {
            let c = t.focuses[i].category_kind();
            let k = index_of_category(c);
            let ghost before = counts@;
            assert(ns.take(i + 1).drop_last() == ns.take(i as int));
            assert(ns.take(i + 1).last() == t.focuses@[i as int]@);
            assert(node_category_name(ns[i as int]) == category_name(c));
            let v = counts[k] + 1;
            counts.set(k, v);
            assert forall|j: int| 0 <= j < 6 implies #[trigger] counts@[j] == count_named(
                ns.take(i + 1),
                category_name(category_at(j)),
            ) && counts@[j] <= i + 1 by {
                if j != k {
                    assert(category_at(j) != c);
                }
            }
            i = i + 1;
        }
        assert(ns.take(t.focuses@.len() as int) == ns);
        let mut r: Vec<(String, usize)> = Vec::new();
        let ghost mut cats: Seq<int> = Seq::empty();
        let mut j: usize = 0;
        while j < 6
            invariant
                j <= 6,
                counts@.len() == 6,
                forall|a: Category, b: Category| a != b ==> category_name(a) != category_name(b),
                forall|jj: int|
                    0 <= jj < 6 ==> #[trigger] counts@[jj] == count_named(
                        ns,
                        category_name(category_at(jj)),
                    ),
                cats.len() == r@.len(),
                forall|k: int|
                    0 <= k < cats.len() ==> 0 <= #[trigger] cats[k] < j && r@[k].0@ == category_name(
                        category_at(cats[k]),
                    ) && r@[k].1 == counts@[cats[k]] && r@[k].1 > 0,
                forall|k1: int, k2: int|
                    0 <= k1 < k2 < cats.len() ==> #[trigger] cats[k1] != #[trigger] cats[k2],
                forall|k1: int, k2: int|
                    0 <= k1 < k2 < r@.len() ==> #[trigger] r@[k1].1 >= #[trigger] r@[k2].1,
                forall|jj: int|
                    0 <= jj < j && counts@[jj] > 0 ==> exists|k: int|
                        0 <= k < cats.len() && #[trigger] cats[k] == jj,
            decreases 6 - j,
        {
            let n = counts[j];
            if n > 0 {
                let mut pos: usize = 0;
                while pos < r.len() && r[pos].1 >= n
                    invariant
                        pos <= r@.len(),
                        forall|k: int| 0 <= k < pos ==> #[trigger] r@[k].1 >= n,
                    decreases r@.len() - pos,
                {
                    pos = pos + 1;
                }
                assert(forall|k: int| pos <= k < r@.len() ==> #[trigger] r@[k].1 < n) by {
                    assert forall|k: int| pos <= k < r@.len() implies #[trigger] r@[k].1 < n by {
                        if pos < r@.len() {
                            assert(r@[pos as int].1 < n);
                            if k > pos {
                                assert(r@[pos as int].1 >= r@[k].1);
                            }
                        }
                    }
                }
                let c = category_at_index(j);
                let name = String::from_str(c.name());
                let ghost old_r = r@;
                let ghost old_cats = cats;
                r.insert(pos, (name, n));
                proof {
                    cats = cats.insert(pos as int, j as int);
                    assert forall|jj: int|
                        0 <= jj < j + 1 && counts@[jj] > 0 implies exists|k: int|
                        0 <= k < cats.len() && #[trigger] cats[k] == jj by {
                        if jj == j {
                            assert(cats[pos as int] == jj);
                        } else {
                            let k0 = choose|k: int| 0 <= k < old_cats.len() && #[trigger] old_cats[k] == jj;
                            if k0 < pos {
                                assert(cats[k0] == jj);
                            } else {
                                assert(cats[k0 + 1] == jj);
                            }
                        }
                    }
                }
            }
            j = j + 1;
        }
        proof {
            let rv = count_views(r@);
            assert forall|i: int| 0 <= i < rv.len() implies is_category_name(#[trigger] rv[i].0)
                && rv[i].1 == count_named(ns, rv[i].0) && rv[i].1 > 0 by {
                assert(category_name(category_at(cats[i])) == rv[i].0);
            }
            assert forall|i: int, k: int| 0 <= i < k < rv.len() implies #[trigger] rv[i].0
                != #[trigger] rv[k].0 && rv[i].1 >= rv[k].1 by {
                assert(cats[i] != cats[k]);
                assert(r@[i].1 >= r@[k].1);
            }
            assert forall|c: Category| count_named(ns, #[trigger] category_name(c)) > 0 implies exists|i: int|
                0 <= i < rv.len() && rv[i].0 == category_name(c) by {
                let jj = category_index(c);
                assert(category_at(jj) == c);
                assert(counts@[jj] > 0);
                let k = choose|k: int| 0 <= k < cats.len() && #[trigger] cats[k] == jj;
                assert(rv[k].0 == category_name(c));
            }
        }
        r
    }
}

} // verus!
