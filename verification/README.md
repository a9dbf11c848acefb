# FocusFlow

Reading, checking, editing and writing Hearts of Iron IV focus-tree files,
with the library's behaviour stated in contracts and proved with Verus.

## Layout

- `src/` — the verified library
  - `text.rs` — characters, lines, trimming, numbers
  - `cost.rs` — focus costs as exact decimals
  - `model.rs` — focus trees, focuses, shortcuts, validation results, the
    chain of focuses that places a focus on the canvas
  - `parser.rs` — reading a focus file
  - `writer.rs` — writing a focus file, and the differences between two trees
  - `validate.rs` — checking a tree
  - `editor.rs` — the editor's state: loading, saving, editing, undo and redo,
    searching, key commands
  - `roundtrip.rs`, `rawblock.rs`, `tokscan.rs`, `shortcutread.rs` — what
    reading gives back of what writing wrote
  - `braces.rs` — the braces of written text
- `app/` — the window (eframe/egui), file access and drawing
- `tests/` — tests of the library

## What is proved

Besides the contract of each function (reading a file never fails but with
an error: no `focus_tree`, no `{`, a block that is never closed, a malformed
focus block, or no focuses):

- a tree that can be written and read back (`roundtrip::tree_ok`) reads back
  with its id and its focuses, each raw block in its re-indented form
  (`rawblock::raw_reread`), and with its shortcuts when no raw block holds a
  `shortcut = {` line (`roundtrip::lemma_tree_roundtrip`);
- a raw block that is written reads back as its re-indented form, and a
  block already in that form reads back unchanged
  (`rawblock::lemma_written_block_reads`, `rawblock::lemma_written_block_gives_back`);
- written text holds as many `{` as `}` beyond those of the tree's own texts
  (`braces::lemma_tree_text_balance`, `braces::lemma_written_tree_balanced`);
- undo restores what an edit replaced, redo what undo replaced
  (`editor::lemma_undo_*`, `editor::lemma_redo_after_undo`);
- a tree without validation errors has distinct ids and existing references
  (`validate::lemma_valid_tree`);
- the difference of a tree with itself reports no change
  (`writer::lemma_diff_of_itself`);
- an id list shown in the editor reads back as itself
  (`editor::lemma_id_list_roundtrip`).
