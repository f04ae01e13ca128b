//! The editor buffer of the terminal editor: lines of text, a cursor, find /
//! replace / go-to-line modes, a bounded undo history with redo, and a line
//! clipboard. Each operation is stated as a transition of `EditorView`; the
//! terminal itself (raw mode, key reading, drawing, files) lives outside.

use vstd::prelude::*;
use crate::serializer::string_from_utf8;
use crate::roman::{first_nl, lemma_first_nl, lemma_first_nl_bounds};
use vstd::utf8::{valid_utf8, decode_utf8};
use crate::text::{push_char, push_str, decimal, decimal_spec, is_whitespace, is_whitespace_spec,
    occurs_at, occurs_chars, contains_spec, first_occ_from, find_chars, lemma_first_occ_from,
    is_ascii_digit, is_ascii_digit_spec, chars_to_string, str_chars, chars_eq, push_chars,
    char_is_alphabetic, char_is_alphanumeric, spec_is_alphabetic, spec_is_alphanumeric};

verus! {

/// Most snapshots kept for undo and redo together.
pub const UNDO_LIMIT: usize = 200;

/// A saved state for undo / redo: the lines and the cursor.
pub struct Snapshot {
    pub lines: Vec<Vec<char>>,
    pub row: usize,
    pub col: usize,
}

/// The terminal's raw-mode settings saved on entry (none are kept on this platform).
#[derive(Clone, Copy)]
pub struct Modes {}

/// The editor state.
pub struct TuiEditor {
    path: String,
    lines: Vec<Vec<char>>,
    row: usize,
    col: usize,
    scroll: usize,
    modified: bool,
    status: String,
    st_ok: bool,
    rows: u16,
    cols: u16,
    find_query: Vec<char>,
    find_mode: bool,
    repl_mode: u8,
    repl_query: Vec<char>,
    repl_with: Vec<char>,
    goto_mode: bool,
    goto_buf: Vec<char>,
    undo_stack: Vec<Snapshot>,
    redo_stack: Vec<Snapshot>,
    clipboard: Vec<Vec<char>>,
}

/// The mathematical value of a `Snapshot`.
#[verifier::ext_equal]
pub struct SnapView {
    pub lines: Seq<Seq<char>>,
    pub row: int,
    pub col: int,
}

/// The mathematical value of a `TuiEditor`.
#[verifier::ext_equal]
pub struct EditorView {
    pub path: Seq<char>,
    pub lines: Seq<Seq<char>>,
    pub row: int,
    pub col: int,
    pub scroll: int,
    pub modified: bool,
    pub status: Seq<char>,
    pub st_ok: bool,
    pub rows: int,
    pub cols: int,
    pub find_query: Seq<char>,
    pub find_mode: bool,
    pub repl_mode: int,
    pub repl_query: Seq<char>,
    pub repl_with: Seq<char>,
    pub goto_mode: bool,
    pub goto_buf: Seq<char>,
    pub undo: Seq<SnapView>,
    pub redo: Seq<SnapView>,
    pub clipboard: Seq<Seq<char>>,
}

/// The text held by a vector of lines.
pub open spec fn text_of(v: Seq<Vec<char>>) -> Seq<Seq<char>> {
    v.map_values(|l: Vec<char>| l@)
}

pub open spec fn snap_view(s: Snapshot) -> SnapView {
    SnapView { lines: text_of(s.lines@), row: s.row as int, col: s.col as int }
}

pub open spec fn snaps_of(v: Seq<Snapshot>) -> Seq<SnapView> {
    v.map_values(|s: Snapshot| snap_view(s))
}

impl View for TuiEditor {
    type V = EditorView;

    closed spec fn view(&self) -> EditorView {
        EditorView {
            path: self.path@,
            lines: text_of(self.lines@),
            row: self.row as int,
            col: self.col as int,
            scroll: self.scroll as int,
            modified: self.modified,
            status: self.status@,
            st_ok: self.st_ok,
            rows: self.rows as int,
            cols: self.cols as int,
            find_query: self.find_query@,
            find_mode: self.find_mode,
            repl_mode: self.repl_mode as int,
            repl_query: self.repl_query@,
            repl_with: self.repl_with@,
            goto_mode: self.goto_mode,
            goto_buf: self.goto_buf@,
            undo: snaps_of(self.undo_stack@),
            redo: snaps_of(self.redo_stack@),
            clipboard: text_of(self.clipboard@),
        }
    }
}

/// Well-formed editor states: at least one line, the cursor row on a line,
/// every saved snapshot non-empty, undo and redo together within the limit,
/// and the counters within their machine types.
pub open spec fn view_wf(v: EditorView) -> bool {
    &&& v.lines.len() >= 1
    &&& 0 <= v.row < v.lines.len()
    &&& 0 <= v.col
    &&& 0 <= v.scroll
    &&& 0 <= v.rows <= u16::MAX
    &&& 0 <= v.cols <= u16::MAX
    &&& 0 <= v.repl_mode <= 2
    &&& forall|i: int| 0 <= i < v.goto_buf.len() ==> is_ascii_digit_spec(#[trigger] v.goto_buf[i])
    &&& v.undo.len() + v.redo.len() <= UNDO_LIMIT
    &&& forall|i: int| 0 <= i < v.undo.len() ==> snap_wf(#[trigger] v.undo[i])
    &&& forall|i: int| 0 <= i < v.redo.len() ==> snap_wf(#[trigger] v.redo[i])
}

pub open spec fn snap_wf(s: SnapView) -> bool {
    s.lines.len() >= 1 && 0 <= s.row && 0 <= s.col
}

impl TuiEditor {
    pub closed spec fn wf(&self) -> bool {
        &&& view_wf(self@)
        &&& self.repl_mode <= 2
    }
}

/// Position of the cursor column `col` within `line`: past the end means the end.
pub open spec fn char_pos(line: Seq<char>, col: int) -> int {
    if col < line.len() {
        col
    } else {
        line.len() as int
    }
}

/// The current state saved for undo.
pub open spec fn snap_of(v: EditorView) -> SnapView {
    SnapView { lines: v.lines, row: v.row, col: v.col }
}

/// Saving for undo: the current state goes on top of the undo history (the
/// oldest entry is dropped past the limit) and the redo history is emptied.
pub open spec fn spec_save_undo(v: EditorView) -> EditorView {
    let pushed = v.undo.push(snap_of(v));
    EditorView {
        undo: if pushed.len() > UNDO_LIMIT {
            pushed.drop_first()
        } else {
            pushed
        },
        redo: Seq::empty(),
        ..v
    }
}

/// Typing a character: inserted at the cursor (at the end of the line when the
/// cursor lies past it); the cursor moves one right.
pub open spec fn spec_insert(v: EditorView, c: char) -> EditorView {
    let line = v.lines[v.row];
    EditorView {
        lines: v.lines.update(v.row, line.insert(char_pos(line, v.col), c)),
        col: v.col + 1,
        modified: true,
        ..v
    }
}

/// Rows available for text: the terminal height less the title, divider and
/// status rows (and one spare).
pub open spec fn edit_rows_spec(v: EditorView) -> int {
    if v.rows >= 4 {
        v.rows - 4
    } else {
        0
    }
}

/// Scrolling keeps the cursor row inside the visible window.
pub open spec fn spec_scroll_view(v: EditorView) -> EditorView {
    let er = edit_rows_spec(v);
    if v.row < v.scroll {
        EditorView { scroll: v.row, ..v }
    } else if v.row >= v.scroll + er {
        EditorView { scroll: v.row + 1 - er, ..v }
    } else {
        v
    }
}

/// The cursor column brought back within the current line.
pub open spec fn spec_clamp_col(v: EditorView) -> EditorView {
    let max = v.lines[v.row].len() as int;
    if v.col > max {
        EditorView { col: max, ..v }
    } else {
        v
    }
}

/// A copy of a line.
fn copy_line(l: &Vec<char>) -> (r: Vec<char>)
    ensures
        r@ == l@,
{
    let mut r: Vec<char> = Vec::new();
    let mut i: usize = 0;
    while i < l.len()
        invariant
            i <= l@.len(),
            r@ == l@.subrange(0, i as int),
        decreases l.len() - i,
    {
        r.push(l[i]);
        i = i + 1;
        assert(r@ =~= l@.subrange(0, i as int));
    }
    assert(r@ =~= l@);
    r
}

/// A copy of all the lines.
fn copy_text(v: &Vec<Vec<char>>) -> (r: Vec<Vec<char>>)
    ensures
        text_of(r@) == text_of(v@),
{
    let mut r: Vec<Vec<char>> = Vec::new();
    let mut i: usize = 0;
    while i < v.len()
        invariant
            i <= v@.len(),
            r@.len() == i,
            forall|k: int| 0 <= k < i ==> (#[trigger] r@[k])@ == v@[k]@,
        decreases v.len() - i,
    {
        let l = copy_line(&v[i]);
        r.push(l);
        i = i + 1;
    }
    assert(text_of(r@) =~= text_of(v@));
    r
}

impl TuiEditor {
    /// Rows available for text.
    pub fn edit_rows(&self) -> (n: usize)
        requires
            self.wf(),
        ensures
            n == edit_rows_spec(self@),
    {
        if self.rows >= 4 {
            (self.rows - 4) as usize
        } else {
            0
        }
    }

    /// Moves the window so that the cursor row is visible.
    pub fn scroll_view(&mut self)
        requires
            old(self).wf(),
        ensures
            final(self).wf(),
            final(self)@ == spec_scroll_view(old(self)@),
    {
        let er = self.edit_rows();
        let n = self.lines.len();
        assert(self.row < n);
        if self.row < self.scroll {
            self.scroll = self.row;
        } else if self.row - self.scroll >= er {
            self.scroll = self.row + 1 - er;
        }
        assert(self@ =~= spec_scroll_view(old(self)@));
    }

    /// Brings the cursor column back within the current line.
    pub fn clamp_col(&mut self)
        requires
            old(self).wf(),
        ensures
            final(self).wf(),
            final(self)@ == spec_clamp_col(old(self)@),
    {
        let max = self.lines[self.row].len();
        if self.col > max {
            self.col = max;
        }
        assert(self@ =~= spec_clamp_col(old(self)@));
    }

    /// Saves the current lines and cursor for undo and forgets the redo history.
    pub fn save_undo(&mut self)
        requires
            old(self).wf(),
        ensures
            final(self).wf(),
            final(self)@ == spec_save_undo(old(self)@),
    {
        let snap = Snapshot { lines: copy_text(&self.lines), row: self.row, col: self.col };
        let ghost pushed = self@.undo.push(snap_of(self@));
        self.undo_stack.push(snap);
        assert(snaps_of(self.undo_stack@) =~= pushed);
        if self.undo_stack.len() > UNDO_LIMIT {
            self.undo_stack.remove(0);
            assert(snaps_of(self.undo_stack@) =~= pushed.drop_first());
        }
        self.redo_stack.clear();
        assert(snaps_of(self.redo_stack@) =~= Seq::<SnapView>::empty());
        assert(self@ =~= spec_save_undo(old(self)@));
    }

    /// Inserts a character at the cursor.
    pub fn insert(&mut self, c: char)
        requires
            old(self).wf(),
            old(self)@.col < usize::MAX,
        ensures
            final(self).wf(),
            final(self)@ == spec_insert(old(self)@, c),
    {
        let row = self.row;
        let mut line = copy_line(&self.lines[row]);
        let k = if self.col < line.len() {
            self.col
        } else {
            line.len()
        };
        line.insert(k, c);
        self.lines.set(row, line);
        self.col = self.col + 1;
        self.modified = true;
        assert(text_of(self.lines@) =~= old(self)@.lines.update(
            row as int,
            old(self)@.lines[row as int].insert(k as int, c),
        ));
        assert(self@ =~= spec_insert(old(self)@, c));
    }
}


/// Number of leading spaces (` `) of `s`.
pub open spec fn leading_spaces(s: Seq<char>) -> int
    decreases s.len(),
{
    if s.len() > 0 && s[0] == ' ' {
        1 + leading_spaces(s.drop_first())
    } else {
        0
    }
}

/// Number of leading white-space characters of `s`.
pub open spec fn ws_prefix(s: Seq<char>) -> int
    decreases s.len(),
{
    if s.len() > 0 && is_whitespace_spec(s[0]) {
        1 + ws_prefix(s.drop_first())
    } else {
        0
    }
}

/// `s` without trailing white space.
pub open spec fn trim_end_spec(s: Seq<char>) -> Seq<char>
    decreases s.len(),
{
    if s.len() > 0 && is_whitespace_spec(s.last()) {
        trim_end_spec(s.drop_last())
    } else {
        s
    }
}

/// The last non-blank character of `s` is `:`, which opens a block.
pub open spec fn opens_block(s: Seq<char>) -> bool {
    let t = trim_end_spec(s);
    t.len() > 0 && t.last() == ':'
}

/// `n` spaces.
pub open spec fn spaces(n: int) -> Seq<char> {
    Seq::new(n as nat, |_i: int| ' ')
}

/// `pre`, the decimal digits of `n`, then `post`.
pub open spec fn counted(pre: Seq<char>, n: int, post: Seq<char>) -> Seq<char> {
    pre + decimal_spec(n as nat) + post
}

/// Backspace: deletes the character before the cursor, or at the start of a
/// line joins it to the previous line; at the very start nothing happens.
pub open spec fn spec_backspace(v: EditorView) -> EditorView {
    if v.col > 0 {
        let w = spec_save_undo(v);
        let line = v.lines[v.row];
        let bi = char_pos(line, v.col - 1);
        let ei = char_pos(line, v.col);
        EditorView {
            lines: v.lines.update(v.row, line.subrange(0, bi) + line.subrange(ei, line.len() as int)),
            col: v.col - 1,
            modified: true,
            ..w
        }
    } else if v.row > 0 {
        let w = spec_save_undo(v);
        let prev = v.lines[v.row - 1];
        EditorView {
            lines: v.lines.remove(v.row).update(v.row - 1, prev + v.lines[v.row]),
            row: v.row - 1,
            col: prev.len() as int,
            modified: true,
            ..w
        }
    } else {
        v
    }
}

/// Delete: removes the character under the cursor, or at the end of a line
/// joins the next line to it; at the very end nothing happens.
pub open spec fn spec_delete_fwd(v: EditorView) -> EditorView {
    let line = v.lines[v.row];
    if v.col < line.len() {
        let w = spec_save_undo(v);
        EditorView { lines: v.lines.update(v.row, line.remove(v.col)), modified: true, ..w }
    } else if v.row + 1 < v.lines.len() {
        let w = spec_save_undo(v);
        EditorView {
            lines: v.lines.remove(v.row + 1).update(v.row, line + v.lines[v.row + 1]),
            modified: true,
            ..w
        }
    } else {
        v
    }
}

/// Indentation of the line that follows `head`: its leading spaces, four more
/// after a line that opens a block.
pub open spec fn next_indent(head: Seq<char>) -> int {
    leading_spaces(head) + if opens_block(head) {
        4int
    } else {
        0int
    }
}

/// Enter: splits the line at the cursor; the new line is auto-indented and the
/// cursor goes after the indentation.
pub open spec fn spec_newline(v: EditorView) -> EditorView {
    let w = spec_save_undo(v);
    let line = v.lines[v.row];
    let k = char_pos(line, v.col);
    let head = line.subrange(0, k);
    let rest = line.subrange(k, line.len() as int);
    let ind = next_indent(head);
    EditorView {
        lines: v.lines.update(v.row, head).insert(v.row + 1, spaces(ind) + rest),
        row: v.row + 1,
        col: ind,
        modified: true,
        ..w
    }
}

/// Duplicates the current line below it and moves down to the copy.
pub open spec fn spec_duplicate_line(v: EditorView) -> EditorView {
    let w = spec_save_undo(v);
    EditorView {
        lines: v.lines.insert(v.row + 1, v.lines[v.row]),
        row: v.row + 1,
        modified: true,
        status: "Line duplicated (Ctrl+Z to undo)"@,
        st_ok: true,
        ..w
    }
}

/// Cuts the current line into the clipboard. The last remaining line is
/// emptied instead of removed.
pub open spec fn spec_delete_line(v: EditorView) -> EditorView {
    let w = spec_save_undo(v);
    let clip = seq![v.lines[v.row]];
    if v.lines.len() == 1 {
        EditorView {
            lines: seq![Seq::<char>::empty()],
            col: 0,
            clipboard: clip,
            modified: true,
            status: "Line cut → Ctrl+V to paste"@,
            st_ok: true,
            ..w
        }
    } else {
        let ls = v.lines.remove(v.row);
        let r = if v.row >= ls.len() {
            ls.len() - 1
        } else {
            v.row
        };
        let c = if v.col > ls[r].len() {
            ls[r].len() as int
        } else {
            v.col
        };
        EditorView {
            lines: ls,
            row: r,
            col: c,
            clipboard: clip,
            modified: true,
            status: "Line cut → Ctrl+V to paste"@,
            st_ok: true,
            ..w
        }
    }
}

/// Pastes the clipboard lines below the current line; the cursor goes to the
/// start of the last pasted line. Nothing happens with an empty clipboard.
pub open spec fn spec_paste(v: EditorView) -> EditorView {
    if v.clipboard.len() == 0 {
        v
    } else {
        let w = spec_save_undo(v);
        let at = v.row + 1;
        EditorView {
            lines: v.lines.subrange(0, at) + v.clipboard + v.lines.subrange(at, v.lines.len() as int),
            row: v.row + v.clipboard.len(),
            col: 0,
            modified: true,
            status: counted(""@, v.clipboard.len() as int, " line(s) pasted"@),
            st_ok: true,
            ..w
        }
    }
}

/// The current line with its comment marker toggled: a leading `# ` or `#`
/// (after indentation) is removed; otherwise `# ` is put after the leading spaces.
pub open spec fn toggled(line: Seq<char>) -> Seq<char> {
    let off = ws_prefix(line);
    let trimmed = line.subrange(off, line.len() as int);
    if trimmed.len() >= 2 && trimmed[0] == '#' && trimmed[1] == ' ' {
        line.subrange(0, off) + trimmed.subrange(2, trimmed.len() as int)
    } else if trimmed.len() >= 1 && trimmed[0] == '#' {
        line.subrange(0, off) + trimmed.subrange(1, trimmed.len() as int)
    } else {
        spaces(leading_spaces(line)) + seq!['#', ' '] + trimmed
    }
}

pub open spec fn spec_toggle_comment(v: EditorView) -> EditorView {
    let w = spec_save_undo(v);
    EditorView { lines: v.lines.update(v.row, toggled(v.lines[v.row])), modified: true, ..w }
}

/// Restoring a snapshot: its lines, the cursor row and column clamped to them.
pub open spec fn restore_row(s: SnapView) -> int {
    if s.row < s.lines.len() - 1 {
        s.row
    } else {
        s.lines.len() - 1
    }
}

pub open spec fn restore_col(s: SnapView) -> int {
    let len = s.lines[restore_row(s)].len() as int;
    if s.col < len {
        s.col
    } else {
        len
    }
}

/// Undo: the last saved state comes back, the current one goes to redo.
pub open spec fn spec_undo(v: EditorView) -> EditorView {
    if v.undo.len() > 0 {
        let s = v.undo.last();
        EditorView {
            undo: v.undo.drop_last(),
            redo: v.redo.push(snap_of(v)),
            lines: s.lines,
            row: restore_row(s),
            col: restore_col(s),
            modified: true,
            status: counted("Undo ("@, v.undo.len() - 1, " left)"@),
            st_ok: true,
            ..v
        }
    } else {
        EditorView { status: "Nothing to undo"@, st_ok: false, ..v }
    }
}

/// Redo: the last undone state comes back, the current one goes to undo.
pub open spec fn spec_redo(v: EditorView) -> EditorView {
    if v.redo.len() > 0 {
        let s = v.redo.last();
        EditorView {
            redo: v.redo.drop_last(),
            undo: v.undo.push(snap_of(v)),
            lines: s.lines,
            row: restore_row(s),
            col: restore_col(s),
            modified: true,
            status: counted("Redo ("@, v.redo.len() - 1, " left)"@),
            st_ok: true,
            ..v
        }
    } else {
        EditorView { status: "Nothing to redo"@, st_ok: false, ..v }
    }
}

/// Left-to-right, non-overlapping replacement of `q` by `w` in `s` from `i` on.
pub open spec fn replace_from(s: Seq<char>, i: int, q: Seq<char>, w: Seq<char>) -> Seq<char>
    decreases s.len() - i,
{
    if i < 0 || i >= s.len() || q.len() == 0 {
        if 0 <= i <= s.len() {
            s.subrange(i, s.len() as int)
        } else {
            Seq::empty()
        }
    } else if occurs_at(s, i, q) {
        w + replace_from(s, i + q.len(), q, w)
    } else {
        seq![s[i]] + replace_from(s, i + 1, q, w)
    }
}

/// Every occurrence of `q` in `s` replaced by `w` (std `str::replace`).
pub open spec fn replace_spec(s: Seq<char>, q: Seq<char>, w: Seq<char>) -> Seq<char> {
    replace_from(s, 0, q, w)
}

/// A line after replace-all: changed only where the query occurs.
pub open spec fn replaced_line(l: Seq<char>, q: Seq<char>, w: Seq<char>) -> Seq<char> {
    if contains_spec(l, q) {
        replace_spec(l, q, w)
    } else {
        l
    }
}

/// Number of lines that contain `q`.
pub open spec fn count_containing(ls: Seq<Seq<char>>, q: Seq<char>) -> int
    decreases ls.len(),
{
    if ls.len() == 0 {
        0
    } else {
        count_containing(ls.drop_last(), q) + if contains_spec(ls.last(), q) {
            1int
        } else {
            0int
        }
    }
}

/// Replace-all: every occurrence of the replace query, in every line, becomes
/// the replacement; the status reports how many lines changed.
pub open spec fn spec_replace_all(v: EditorView) -> EditorView {
    if v.repl_query.len() == 0 {
        v
    } else {
        let w = spec_save_undo(v);
        let q = v.repl_query;
        let count = count_containing(v.lines, q);
        EditorView {
            lines: v.lines.map_values(|l: Seq<char>| replaced_line(l, q, v.repl_with)),
            status: counted("Replaced in "@, count, " line(s)"@),
            st_ok: count > 0,
            repl_mode: 0,
            modified: if count > 0 {
                true
            } else {
                v.modified
            },
            ..w
        }
    }
}

/// The first line after `row` (wrapping around, `row` itself last) that
/// contains `q`, searching from offset `off`.
pub open spec fn find_row_from(ls: Seq<Seq<char>>, row: int, q: Seq<char>, off: int) -> Option<int>
    decreases ls.len() + 1 - off,
{
    if off < 1 || off > ls.len() {
        None
    } else {
        let r = (row + off) % (ls.len() as int);
        if contains_spec(ls[r], q) {
            Some(r)
        } else {
            find_row_from(ls, row, q, off + 1)
        }
    }
}

/// Find next: the cursor goes to the first occurrence in the next line that
/// has one (wrapping around to the current line last).
pub open spec fn spec_find_next(v: EditorView) -> EditorView {
    let q = v.find_query;
    if q.len() == 0 {
        v
    } else {
        match find_row_from(v.lines, v.row, q, 1) {
            Some(r) => {
                let moved = spec_scroll_view(
                    EditorView { row: r, col: first_occ_from(v.lines[r], q, 0), ..v },
                );
                EditorView {
                    status: "Found: \""@ + q + counted("\" (line "@, r + 1, ")"@),
                    st_ok: true,
                    ..moved
                }
            },
            None => EditorView { status: "\""@ + q + "\" not found"@, st_ok: false, ..v },
        }
    }
}

/// The editing commands that save the state for undo before they change it.
pub enum Edit {
    Backspace,
    DeleteFwd,
    Newline,
    Duplicate,
    DeleteLine,
    Paste,
    ToggleComment,
    ReplaceAll,
}

/// The state after an editing command.
pub open spec fn spec_edit(v: EditorView, e: Edit) -> EditorView {
    match e {
        Edit::Backspace => spec_backspace(v),
        Edit::DeleteFwd => spec_delete_fwd(v),
        Edit::Newline => spec_newline(v),
        Edit::Duplicate => spec_duplicate_line(v),
        Edit::DeleteLine => spec_delete_line(v),
        Edit::Paste => spec_paste(v),
        Edit::ToggleComment => spec_toggle_comment(v),
        Edit::ReplaceAll => spec_replace_all(v),
    }
}

/// The states in which a command does something (elsewhere it leaves the state as it is).
pub open spec fn edit_applies(v: EditorView, e: Edit) -> bool {
    match e {
        Edit::Backspace => v.col > 0 || v.row > 0,
        Edit::DeleteFwd => v.col < v.lines[v.row].len() || v.row + 1 < v.lines.len(),
        Edit::Paste => v.clipboard.len() > 0,
        Edit::ReplaceAll => v.repl_query.len() > 0,
        _ => true,
    }
}

proof fn lemma_edit_saves(v: EditorView, e: Edit)
    requires
        view_wf(v),
        edit_applies(v, e),
    ensures
        spec_edit(v, e).undo == spec_save_undo(v).undo,
        spec_edit(v, e).redo == Seq::<SnapView>::empty(),
{
}

/// An editing command that does not apply leaves the state unchanged.
pub proof fn law_edit_idle(v: EditorView, e: Edit)
    requires
        view_wf(v),
        !edit_applies(v, e),
    ensures
        spec_edit(v, e) == v,
{
}

proof fn lemma_leading_spaces_bounds(s: Seq<char>)
    ensures
        0 <= leading_spaces(s) <= s.len(),
    decreases s.len(),
{
    if s.len() > 0 && s[0] == ' ' {
        lemma_leading_spaces_bounds(s.drop_first());
    }
}

/// Every editing command keeps the editor well formed.
pub proof fn law_edit_keeps_wf(v: EditorView, e: Edit)
    requires
        view_wf(v),
    ensures
        view_wf(spec_edit(v, e)),
{
    let w = spec_save_undo(v);
    assert(view_wf(w)) by {
        let pushed = v.undo.push(snap_of(v));
        assert forall|j: int| 0 <= j < pushed.len() implies snap_wf(#[trigger] pushed[j]) by {
            if j < v.undo.len() {
                assert(pushed[j] == v.undo[j]);
            }
        }
        assert forall|i: int| 0 <= i < w.undo.len() implies snap_wf(#[trigger] w.undo[i]) by {
            if pushed.len() > UNDO_LIMIT {
                assert(w.undo[i] == pushed[i + 1]);
            } else {
                assert(w.undo[i] == pushed[i]);
            }
        }
    }
    match e {
        Edit::Newline => {
            let line = v.lines[v.row];
            lemma_leading_spaces_bounds(line.subrange(0, char_pos(line, v.col)));
        },
        Edit::ReplaceAll => {
            if v.repl_query.len() > 0 {
                assert(spec_edit(v, e).lines.len() == v.lines.len());
            }
        },
        Edit::Paste => {
            if v.clipboard.len() > 0 {
                assert(spec_edit(v, e).lines.len() == v.lines.len() + v.clipboard.len());
            }
        },
        _ => {},
    }
}

/// An edit empties the redo history.
pub proof fn law_edit_clears_redo(v: EditorView, e: Edit)
    requires
        view_wf(v),
        edit_applies(v, e),
    ensures
        spec_edit(v, e).redo.len() == 0,
{
    lemma_edit_saves(v, e);
}

/// Undo right after an editing command brings back the text of before the
/// command, the cursor row, and the cursor column (clamped to its line);
/// when the history was not full, the undo history is as before too.
pub proof fn law_undo_reverts_edit(v: EditorView, e: Edit)
    requires
        view_wf(v),
        edit_applies(v, e),
    ensures
        spec_undo(spec_edit(v, e)).lines == v.lines,
        spec_undo(spec_edit(v, e)).row == v.row,
        spec_undo(spec_edit(v, e)).col == char_pos(v.lines[v.row], v.col),
        v.undo.len() < UNDO_LIMIT ==> spec_undo(spec_edit(v, e)).undo == v.undo,
{
    lemma_edit_saves(v, e);
    let pushed = v.undo.push(snap_of(v));
    let after = spec_edit(v, e);
    assert(after.undo.last() == snap_of(v));
    if v.undo.len() < UNDO_LIMIT {
        assert(after.undo.drop_last() =~= v.undo);
    }
}

/// Redo right after undo brings back the text and cursor of before the undo.
pub proof fn law_redo_reverts_undo(v: EditorView)
    requires
        view_wf(v),
        v.undo.len() > 0,
    ensures
        spec_redo(spec_undo(v)).lines == v.lines,
        spec_redo(spec_undo(v)).row == v.row,
        spec_redo(spec_undo(v)).col == char_pos(v.lines[v.row], v.col),
        spec_redo(spec_undo(v)).redo == v.redo,
        spec_redo(spec_undo(v)).undo.len() == v.undo.len(),
{
    assert(spec_undo(v).redo.drop_last() =~= v.redo);
}

/// Undo right after redo brings back the text and cursor of before the redo.
pub proof fn law_undo_reverts_redo(v: EditorView)
    requires
        view_wf(v),
        v.redo.len() > 0,
    ensures
        spec_undo(spec_redo(v)).lines == v.lines,
        spec_undo(spec_redo(v)).row == v.row,
        spec_undo(spec_redo(v)).col == char_pos(v.lines[v.row], v.col),
        spec_undo(spec_redo(v)).undo == v.undo,
{
    assert(spec_redo(v).undo.drop_last() =~= v.undo);
}

/// A key press, decoded from the terminal's bytes.
#[derive(Clone, Copy)]
pub enum Key {
    Char(char),
    Up,
    Down,
    Left,
    Right,
    Home,
    End,
    PgUp,
    PgDn,
    Bs,
    Del,
    Enter,
    Tab,
    Esc,
    CtrlA,
    CtrlD,
    CtrlE,
    CtrlF,
    CtrlG,
    CtrlK,
    CtrlO,
    CtrlQ,
    CtrlR,
    CtrlS,
    CtrlV,
    CtrlY,
    CtrlZ,
    CtrlSlash,
    Other,
}

/// What the terminal loop does after a key.
#[derive(Clone, Copy, PartialEq, Eq, Structural, Debug)]
pub enum Action {
    /// Draw again and read the next key.
    Continue,
    /// Leave the editor.
    Quit,
    /// Unsaved changes: draw, then leave only if the next key is Ctrl+Q again.
    ConfirmQuit,
    /// Write the file.
    Save,
    /// Save and run the program.
    Run,
    /// Ask for a file to open.
    Open,
}

/// The value of a string of decimal digits.
pub open spec fn digits_value(s: Seq<char>) -> nat
    decreases s.len(),
{
    if s.len() == 0 {
        0
    } else {
        digits_value(s.drop_last()) * 10 + ((s.last() as nat) - ('0' as nat)) as nat
    }
}

/// A key in go-to-line mode: digits build the line number, Enter jumps.
pub open spec fn spec_goto_key(v: EditorView, k: Key) -> EditorView {
    match k {
        Key::Esc => EditorView {
            goto_mode: false,
            goto_buf: Seq::empty(),
            status: Seq::empty(),
            ..v
        },
        Key::Enter => {
            if v.goto_buf.len() > 0 && digits_value(v.goto_buf) <= usize::MAX {
                let n = digits_value(v.goto_buf) as int;
                let want = if n >= 1 {
                    n - 1
                } else {
                    0
                };
                let target = if want < v.lines.len() - 1 {
                    want
                } else {
                    v.lines.len() - 1
                };
                let m = spec_scroll_view(EditorView { row: target, col: 0, ..v });
                EditorView {
                    status: counted("Jumped to line "@, target + 1, ""@),
                    st_ok: true,
                    goto_mode: false,
                    goto_buf: Seq::empty(),
                    ..m
                }
            } else {
                EditorView { goto_mode: false, goto_buf: Seq::empty(), ..v }
            }
        },
        Key::Bs => EditorView {
            goto_buf: if v.goto_buf.len() > 0 {
                v.goto_buf.drop_last()
            } else {
                v.goto_buf
            },
            ..v
        },
        Key::Char(c) => if is_ascii_digit_spec(c) {
            EditorView { goto_buf: v.goto_buf.push(c), ..v }
        } else {
            v
        },
        _ => v,
    }
}

/// Removes the last character, if any.
pub open spec fn pop_spec(s: Seq<char>) -> Seq<char> {
    if s.len() > 0 {
        s.drop_last()
    } else {
        s
    }
}

/// A key in replace mode: first the text to find, then its replacement.
pub open spec fn spec_replace_key(v: EditorView, k: Key) -> EditorView {
    match k {
        Key::Esc => EditorView { repl_mode: 0, status: Seq::empty(), ..v },
        Key::Enter => if v.repl_mode == 1 {
            EditorView { repl_mode: 2, repl_with: Seq::empty(), ..v }
        } else {
            spec_replace_all(v)
        },
        Key::Bs => if v.repl_mode == 1 {
            EditorView { repl_query: pop_spec(v.repl_query), ..v }
        } else {
            EditorView { repl_with: pop_spec(v.repl_with), ..v }
        },
        Key::Char(c) => if v.repl_mode == 1 {
            EditorView { repl_query: v.repl_query.push(c), ..v }
        } else {
            EditorView { repl_with: v.repl_with.push(c), ..v }
        },
        _ => v,
    }
}

/// A key in find mode: typing edits the query, Enter finds the next match,
/// Tab switches to replace mode with the same query.
pub open spec fn spec_find_key(v: EditorView, k: Key) -> EditorView {
    match k {
        Key::Esc | Key::CtrlF => EditorView { find_mode: false, status: Seq::empty(), ..v },
        Key::Enter => spec_find_next(v),
        Key::Tab => EditorView { find_mode: false, repl_mode: 1, repl_query: v.find_query, ..v },
        Key::Bs => EditorView { find_query: pop_spec(v.find_query), ..v },
        Key::Char(c) => EditorView { find_query: v.find_query.push(c), ..v },
        _ => v,
    }
}

/// Four spaces typed as one undoable step.
pub open spec fn spec_tab(v: EditorView) -> EditorView {
    spec_insert(spec_insert(spec_insert(spec_insert(spec_save_undo(v), ' '), ' '), ' '), ' ')
}

/// Cursor movement keys.
pub open spec fn is_move_key(k: Key) -> bool {
    k is CtrlA || k is CtrlE || k is Up || k is Down || k is Left || k is Right || k is Home
        || k is End || k is PgUp || k is PgDn
}

/// A cursor movement key.
pub open spec fn spec_move_key(v: EditorView, k: Key) -> EditorView {
    let n = v.lines.len() as int;
    let len = v.lines[v.row].len() as int;
    let er = edit_rows_spec(v);
    match k {
        Key::CtrlA => EditorView { row: 0, col: 0, ..v },
        Key::CtrlE => EditorView { row: n - 1, col: v.lines[n - 1].len() as int, ..v },
        Key::Up => if v.row > 0 {
            spec_clamp_col(EditorView { row: v.row - 1, ..v })
        } else {
            v
        },
        Key::Down => if v.row + 1 < n {
            spec_clamp_col(EditorView { row: v.row + 1, ..v })
        } else {
            v
        },
        Key::Left => if v.col > 0 {
            EditorView { col: v.col - 1, ..v }
        } else if v.row > 0 {
            EditorView { row: v.row - 1, col: v.lines[v.row - 1].len() as int, ..v }
        } else {
            v
        },
        Key::Right => if v.col < len {
            EditorView { col: v.col + 1, ..v }
        } else if v.row + 1 < n {
            EditorView { row: v.row + 1, col: 0, ..v }
        } else {
            v
        },
        Key::Home => EditorView { col: 0, ..v },
        Key::End => EditorView { col: len, ..v },
        Key::PgUp => spec_clamp_col(EditorView {
            row: if v.row >= er {
                v.row - er
            } else {
                0
            },
            ..v
        }),
        Key::PgDn => spec_clamp_col(EditorView {
            row: if v.row + er < n - 1 {
                v.row + er
            } else {
                n - 1
            },
            ..v
        }),
        _ => v,
    }
}

/// A normal-mode key that edits or switches mode.
pub open spec fn spec_edit_key(v: EditorView, k: Key) -> EditorView {
    match k {
        Key::CtrlF => EditorView { find_mode: true, find_query: Seq::empty(), ..v },
        Key::CtrlG => EditorView { goto_mode: true, goto_buf: Seq::empty(), ..v },
        Key::CtrlZ => spec_undo(v),
        Key::CtrlY => spec_redo(v),
        Key::CtrlD => spec_duplicate_line(v),
        Key::CtrlK => spec_delete_line(v),
        Key::CtrlV => spec_paste(v),
        Key::CtrlSlash => spec_toggle_comment(v),
        Key::Enter => spec_newline(v),
        Key::Bs => spec_backspace(v),
        Key::Del => spec_delete_fwd(v),
        Key::Tab => spec_tab(v),
        Key::Char(c) => spec_insert(v, c),
        _ => v,
    }
}

/// A key in normal mode: commands, cursor movement and typing.
pub open spec fn spec_normal_key(v: EditorView, k: Key) -> (EditorView, Action) {
    match k {
        Key::CtrlQ => if !v.modified {
            (v, Action::Quit)
        } else {
            (
                spec_scroll_view(
                    EditorView {
                        status: "Unsaved changes! Ctrl+Q again = quit without saving"@,
                        st_ok: false,
                        ..v
                    },
                ),
                Action::ConfirmQuit,
            )
        },
        Key::CtrlS => (v, Action::Save),
        Key::CtrlR => (v, Action::Run),
        Key::CtrlO => (v, Action::Open),
        _ => if is_move_key(k) {
            (spec_move_key(v, k), Action::Continue)
        } else {
            (spec_edit_key(v, k), Action::Continue)
        },
    }
}

/// One key press: handled by the active mode (go-to-line, replace, find), or
/// else as a normal-mode command.
pub open spec fn spec_handle_key(v: EditorView, k: Key) -> (EditorView, Action) {
    if v.goto_mode {
        (spec_goto_key(v, k), Action::Continue)
    } else if v.repl_mode > 0 {
        (spec_replace_key(v, k), Action::Continue)
    } else if v.find_mode {
        (spec_find_key(v, k), Action::Continue)
    } else {
        spec_normal_key(v, k)
    }
}

/// The key for a single byte read from the terminal. `None` for ESC (an
/// escape sequence may follow) and for bytes that start a printable character.
pub open spec fn key_of_byte(b: u8) -> Option<Key> {
    if b == 0x01 {
        Some(Key::CtrlA)
    } else if b == 0x03 || b == 0x11 {
        Some(Key::CtrlQ)
    } else if b == 0x04 {
        Some(Key::CtrlD)
    } else if b == 0x05 {
        Some(Key::CtrlE)
    } else if b == 0x06 {
        Some(Key::CtrlF)
    } else if b == 0x07 {
        Some(Key::CtrlG)
    } else if b == 0x08 || b == 0x7f {
        Some(Key::Bs)
    } else if b == 0x0b {
        Some(Key::CtrlK)
    } else if b == 0x0d || b == 0x0a {
        Some(Key::Enter)
    } else if b == 0x09 {
        Some(Key::Tab)
    } else if b == 0x0f {
        Some(Key::CtrlO)
    } else if b == 0x12 {
        Some(Key::CtrlR)
    } else if b == 0x13 {
        Some(Key::CtrlS)
    } else if b == 0x16 {
        Some(Key::CtrlV)
    } else if b == 0x19 {
        Some(Key::CtrlY)
    } else if b == 0x1a {
        Some(Key::CtrlZ)
    } else if b == 0x1b {
        None
    } else if b == 0x1f {
        Some(Key::CtrlSlash)
    } else if b >= 0x20 {
        None
    } else {
        Some(Key::Other)
    }
}

/// Decodes a single terminal byte (see `key_of_byte`).
pub fn key_from_byte(b: u8) -> (k: Option<Key>)
    ensures
        k == key_of_byte(b),
{
    if b == 0x01 {
        Some(Key::CtrlA)
    } else if b == 0x03 || b == 0x11 {
        Some(Key::CtrlQ)
    } else if b == 0x04 {
        Some(Key::CtrlD)
    } else if b == 0x05 {
        Some(Key::CtrlE)
    } else if b == 0x06 {
        Some(Key::CtrlF)
    } else if b == 0x07 {
        Some(Key::CtrlG)
    } else if b == 0x08 || b == 0x7f {
        Some(Key::Bs)
    } else if b == 0x0b {
        Some(Key::CtrlK)
    } else if b == 0x0d || b == 0x0a {
        Some(Key::Enter)
    } else if b == 0x09 {
        Some(Key::Tab)
    } else if b == 0x0f {
        Some(Key::CtrlO)
    } else if b == 0x12 {
        Some(Key::CtrlR)
    } else if b == 0x13 {
        Some(Key::CtrlS)
    } else if b == 0x16 {
        Some(Key::CtrlV)
    } else if b == 0x19 {
        Some(Key::CtrlY)
    } else if b == 0x1a {
        Some(Key::CtrlZ)
    } else if b == 0x1b {
        None
    } else if b == 0x1f {
        Some(Key::CtrlSlash)
    } else if b >= 0x20 {
        None
    } else {
        Some(Key::Other)
    }
}

/// The key for the final byte of an `ESC [` sequence.
pub open spec fn key_of_escape(b: u8) -> Key {
    if b == 0x41 {
        Key::Up
    } else if b == 0x42 {
        Key::Down
    } else if b == 0x43 {
        Key::Right
    } else if b == 0x44 {
        Key::Left
    } else if b == 0x48 {
        Key::Home
    } else if b == 0x46 {
        Key::End
    } else if b == 0x33 {
        Key::Del
    } else if b == 0x35 {
        Key::PgUp
    } else if b == 0x36 {
        Key::PgDn
    } else {
        Key::Other
    }
}

/// Decodes the final byte of an `ESC [` sequence (`3`, `5`, `6` are followed
/// by one more byte, which the reader skips).
pub fn key_from_escape(b: u8) -> (k: Key)
    ensures
        k == key_of_escape(b),
{
    if b == 0x41 {
        Key::Up
    } else if b == 0x42 {
        Key::Down
    } else if b == 0x43 {
        Key::Right
    } else if b == 0x44 {
        Key::Left
    } else if b == 0x48 {
        Key::Home
    } else if b == 0x46 {
        Key::End
    } else if b == 0x33 {
        Key::Del
    } else if b == 0x35 {
        Key::PgUp
    } else if b == 0x36 {
        Key::PgDn
    } else {
        Key::Other
    }
}

/// Number of continuation bytes that follow a leading UTF-8 byte.
pub open spec fn utf8_extra(first: u8) -> int {
    if first < 0x80 {
        0
    } else if first >= 0xf0 {
        3
    } else if first >= 0xe0 {
        2
    } else {
        1
    }
}

pub fn utf8_extra_bytes(first: u8) -> (n: usize)
    ensures
        n == utf8_extra(first),
{
    if first < 0x80 {
        0
    } else if first >= 0xf0 {
        3
    } else if first >= 0xe0 {
        2
    } else {
        1
    }
}

/// The key typed as the UTF-8 bytes `bytes`: their first character, or
/// `Other` when they are not UTF-8 (or empty).
pub fn key_from_utf8(bytes: Vec<u8>) -> (k: Key)
    ensures
        k == (if valid_utf8(bytes@) && decode_utf8(bytes@).len() > 0 {
            Key::Char(decode_utf8(bytes@)[0])
        } else {
            Key::Other
        }),
{
    match string_from_utf8(bytes) {
        Some(s) => {
            if s.as_str().unicode_len() > 0 {
                Key::Char(s.as_str().get_char(0))
            } else {
                Key::Other
            }
        },
        None => Key::Other,
    }
}

/// Appends `src[from..to]` to `dst`.
fn push_range(dst: &mut Vec<char>, src: &Vec<char>, from: usize, to: usize)
    requires
        from <= to <= src@.len(),
    ensures
        final(dst)@ == old(dst)@ + src@.subrange(from as int, to as int),
{
    let ghost start = dst@;
    let mut i = from;
    while i < to
        invariant
            from <= i <= to <= src@.len(),
            dst@ == start + src@.subrange(from as int, i as int),
        decreases to - i,
    {
        dst.push(src[i]);
        i = i + 1;
        assert(dst@ =~= start + src@.subrange(from as int, i as int));
    }
}

/// `pre`, the decimal digits of `n`, then `post`, as a `String`.
fn counted_msg(pre: &str, n: usize, post: &str) -> (s: String)
    ensures
        s@ == counted(pre@, n as int, post@),
{
    let mut s = String::new();
    push_str(&mut s, pre);
    let d = decimal(n as u64);
    let mut i: usize = 0;
    while i < d.len()
        invariant
            i <= d@.len(),
            s@ == pre@ + d@.subrange(0, i as int),
        decreases d.len() - i,
    {
        push_char(&mut s, d[i]);
        i = i + 1;
        assert(s@ =~= pre@ + d@.subrange(0, i as int));
    }
    assert(d@.subrange(0, i as int) =~= d@);
    push_str(&mut s, post);
    s
}

proof fn lemma_leading_spaces(s: Seq<char>, k: int)
    requires
        0 <= k <= s.len(),
        forall|j: int| 0 <= j < k ==> s[j] == ' ',
        k == s.len() || s[k] != ' ',
    ensures
        leading_spaces(s) == k,
    decreases k,
{
    if k > 0 {
        assert forall|j: int| 0 <= j < k - 1 implies s.drop_first()[j] == ' ' by {
            assert(s.drop_first()[j] == s[j + 1]);
        }
        lemma_leading_spaces(s.drop_first(), k - 1);
    }
}

proof fn lemma_ws_prefix(s: Seq<char>, k: int)
    requires
        0 <= k <= s.len(),
        forall|j: int| 0 <= j < k ==> is_whitespace_spec(s[j]),
        k == s.len() || !is_whitespace_spec(s[k]),
    ensures
        ws_prefix(s) == k,
    decreases k,
{
    if k > 0 {
        assert forall|j: int| 0 <= j < k - 1 implies is_whitespace_spec(s.drop_first()[j]) by {
            assert(s.drop_first()[j] == s[j + 1]);
        }
        lemma_ws_prefix(s.drop_first(), k - 1);
    }
}

proof fn lemma_trim_end(s: Seq<char>, k: int)
    requires
        0 <= k <= s.len(),
        forall|j: int| k <= j < s.len() ==> is_whitespace_spec(s[j]),
        k == 0 || !is_whitespace_spec(s[k - 1]),
    ensures
        trim_end_spec(s) == s.subrange(0, k),
    decreases s.len(),
{
    if s.len() > k {
        lemma_trim_end(s.drop_last(), k);
        assert(s.drop_last().subrange(0, k) =~= s.subrange(0, k));
    } else {
        assert(s.subrange(0, k) =~= s);
    }
}

/// Number of leading spaces.
fn count_leading_spaces(s: &Vec<char>) -> (n: usize)
    ensures
        n == leading_spaces(s@),
        n <= s@.len(),
{
    let mut i: usize = 0;
    while i < s.len() && s[i] == ' '
        invariant
            i <= s@.len(),
            forall|j: int| 0 <= j < i ==> s@[j] == ' ',
        decreases s.len() - i,
    {
        i = i + 1;
    }
    proof {
        lemma_leading_spaces(s@, i as int);
    }
    i
}

/// Number of leading white-space characters.
fn count_ws_prefix(s: &Vec<char>) -> (n: usize)
    ensures
        n == ws_prefix(s@),
        n <= s@.len(),
{
    let mut i: usize = 0;
    while i < s.len() && is_whitespace(s[i])
        invariant
            i <= s@.len(),
            forall|j: int| 0 <= j < i ==> is_whitespace_spec(s@[j]),
        decreases s.len() - i,
    {
        i = i + 1;
    }
    proof {
        lemma_ws_prefix(s@, i as int);
    }
    i
}

/// Whether the last non-blank character is `:`.
fn line_opens_block(s: &Vec<char>) -> (b: bool)
    ensures
        b == opens_block(s@),
{
    let mut k = s.len();
    while k > 0 && is_whitespace(s[k - 1])
        invariant
            k <= s@.len(),
            forall|j: int| k <= j < s@.len() ==> is_whitespace_spec(s@[j]),
        decreases k,
    {
        k = k - 1;
    }
    proof {
        lemma_trim_end(s@, k as int);
    }
    k > 0 && s[k - 1] == ':'
}

/// `n` spaces followed by `rest[from..]`.
fn indented(n: usize, rest: &Vec<char>, from: usize) -> (r: Vec<char>)
    requires
        from <= rest@.len(),
    ensures
        r@ == spaces(n as int) + rest@.subrange(from as int, rest@.len() as int),
{
    let mut r: Vec<char> = Vec::new();
    let mut j: usize = 0;
    while j < n
        invariant
            j <= n,
            r@ == spaces(j as int),
        decreases n - j,
    {
        r.push(' ');
        j = j + 1;
        assert(r@ =~= spaces(j as int));
    }
    push_range(&mut r, rest, from, rest.len());
    r
}

/// Appends copies of `src[from..to]` to `dst`.
fn push_lines(dst: &mut Vec<Vec<char>>, src: &Vec<Vec<char>>, from: usize, to: usize)
    requires
        from <= to <= src@.len(),
    ensures
        text_of(final(dst)@) == text_of(old(dst)@) + text_of(src@).subrange(from as int, to as int),
{
    let ghost start = text_of(dst@);
    let mut i = from;
    while i < to
        invariant
            from <= i <= to <= src@.len(),
            text_of(dst@) == start + text_of(src@).subrange(from as int, i as int),
        decreases to - i,
    {
        let l = copy_line(&src[i]);
        let ghost prev = text_of(dst@);
        dst.push(l);
        assert(text_of(dst@) =~= prev.push(l@));
        i = i + 1;
        assert(text_of(dst@) =~= start + text_of(src@).subrange(from as int, i as int));
    }
}

impl TuiEditor {
    /// Backspace (see `spec_backspace`).
    pub fn backspace(&mut self)
        requires
            old(self).wf(),
        ensures
            final(self).wf(),
            final(self)@ == spec_backspace(old(self)@),
    {
        if self.col > 0 {
            self.save_undo();
            let row = self.row;
            let line = copy_line(&self.lines[row]);
            let len = line.len();
            let bi = if self.col - 1 < len {
                self.col - 1
            } else {
                len
            };
            let ei = if self.col < len {
                self.col
            } else {
                len
            };
            let mut nl: Vec<char> = Vec::new();
            push_range(&mut nl, &line, 0, bi);
            push_range(&mut nl, &line, ei, len);
            self.lines.set(row, nl);
            self.col = self.col - 1;
            self.modified = true;
            assert(nl@ =~= line@.subrange(0, bi as int) + line@.subrange(ei as int, len as int));
            assert(text_of(self.lines@) =~= old(self)@.lines.update(row as int, nl@));
            assert(self@ =~= spec_backspace(old(self)@));
        } else if self.row > 0 {
            self.save_undo();
            let row = self.row;
            let cur = self.lines.remove(row);
            let mut prev = copy_line(&self.lines[row - 1]);
            let plen = prev.len();
            let clen = cur.len();
            push_range(&mut prev, &cur, 0, clen);
            assert(cur@.subrange(0, clen as int) =~= cur@);
            self.lines.set(row - 1, prev);
            self.row = row - 1;
            self.col = plen;
            self.modified = true;
            assert(text_of(self.lines@) =~= old(self)@.lines.remove(row as int).update(
                row - 1,
                old(self)@.lines[row - 1] + old(self)@.lines[row as int],
            ));
            assert(self@ =~= spec_backspace(old(self)@));
        }
    }

    /// Delete (see `spec_delete_fwd`).
    pub fn delete_fwd(&mut self)
        requires
            old(self).wf(),
        ensures
            final(self).wf(),
            final(self)@ == spec_delete_fwd(old(self)@),
    {
        let row = self.row;
        let len = self.lines[row].len();
        let total = self.lines.len();
        if self.col < len {
            self.save_undo();
            let mut line = copy_line(&self.lines[row]);
            assert(line@ == old(self)@.lines[row as int]);
            line.remove(self.col);
            self.lines.set(row, line);
            self.modified = true;
            assert(text_of(self.lines@) =~= old(self)@.lines.update(
                row as int,
                old(self)@.lines[row as int].remove(old(self)@.col),
            ));
            assert(self@ =~= spec_delete_fwd(old(self)@));
        } else if row + 1 < total {
            self.save_undo();
            let next = self.lines.remove(row + 1);
            let mut line = copy_line(&self.lines[row]);
            let nlen = next.len();
            push_range(&mut line, &next, 0, nlen);
            assert(next@.subrange(0, nlen as int) =~= next@);
            self.lines.set(row, line);
            self.modified = true;
            assert(text_of(self.lines@) =~= old(self)@.lines.remove(row + 1).update(
                row as int,
                old(self)@.lines[row as int] + old(self)@.lines[row + 1],
            ));
            assert(self@ =~= spec_delete_fwd(old(self)@));
        }
    }

    /// Enter (see `spec_newline`).
    pub fn newline(&mut self)
        requires
            old(self).wf(),
            old(self)@.lines[old(self)@.row].len() + 4 <= usize::MAX,
        ensures
            final(self).wf(),
            final(self)@ == spec_newline(old(self)@),
    {
        self.save_undo();
        let row = self.row;
        let line = copy_line(&self.lines[row]);
        let len = line.len();
        let k = if self.col < len {
            self.col
        } else {
            len
        };
        let mut head: Vec<char> = Vec::new();
        push_range(&mut head, &line, 0, k);
        let lead = count_leading_spaces(&head);
        let ind = if line_opens_block(&head) {
            lead + 4
        } else {
            lead
        };
        let nl = indented(ind, &line, k);
        let total = self.lines.len();
        assert(row < total);
        self.lines.set(row, head);
        self.lines.insert(row + 1, nl);
        self.row = row + 1;
        self.col = ind;
        self.modified = true;
        assert(text_of(self.lines@) =~= old(self)@.lines.update(row as int, head@).insert(
            row + 1,
            nl@,
        ));
        assert(self@ =~= spec_newline(old(self)@));
    }

    /// Duplicates the current line (see `spec_duplicate_line`).
    pub fn duplicate_line(&mut self)
        requires
            old(self).wf(),
        ensures
            final(self).wf(),
            final(self)@ == spec_duplicate_line(old(self)@),
    {
        self.save_undo();
        let row = self.row;
        let line = copy_line(&self.lines[row]);
        let total = self.lines.len();
        assert(row < total);
        self.lines.insert(row + 1, line);
        self.row = row + 1;
        self.modified = true;
        self.status = "Line duplicated (Ctrl+Z to undo)".to_owned();
        self.st_ok = true;
        assert(text_of(self.lines@) =~= old(self)@.lines.insert(
            row + 1,
            old(self)@.lines[row as int],
        ));
        assert(self@ =~= spec_duplicate_line(old(self)@));
    }

    /// Cuts the current line (see `spec_delete_line`).
    pub fn delete_line(&mut self)
        requires
            old(self).wf(),
        ensures
            final(self).wf(),
            final(self)@ == spec_delete_line(old(self)@),
    {
        self.save_undo();
        let row = self.row;
        let mut clip: Vec<Vec<char>> = Vec::new();
        clip.push(copy_line(&self.lines[row]));
        self.clipboard = clip;
        if self.lines.len() == 1 {
            self.lines.set(0, Vec::new());
            self.col = 0;
        } else {
            self.lines.remove(row);
            if self.row >= self.lines.len() {
                self.row = self.lines.len() - 1;
            }
            let max = self.lines[self.row].len();
            if self.col > max {
                self.col = max;
            }
        }
        self.modified = true;
        self.status = "Line cut → Ctrl+V to paste".to_owned();
        self.st_ok = true;
        assert(text_of(self.clipboard@) =~= seq![old(self)@.lines[row as int]]);
        proof {
            if old(self)@.lines.len() == 1 {
                assert(text_of(self.lines@) =~= seq![Seq::<char>::empty()]);
            } else {
                assert(text_of(self.lines@) =~= old(self)@.lines.remove(row as int));
            }
        }
        assert(self@ =~= spec_delete_line(old(self)@));
    }

    /// Pastes the clipboard (see `spec_paste`).
    pub fn paste_clipboard(&mut self)
        requires
            old(self).wf(),
        ensures
            final(self).wf(),
            final(self)@ == spec_paste(old(self)@),
    {
        if self.clipboard.len() == 0 {
            return;
        }
        self.save_undo();
        let row = self.row;
        let n = self.clipboard.len();
        let total = self.lines.len();
        let mut out: Vec<Vec<char>> = Vec::new();
        push_lines(&mut out, &self.lines, 0, row + 1);
        push_lines(&mut out, &self.clipboard, 0, n);
        push_lines(&mut out, &self.lines, row + 1, total);
        assert(text_of(self.clipboard@).subrange(0, n as int) =~= text_of(self.clipboard@));
        assert(text_of(out@) =~= old(self)@.lines.subrange(0, row + 1) + old(self)@.clipboard
            + old(self)@.lines.subrange(row + 1, total as int));
        self.lines = out;
        let newlen = self.lines.len();
        assert(text_of(self.lines@).len() == self.lines@.len());
        assert(text_of(self.lines@).len() == total + n);
        assert(row + n < newlen);
        self.row = row + n;
        self.col = 0;
        self.modified = true;
        self.status = counted_msg("", n, " line(s) pasted");
        self.st_ok = true;
        assert(self@ =~= spec_paste(old(self)@));
    }

    /// Toggles the comment marker of the current line (see `toggled`).
    pub fn toggle_comment(&mut self)
        requires
            old(self).wf(),
        ensures
            final(self).wf(),
            final(self)@ == spec_toggle_comment(old(self)@),
    {
        self.save_undo();
        let row = self.row;
        let line = copy_line(&self.lines[row]);
        let len = line.len();
        let off = count_ws_prefix(&line);
        let mut nl: Vec<char> = Vec::new();
        let ghost trimmed = line@.subrange(off as int, len as int);
        if len - off >= 2 && line[off] == '#' && line[off + 1] == ' ' {
            push_range(&mut nl, &line, 0, off);
            push_range(&mut nl, &line, off + 2, len);
            assert(nl@ =~= line@.subrange(0, off as int) + trimmed.subrange(2, trimmed.len() as int));
        } else if len - off >= 1 && line[off] == '#' {
            push_range(&mut nl, &line, 0, off);
            push_range(&mut nl, &line, off + 1, len);
            assert(nl@ =~= line@.subrange(0, off as int) + trimmed.subrange(1, trimmed.len() as int));
        } else {
            let sp = count_leading_spaces(&line);
            nl = indented(sp, &line, len);
            nl.push('#');
            nl.push(' ');
            push_range(&mut nl, &line, off, len);
            assert(nl@ =~= spaces(sp as int) + seq!['#', ' '] + trimmed);
        }
        assert(nl@ == toggled(line@));
        self.lines.set(row, nl);
        self.modified = true;
        assert(text_of(self.lines@) =~= old(self)@.lines.update(row as int, nl@));
        assert(self@ =~= spec_toggle_comment(old(self)@));
    }

    /// Undo (see `spec_undo`).
    pub fn undo(&mut self)
        requires
            old(self).wf(),
        ensures
            final(self).wf(),
            final(self)@ == spec_undo(old(self)@),
    {
        let ghost v = self@;
        match self.undo_stack.pop() {
            Some(s) => {
                assert(snaps_of(self.undo_stack@) =~= v.undo.drop_last());
                assert(snap_view(s) == v.undo.last());
                assert(snap_wf(v.undo[v.undo.len() - 1]));
                let cur = Snapshot { lines: copy_text(&self.lines), row: self.row, col: self.col };
                self.redo_stack.push(cur);
                assert(snaps_of(self.redo_stack@) =~= v.redo.push(snap_of(v)));
                self.lines = s.lines;
                let n = self.lines.len();
                self.row = if s.row < n - 1 {
                    s.row
                } else {
                    n - 1
                };
                let len = self.lines[self.row].len();
                self.col = if s.col < len {
                    s.col
                } else {
                    len
                };
                self.modified = true;
                self.status = counted_msg("Undo (", self.undo_stack.len(), " left)");
                self.st_ok = true;
                assert forall|i: int| 0 <= i < self@.redo.len() implies snap_wf(
                    #[trigger] self@.redo[i],
                ) by {
                    if i < v.redo.len() {
                        assert(self@.redo[i] == v.redo[i]);
                    }
                }
                assert forall|i: int| 0 <= i < self@.undo.len() implies snap_wf(
                    #[trigger] self@.undo[i],
                ) by {
                    assert(self@.undo[i] == v.undo[i]);
                }
                assert(self@ =~= spec_undo(v));
            },
            None => {
                self.status = "Nothing to undo".to_owned();
                self.st_ok = false;
                assert(self@ =~= spec_undo(v));
            },
        }
    }

    /// Redo (see `spec_redo`).
    pub fn redo(&mut self)
        requires
            old(self).wf(),
        ensures
            final(self).wf(),
            final(self)@ == spec_redo(old(self)@),
    {
        let ghost v = self@;
        match self.redo_stack.pop() {
            Some(s) => {
                assert(snaps_of(self.redo_stack@) =~= v.redo.drop_last());
                assert(snap_view(s) == v.redo.last());
                assert(snap_wf(v.redo[v.redo.len() - 1]));
                let cur = Snapshot { lines: copy_text(&self.lines), row: self.row, col: self.col };
                self.undo_stack.push(cur);
                assert(snaps_of(self.undo_stack@) =~= v.undo.push(snap_of(v)));
                self.lines = s.lines;
                let n = self.lines.len();
                self.row = if s.row < n - 1 {
                    s.row
                } else {
                    n - 1
                };
                let len = self.lines[self.row].len();
                self.col = if s.col < len {
                    s.col
                } else {
                    len
                };
                self.modified = true;
                self.status = counted_msg("Redo (", self.redo_stack.len(), " left)");
                self.st_ok = true;
                assert forall|i: int| 0 <= i < self@.undo.len() implies snap_wf(
                    #[trigger] self@.undo[i],
                ) by {
                    if i < v.undo.len() {
                        assert(self@.undo[i] == v.undo[i]);
                    }
                }
                assert forall|i: int| 0 <= i < self@.redo.len() implies snap_wf(
                    #[trigger] self@.redo[i],
                ) by {
                    assert(self@.redo[i] == v.redo[i]);
                }
                assert(self@ =~= spec_redo(v));
            },
            None => {
                self.status = "Nothing to redo".to_owned();
                self.st_ok = false;
                assert(self@ =~= spec_redo(v));
            },
        }
    }
}

/// `s` with every occurrence of `q` replaced by `w` (`q` non-empty).
fn replace_chars(s: &Vec<char>, q: &Vec<char>, w: &Vec<char>) -> (r: Vec<char>)
    requires
        q@.len() > 0,
    ensures
        r@ == replace_spec(s@, q@, w@),
{
    let mut r: Vec<char> = Vec::new();
    let mut i: usize = 0;
    let n = s.len();
    let m = q.len();
    while i < n
        invariant
            i <= n,
            n == s@.len(),
            m == q@.len(),
            m > 0,
            r@ + replace_from(s@, i as int, q@, w@) == replace_spec(s@, q@, w@),
        decreases n - i,
    {
        let ghost before = r@;
        if occurs_chars(s, i, q) {
            push_range(&mut r, w, 0, w.len());
            assert(w@.subrange(0, w@.len() as int) =~= w@);
            i = i + m;
        } else {
            r.push(s[i]);
            i = i + 1;
        }
        assert(r@ + replace_from(s@, i as int, q@, w@) =~= replace_spec(s@, q@, w@));
    }
    assert(replace_from(s@, i as int, q@, w@) =~= Seq::<char>::empty());
    assert(r@ =~= replace_spec(s@, q@, w@));
    r
}

impl TuiEditor {
    /// Replace-all (see `spec_replace_all`).
    pub fn replace_all(&mut self)
        requires
            old(self).wf(),
        ensures
            final(self).wf(),
            final(self)@ == spec_replace_all(old(self)@),
    {
        if self.repl_query.len() == 0 {
            return;
        }
        self.save_undo();
        let ghost v = old(self)@;
        let n = self.lines.len();
        let mut out: Vec<Vec<char>> = Vec::new();
        let mut count: usize = 0;
        let mut i: usize = 0;
        while i < n
            invariant
                i <= n,
                n == self.lines@.len(),
                v.lines == text_of(self.lines@),
                v.repl_query == self.repl_query@,
                v.repl_with == self.repl_with@,
                self.repl_query@.len() > 0,
                count <= i,
                count == count_containing(v.lines.subrange(0, i as int), v.repl_query),
                text_of(out@) == v.lines.subrange(0, i as int).map_values(
                    |l: Seq<char>| replaced_line(l, v.repl_query, v.repl_with),
                ),
            decreases n - i,
        {
            let ghost prev = text_of(out@);
            let ghost li = v.lines[i as int];
            assert(self.lines@[i as int]@ == li);
            match find_chars(&self.lines[i], &self.repl_query) {
                Some(_) => {
                    let nl = replace_chars(&self.lines[i], &self.repl_query, &self.repl_with);
                    assert(nl@ == replaced_line(li, v.repl_query, v.repl_with));
                    out.push(nl);
                    count = count + 1;
                },
                None => {
                    let nl = copy_line(&self.lines[i]);
                    assert(nl@ == replaced_line(li, v.repl_query, v.repl_with));
                    out.push(nl);
                },
            }
            assert(text_of(out@) =~= prev.push(replaced_line(li, v.repl_query, v.repl_with)));
            assert(v.lines.subrange(0, i + 1).drop_last() =~= v.lines.subrange(0, i as int));
            i = i + 1;
            assert(text_of(out@) =~= v.lines.subrange(0, i as int).map_values(
                |l: Seq<char>| replaced_line(l, v.repl_query, v.repl_with),
            ));
        }
        assert(v.lines.subrange(0, n as int) =~= v.lines);
        self.lines = out;
        assert(text_of(self.lines@) =~= v.lines.map_values(
            |l: Seq<char>| replaced_line(l, v.repl_query, v.repl_with),
        ));
        self.status = counted_msg("Replaced in ", count, " line(s)");
        self.st_ok = count > 0;
        self.repl_mode = 0;
        if count > 0 {
            self.modified = true;
        }
        assert(self@ =~= spec_replace_all(v));
    }

    /// Find next (see `spec_find_next`).
    pub fn find_next(&mut self)
        requires
            old(self).wf(),
        ensures
            final(self).wf(),
            final(self)@ == spec_find_next(old(self)@),
    {
        if self.find_query.len() == 0 {
            return;
        }
        let ghost v = old(self)@;
        let n = self.lines.len();
        let mut k: usize = 0;
        while k < n
            invariant
                k <= n,
                n == self.lines@.len(),
                n >= 1,
                self.row < n,
                v == self@,
                v == old(self)@,
                self.wf(),
                self.find_query@.len() > 0,
                find_row_from(v.lines, v.row, v.find_query, 1) == find_row_from(
                    v.lines,
                    v.row,
                    v.find_query,
                    k + 1,
                ),
            decreases n - k,
        {
            let off = k + 1;
            let r = ((self.row as u128 + off as u128) % (n as u128)) as usize;
            assert(r as int == (v.row + off) % (n as int));
            let lr = self.lines[r].len();
            match find_chars(&self.lines[r], &self.find_query) {
                Some(pos) => {
                    assert(self.lines@[r as int]@ == v.lines[r as int]);
                    assert(contains_spec(v.lines[r as int], v.find_query));
                    assert(find_row_from(v.lines, v.row, v.find_query, off as int) == Some(r as int));
                    proof {
                        lemma_first_occ_from(v.lines[r as int], v.find_query, 0);
                    }
                    assert(pos == first_occ_from(v.lines[r as int], v.find_query, 0));
                    self.row = r;
                    self.col = pos;
                    assert(self@ =~= EditorView { row: r as int, col: first_occ_from(v.lines[r as int], v.find_query, 0), ..v });
                    self.scroll_view();
                    let mut st = String::new();
                    push_str(&mut st, "Found: \"");
                    let q = chars_to_string(self.find_query.as_slice());
                    push_str(&mut st, q.as_str());
                    let tail = counted_msg("\" (line ", r + 1, ")");
                    push_str(&mut st, tail.as_str());
                    assert(st@ =~= "Found: \""@ + v.find_query + counted("\" (line "@, r + 1, ")"@));
                    self.status = st;
                    self.st_ok = true;
                    assert(self@ =~= spec_find_next(v));
                    return;
                },
                None => {},
            }
            k = k + 1;
        }
        let mut st = String::new();
        push_str(&mut st, "\"");
        let q = chars_to_string(self.find_query.as_slice());
        push_str(&mut st, q.as_str());
        push_str(&mut st, "\" not found");
        assert(find_row_from(v.lines, v.row, v.find_query, n + 1) == None::<int>);
        assert(st@ =~= "\""@ + v.find_query + "\" not found"@);
        self.status = st;
        self.st_ok = false;
        assert(self@ =~= spec_find_next(v));
    }
}

/// The value of a non-empty string of decimal digits, or `None` past `usize::MAX`.
pub(crate) fn parse_digits(s: &Vec<char>) -> (r: Option<usize>)
    requires
        s@.len() > 0,
        forall|i: int| 0 <= i < s@.len() ==> is_ascii_digit_spec(#[trigger] s@[i]),
    ensures
        r == (if digits_value(s@) <= usize::MAX {
            Some(digits_value(s@) as usize)
        } else {
            None::<usize>
        }),
{
    let mut v: u128 = 0;
    let mut i: usize = 0;
    while i < s.len()
        invariant
            i <= s@.len(),
            v == digits_value(s@.subrange(0, i as int)),
            v <= usize::MAX,
            forall|j: int| 0 <= j < s@.len() ==> is_ascii_digit_spec(#[trigger] s@[j]),
        decreases s.len() - i,
    {
        let d = s[i];
        assert(is_ascii_digit_spec(s@[i as int]));
        let dv = (d as u32 - '0' as u32) as u128;
        assert(s@.subrange(0, i + 1).drop_last() =~= s@.subrange(0, i as int));
        v = v * 10 + dv;
        i = i + 1;
        if v > usize::MAX as u128 {
            proof {
                lemma_digits_value_grows(s@, i as int);
            }
            return None;
        }
    }
    assert(s@.subrange(0, i as int) =~= s@);
    Some(v as usize)
}

proof fn lemma_digits_value_grows(s: Seq<char>, i: int)
    requires
        0 <= i <= s.len(),
        forall|j: int| 0 <= j < s.len() ==> is_ascii_digit_spec(#[trigger] s[j]),
    ensures
        digits_value(s.subrange(0, i)) <= digits_value(s),
    decreases s.len() - i,
{
    if i < s.len() {
        lemma_digits_value_grows(s, i + 1);
        assert(s.subrange(0, i + 1).drop_last() =~= s.subrange(0, i));
    } else {
        assert(s.subrange(0, i) =~= s);
    }
}

/// Removes the last character, if any.
fn pop_char(v: &mut Vec<char>)
    ensures
        final(v)@ == pop_spec(old(v)@),
{
    if v.len() > 0 {
        v.pop();
    }
}

impl TuiEditor {
    /// Handles one key press (see `spec_handle_key`) and says what the terminal
    /// loop does next.
    pub fn handle_key(&mut self, k: Key) -> (a: Action)
        requires
            old(self).wf(),
            old(self)@.col + 4 <= usize::MAX,
            old(self)@.lines[old(self)@.row].len() + 4 <= usize::MAX,
        ensures
            final(self).wf(),
            (final(self)@, a) == spec_handle_key(old(self)@, k),
    {
        let ghost v = self@;
        if self.goto_mode {
            self.goto_key(k);
            return Action::Continue;
        }
        if self.repl_mode > 0 {
            self.replace_key(k);
            return Action::Continue;
        }
        if self.find_mode {
            self.find_key(k);
            return Action::Continue;
        }
        self.normal_key(k)
    }

    fn goto_key(&mut self, k: Key)
        requires
            old(self).wf(),
        ensures
            final(self).wf(),
            final(self)@ == spec_goto_key(old(self)@, k),
    {
        let ghost v = self@;
        match k {
            Key::Esc => {
                self.goto_mode = false;
                self.goto_buf = Vec::new();
                self.status = String::new();
            },
            Key::Enter => {
                if self.goto_buf.len() > 0 {
                    assert(self@.goto_buf =~= self.goto_buf@);
                    match parse_digits(&self.goto_buf) {
                        Some(n) => {
                            let last = self.lines.len() - 1;
                            let want = if n >= 1 {
                                n - 1
                            } else {
                                0
                            };
                            let target = if want < last {
                                want
                            } else {
                                last
                            };
                            self.set_cursor(target, 0);
                            self.scroll_view();
                            self.status = counted_msg("Jumped to line ", target + 1, "");
                            self.st_ok = true;
                        },
                        None => {},
                    }
                }
                self.goto_mode = false;
                self.goto_buf = Vec::new();
            },
            Key::Bs => {
                pop_char(&mut self.goto_buf);
            },
            Key::Char(c) => {
                if is_ascii_digit(c) {
                    self.goto_buf.push(c);
                }
            },
            _ => {},
        }
        assert(self@ =~= spec_goto_key(v, k));
    }

    fn replace_key(&mut self, k: Key)
        requires
            old(self).wf(),
            old(self)@.repl_mode > 0,
        ensures
            final(self).wf(),
            final(self)@ == spec_replace_key(old(self)@, k),
    {
        let ghost v = self@;
        match k {
            Key::Esc => {
                self.repl_mode = 0;
                self.status = String::new();
            },
            Key::Enter => {
                if self.repl_mode == 1 {
                    self.repl_mode = 2;
                    self.repl_with = Vec::new();
                } else {
                    self.replace_all();
                }
            },
            Key::Bs => {
                if self.repl_mode == 1 {
                    pop_char(&mut self.repl_query);
                } else {
                    pop_char(&mut self.repl_with);
                }
            },
            Key::Char(c) => {
                if self.repl_mode == 1 {
                    self.repl_query.push(c);
                } else {
                    self.repl_with.push(c);
                }
            },
            _ => {},
        }
        assert(self@ =~= spec_replace_key(v, k));
    }

    fn find_key(&mut self, k: Key)
        requires
            old(self).wf(),
        ensures
            final(self).wf(),
            final(self)@ == spec_find_key(old(self)@, k),
    {
        let ghost v = self@;
        match k {
            Key::Esc | Key::CtrlF => {
                self.find_mode = false;
                self.status = String::new();
            },
            Key::Enter => {
                self.find_next();
            },
            Key::Tab => {
                self.find_mode = false;
                self.repl_mode = 1;
                self.repl_query = copy_line(&self.find_query);
            },
            Key::Bs => {
                pop_char(&mut self.find_query);
            },
            Key::Char(c) => {
                self.find_query.push(c);
            },
            _ => {},
        }
        assert(self@ =~= spec_find_key(v, k));
    }

    fn normal_key(&mut self, k: Key) -> (a: Action)
        requires
            old(self).wf(),
            old(self)@.col + 4 <= usize::MAX,
            old(self)@.lines[old(self)@.row].len() + 4 <= usize::MAX,
        ensures
            final(self).wf(),
            (final(self)@, a) == spec_normal_key(old(self)@, k),
    {
        let ghost v = self@;
        match k {
            Key::CtrlQ => {
                if !self.modified {
                    return Action::Quit;
                }
                self.status = "Unsaved changes! Ctrl+Q again = quit without saving".to_owned();
                self.st_ok = false;
                assert(self@ =~= (EditorView {
                    status: "Unsaved changes! Ctrl+Q again = quit without saving"@,
                    st_ok: false,
                    ..v
                }));
                self.scroll_view();
                Action::ConfirmQuit
            },
            Key::CtrlS => Action::Save,
            Key::CtrlR => Action::Run,
            Key::CtrlO => Action::Open,
            Key::CtrlA | Key::CtrlE | Key::Up | Key::Down | Key::Left | Key::Right | Key::Home
            | Key::End | Key::PgUp | Key::PgDn => {
                self.move_key(k);
                Action::Continue
            },
            _ => {
                self.edit_key(k);
                Action::Continue
            },
        }
    }

    /// Sets the cursor to a position on a line.
    fn set_cursor(&mut self, r: usize, c: usize)
        requires
            old(self).wf(),
            r < old(self)@.lines.len(),
        ensures
            final(self).wf(),
            final(self)@ == (EditorView { row: r as int, col: c as int, ..old(self)@ }),
    {
        self.row = r;
        self.col = c;
        assert(self@ =~= (EditorView { row: r as int, col: c as int, ..old(self)@ }));
    }

    fn move_key(&mut self, k: Key)
        requires
            old(self).wf(),
            is_move_key(k),
        ensures
            final(self).wf(),
            final(self)@ == spec_move_key(old(self)@, k),
    {
        let n = self.lines.len();
        let row = self.row;
        let col = self.col;
        let len = self.lines[row].len();
        let er = self.edit_rows();
        match k {
            Key::CtrlA => self.set_cursor(0, 0),
            Key::CtrlE => {
                let l = self.lines[n - 1].len();
                self.set_cursor(n - 1, l);
            },
            Key::Up => {
                if row > 0 {
                    self.set_cursor(row - 1, col);
                    self.clamp_col();
                }
            },
            Key::Down => {
                if row + 1 < n {
                    self.set_cursor(row + 1, col);
                    self.clamp_col();
                }
            },
            Key::Left => {
                if col > 0 {
                    self.set_cursor(row, col - 1);
                } else if row > 0 {
                    let l = self.lines[row - 1].len();
                    self.set_cursor(row - 1, l);
                }
            },
            Key::Right => {
                if col < len {
                    self.set_cursor(row, col + 1);
                } else if row + 1 < n {
                    self.set_cursor(row + 1, 0);
                }
            },
            Key::Home => self.set_cursor(row, 0),
            Key::End => self.set_cursor(row, len),
            Key::PgUp => {
                let r = if row >= er {
                    row - er
                } else {
                    0
                };
                self.set_cursor(r, col);
                self.clamp_col();
            },
            Key::PgDn => {
                let r = if er < n - 1 && row < n - 1 - er {
                    row + er
                } else {
                    n - 1
                };
                self.set_cursor(r, col);
                self.clamp_col();
            },
            _ => {},
        }
    }

    fn edit_key(&mut self, k: Key)
        requires
            old(self).wf(),
            old(self)@.col + 4 <= usize::MAX,
            old(self)@.lines[old(self)@.row].len() + 4 <= usize::MAX,
            !is_move_key(k),
        ensures
            final(self).wf(),
            final(self)@ == spec_edit_key(old(self)@, k),
    {
        let ghost v = self@;
        match k {
            Key::CtrlF => {
                self.find_mode = true;
                self.find_query = Vec::new();
                assert(self@ =~= spec_edit_key(v, k));
            },
            Key::CtrlG => {
                self.goto_mode = true;
                self.goto_buf = Vec::new();
                assert(self@ =~= spec_edit_key(v, k));
            },
            Key::CtrlZ => self.undo(),
            Key::CtrlY => self.redo(),
            Key::CtrlD => self.duplicate_line(),
            Key::CtrlK => self.delete_line(),
            Key::CtrlV => self.paste_clipboard(),
            Key::CtrlSlash => self.toggle_comment(),
            Key::Enter => self.newline(),
            Key::Bs => self.backspace(),
            Key::Del => self.delete_fwd(),
            Key::Tab => {
                self.save_undo();
                self.insert(' ');
                self.insert(' ');
                self.insert(' ');
                self.insert(' ');
            },
            Key::Char(c) => self.insert(c),
            _ => {},
        }
    }

    /// After Ctrl+Q with unsaved changes: a second Ctrl+Q quits (`true`); any
    /// other key clears the warning.
    pub fn confirm_quit(&mut self, k: Key) -> (quit: bool)
        requires
            old(self).wf(),
        ensures
            final(self).wf(),
            quit == (k is CtrlQ),
            quit ==> final(self)@ == old(self)@,
            !quit ==> final(self)@ == (EditorView { status: Seq::empty(), st_ok: true, ..old(self)@ }),
    {
        match k {
            Key::CtrlQ => true,
            _ => {
                self.status = String::new();
                self.st_ok = true;
                assert(self@ =~= (EditorView { status: Seq::empty(), st_ok: true, ..old(self)@ }));
                false
            },
        }
    }
}

/// A line of a file: without a final carriage return.
pub open spec fn strip_cr(l: Seq<char>) -> Seq<char> {
    if l.len() > 0 && l.last() == '\r' {
        l.drop_last()
    } else {
        l
    }
}

/// The lines of a text (std `str::lines`): split at `\n`, a final `\r` removed
/// from each, and no empty line after a final `\n`.
pub open spec fn text_lines(s: Seq<char>) -> Seq<Seq<char>>
    decreases s.len(),
{
    if s.len() == 0 {
        Seq::empty()
    } else {
        let k = first_nl(s);
        proof {
            lemma_first_nl_bounds(s);
        }
        if k >= s.len() {
            seq![strip_cr(s)]
        } else {
            seq![strip_cr(s.subrange(0, k))] + text_lines(s.subrange(k + 1, s.len() as int))
        }
    }
}

/// The buffer's lines for a file's text: its lines, or one empty line.
pub open spec fn buffer_lines(s: Seq<char>) -> Seq<Seq<char>> {
    if text_lines(s).len() == 0 {
        seq![Seq::<char>::empty()]
    } else {
        text_lines(s)
    }
}

/// The lines joined by `\n` (what is written to the file).
pub open spec fn join_lines(ls: Seq<Seq<char>>) -> Seq<char>
    decreases ls.len(),
{
    if ls.len() == 0 {
        Seq::empty()
    } else if ls.len() == 1 {
        ls[0]
    } else {
        join_lines(ls.drop_last()) + seq!['\n'] + ls.last()
    }
}

/// The lines of `chars[from..]`, appended to `out`.
fn split_lines(chars: &Vec<char>) -> (out: Vec<Vec<char>>)
    ensures
        text_of(out@) == text_lines(chars@),
{
    let n = chars.len();
    let mut out: Vec<Vec<char>> = Vec::new();
    let mut start: usize = 0;
    assert(chars@.subrange(0, n as int) =~= chars@);
    while start < n
        invariant
            start <= n,
            n == chars@.len(),
            text_of(out@) + text_lines(chars@.subrange(start as int, n as int)) == text_lines(
                chars@,
            ),
        decreases n - start,
    {
        let ghost rest = chars@.subrange(start as int, n as int);
        let mut line: Vec<char> = Vec::new();
        let mut k = start;
        while k < n && chars[k] != '\n'
            invariant
                start <= k <= n,
                n == chars@.len(),
                line@ == chars@.subrange(start as int, k as int),
                forall|j: int| start <= j < k ==> chars@[j] != '\n',
            decreases n - k,
        {
            line.push(chars[k]);
            k = k + 1;
            assert(line@ =~= chars@.subrange(start as int, k as int));
        }
        proof {
            lemma_first_nl(rest, k - start);
            assert(rest.subrange(0, k - start) =~= line@);
        }
        let ll = line.len();
        if ll > 0 && line[ll - 1] == '\r' {
            line.pop();
        }
        let ghost prev = text_of(out@);
        out.push(line);
        assert(text_of(out@) =~= prev.push(line@));
        if k == n {
            assert(rest =~= chars@.subrange(start as int, k as int));
            assert(text_lines(chars@.subrange(n as int, n as int)) =~= Seq::<Seq<char>>::empty());
            assert(text_of(out@) + text_lines(chars@.subrange(n as int, n as int)) =~= text_lines(
                chars@,
            ));
            start = n;
        } else {
            assert(rest.subrange(k - start + 1, rest.len() as int) =~= chars@.subrange(
                k + 1,
                n as int,
            ));
            start = k + 1;
            assert(text_of(out@) + text_lines(chars@.subrange(start as int, n as int)) =~= text_lines(
                chars@,
            ));
        }
    }
    assert(text_lines(chars@.subrange(n as int, n as int)) =~= Seq::<Seq<char>>::empty());
    assert(text_of(out@) =~= text_lines(chars@));
    out
}

/// The buffer lines for a file's text.
fn buffer_of(text: &str) -> (out: Vec<Vec<char>>)
    ensures
        text_of(out@) == buffer_lines(text@),
        out@.len() >= 1,
{
    let chars = str_chars(text);
    let mut out = split_lines(&chars);
    if out.len() == 0 {
        out.push(Vec::new());
        assert(text_of(out@) =~= seq![Seq::<char>::empty()]);
    }
    out
}

impl TuiEditor {
    /// A new editor on the file `path` whose text is `text`, for a terminal of
    /// `rows` × `cols`.
    pub fn from_text(path: &str, text: &str, rows: u16, cols: u16) -> (e: TuiEditor)
        ensures
            e.wf(),
            e@ == (EditorView {
                path: path@,
                lines: buffer_lines(text@),
                row: 0,
                col: 0,
                scroll: 0,
                modified: false,
                status: Seq::empty(),
                st_ok: true,
                rows: rows as int,
                cols: cols as int,
                find_query: Seq::empty(),
                find_mode: false,
                repl_mode: 0,
                repl_query: Seq::empty(),
                repl_with: Seq::empty(),
                goto_mode: false,
                goto_buf: Seq::empty(),
                undo: Seq::empty(),
                redo: Seq::empty(),
                clipboard: Seq::empty(),
            }),
    {
        let lines = buffer_of(text);
        let e = TuiEditor {
            path: path.to_owned(),
            lines,
            row: 0,
            col: 0,
            scroll: 0,
            modified: false,
            status: String::new(),
            st_ok: true,
            rows,
            cols,
            find_query: Vec::new(),
            find_mode: false,
            repl_mode: 0,
            repl_query: Vec::new(),
            repl_with: Vec::new(),
            goto_mode: false,
            goto_buf: Vec::new(),
            undo_stack: Vec::new(),
            redo_stack: Vec::new(),
            clipboard: Vec::new(),
        };
        assert(e@.undo =~= Seq::<SnapView>::empty());
        assert(e@.redo =~= Seq::<SnapView>::empty());
        assert(e@.clipboard =~= Seq::<Seq<char>>::empty());
        e
    }

    /// Switches to the file `path` whose text is `text`: the cursor goes to the
    /// start and the undo and redo histories are emptied.
    pub fn load_text(&mut self, path: &str, text: &str)
        requires
            old(self).wf(),
        ensures
            final(self).wf(),
            final(self)@ == (EditorView {
                path: path@,
                lines: buffer_lines(text@),
                row: 0,
                col: 0,
                scroll: 0,
                modified: false,
                undo: Seq::empty(),
                redo: Seq::empty(),
                status: "Opened: "@ + path@,
                st_ok: true,
                ..old(self)@
            }),
    {
        self.lines = buffer_of(text);
        self.path = path.to_owned();
        self.row = 0;
        self.col = 0;
        self.scroll = 0;
        self.modified = false;
        self.undo_stack = Vec::new();
        self.redo_stack = Vec::new();
        let mut st = "Opened: ".to_owned();
        push_str(&mut st, path);
        self.status = st;
        self.st_ok = true;
        assert(self@ =~= (EditorView {
            path: path@,
            lines: buffer_lines(text@),
            row: 0,
            col: 0,
            scroll: 0,
            modified: false,
            undo: Seq::empty(),
            redo: Seq::empty(),
            status: "Opened: "@ + path@,
            st_ok: true,
            ..old(self)@
        }));
    }

    /// The text to write to the file: the lines joined by `\n`.
    pub fn contents(&self) -> (s: String)
        requires
            self.wf(),
        ensures
            s@ == join_lines(self@.lines),
    {
        let mut s = String::new();
        let n = self.lines.len();
        let mut i: usize = 0;
        while i < n
            invariant
                i <= n,
                n == self.lines@.len(),
                n >= 1,
                s@ == join_lines(text_of(self.lines@).subrange(0, i as int)),
            decreases n - i,
        {
            if i > 0 {
                push_char(&mut s, '\n');
            }
            let part = chars_to_string(self.lines[i].as_slice());
            push_str(&mut s, part.as_str());
            let ghost t = text_of(self.lines@);
            assert(t.subrange(0, i + 1).drop_last() =~= t.subrange(0, i as int));
            i = i + 1;
        }
        assert(text_of(self.lines@).subrange(0, n as int) =~= text_of(self.lines@));
        s
    }

    /// The outcome of writing the file: on success the buffer is unmodified
    /// and the status says so; on failure the status holds the error.
    pub fn after_save(&mut self, result: Result<(), String>)
        requires
            old(self).wf(),
        ensures
            final(self).wf(),
            result is Ok ==> final(self)@ == (EditorView {
                modified: false,
                status: "✓ Saved: "@ + old(self)@.path,
                st_ok: true,
                ..old(self)@
            }),
            result matches Err(e) ==> final(self)@ == (EditorView {
                status: "Save failed: "@ + e@,
                st_ok: false,
                ..old(self)@
            }),
    {
        match result {
            Ok(()) => {
                self.modified = false;
                let mut st = "✓ Saved: ".to_owned();
                push_str(&mut st, self.path.as_str());
                self.status = st;
                self.st_ok = true;
            },
            Err(e) => {
                let mut st = "Save failed: ".to_owned();
                push_str(&mut st, e.as_str());
                self.status = st;
                self.st_ok = false;
            },
        }
        assert(result is Ok ==> self@ =~= (EditorView {
            modified: false,
            status: "✓ Saved: "@ + old(self)@.path,
            st_ok: true,
            ..old(self)@
        }));
    }

    /// Back from running the program: the status is cleared.
    pub fn after_run(&mut self)
        requires
            old(self).wf(),
        ensures
            final(self).wf(),
            final(self)@ == (EditorView { status: Seq::empty(), st_ok: true, ..old(self)@ }),
    {
        self.status = String::new();
        self.st_ok = true;
        assert(self@ =~= (EditorView { status: Seq::empty(), st_ok: true, ..old(self)@ }));
    }

    /// Start of a frame: the terminal size is taken and the window scrolled to
    /// the cursor.
    pub fn begin_frame(&mut self, rows: u16, cols: u16)
        requires
            old(self).wf(),
        ensures
            final(self).wf(),
            final(self)@ == spec_scroll_view(
                EditorView { rows: rows as int, cols: cols as int, ..old(self)@ },
            ),
    {
        self.rows = rows;
        self.cols = cols;
        assert(self@ =~= (EditorView { rows: rows as int, cols: cols as int, ..old(self)@ }));
        self.scroll_view();
    }

    /// After drawing: a "✓" status message is shown once, then cleared.
    pub fn after_render(&mut self)
        requires
            old(self).wf(),
        ensures
            final(self).wf(),
            old(self)@.status.len() > 0 && old(self)@.status[0] == '✓' ==> final(self)@ == (
            EditorView { status: Seq::empty(), ..old(self)@ }),
            !(old(self)@.status.len() > 0 && old(self)@.status[0] == '✓') ==> final(self)@
                == old(self)@,
    {
        if self.status.as_str().unicode_len() > 0 && self.status.as_str().get_char(0) == '✓' {
            self.status = String::new();
            assert(self@ =~= (EditorView { status: Seq::empty(), ..old(self)@ }));
        }
    }

    /// The file path.
    pub fn path(&self) -> (p: &str)
        ensures
            p@ == self@.path,
    {
        self.path.as_str()
    }

    /// Number of lines.
    pub fn line_count(&self) -> (n: usize)
        ensures
            n == self@.lines.len(),
    {
        self.lines.len()
    }

    /// Line `i` as a `String`.
    pub fn line(&self, i: usize) -> (s: String)
        requires
            i < self@.lines.len(),
        ensures
            s@ == self@.lines[i as int],
    {
        chars_to_string(self.lines[i].as_slice())
    }

    /// The cursor row.
    pub fn row(&self) -> (r: usize)
        ensures
            r == self@.row,
    {
        self.row
    }

    /// The cursor column.
    pub fn col(&self) -> (c: usize)
        ensures
            c == self@.col,
    {
        self.col
    }

    /// The first line shown.
    pub fn scroll(&self) -> (s: usize)
        ensures
            s == self@.scroll,
    {
        self.scroll
    }

    /// Whether there are unsaved changes.
    pub fn modified(&self) -> (m: bool)
        ensures
            m == self@.modified,
    {
        self.modified
    }

    /// The status message and whether it reports success.
    pub fn status(&self) -> (r: (&str, bool))
        ensures
            r.0@ == self@.status,
            r.1 == self@.st_ok,
    {
        (self.status.as_str(), self.st_ok)
    }

    /// The find query.
    pub fn find_query(&self) -> (q: String)
        ensures
            q@ == self@.find_query,
    {
        chars_to_string(self.find_query.as_slice())
    }

    /// The text being typed in the replace prompt (query, then replacement).
    pub fn replace_texts(&self) -> (r: (String, String))
        ensures
            r.0@ == self@.repl_query,
            r.1@ == self@.repl_with,
    {
        (chars_to_string(self.repl_query.as_slice()), chars_to_string(self.repl_with.as_slice()))
    }

    /// The typed line number of the go-to-line prompt.
    pub fn goto_text(&self) -> (g: String)
        ensures
            g@ == self@.goto_buf,
    {
        chars_to_string(self.goto_buf.as_slice())
    }

    /// The active prompt: find, replace stage (0 = none) and go-to-line.
    pub fn modes(&self) -> (m: (bool, u8, bool))
        ensures
            m.0 == self@.find_mode,
            m.1 == self@.repl_mode,
            m.2 == self@.goto_mode,
    {
        (self.find_mode, self.repl_mode, self.goto_mode)
    }

    /// Number of saved undo states.
    pub fn undo_len(&self) -> (n: usize)
        ensures
            n == self@.undo.len(),
    {
        self.undo_stack.len()
    }

    /// Number of lines in the clipboard.
    pub fn clipboard_len(&self) -> (n: usize)
        ensures
            n == self@.clipboard.len(),
    {
        self.clipboard.len()
    }

    /// The terminal size last taken.
    pub fn size(&self) -> (s: (u16, u16))
        ensures
            s.0 == self@.rows,
            s.1 == self@.cols,
    {
        (self.rows, self.cols)
    }
}

/// Number of words the editor colours as keywords.
pub const HL_KEYWORD_COUNT: usize = 42;

/// The words coloured as keywords.
pub open spec fn hl_keyword_spec(k: usize) -> Seq<char> {
    match k {
        0 => "बताओ"@,
        1 => "लिखो"@,
        2 => "यदि"@,
        3 => "अन्यथा"@,
        4 => "अन्य"@,
        5 => "जब"@,
        6 => "तक"@,
        7 => "बंद"@,
        8 => "करो"@,
        9 => "अगला"@,
        10 => "विधि"@,
        11 => "फल"@,
        12 => "लाम्डा"@,
        13 => "शुद्ध"@,
        14 => "है"@,
        15 => "शून्य"@,
        16 => "सत्य"@,
        17 => "असत्य"@,
        18 => "बार"@,
        19 => "के"@,
        20 => "लिए"@,
        21 => "में"@,
        22 => "वर्ग"@,
        23 => "यह"@,
        24 => "बनाओ"@,
        25 => "आयात"@,
        26 => "कोशिश"@,
        27 => "पकड़ो"@,
        28 => "त्रुटि"@,
        29 => "और"@,
        30 => "या"@,
        31 => "नहीं"@,
        32 => "वैश्विक"@,
        33 => "विकल्प"@,
        34 => "मिलाओ"@,
        35 => "जाँचो"@,
        36 => "स्थिर"@,
        37 => "से"@,
        38 => "अधिक"@,
        39 => "कम"@,
        40 => "बराबर"@,
        41 => "तो"@,
        _ => ""@,
    }
}

fn hl_keyword(k: usize) -> (s: &'static str)
    requires
        k < HL_KEYWORD_COUNT,
    ensures
        s@ == hl_keyword_spec(k),
{
    match k {
        0 => "बताओ",
        1 => "लिखो",
        2 => "यदि",
        3 => "अन्यथा",
        4 => "अन्य",
        5 => "जब",
        6 => "तक",
        7 => "बंद",
        8 => "करो",
        9 => "अगला",
        10 => "विधि",
        11 => "फल",
        12 => "लाम्डा",
        13 => "शुद्ध",
        14 => "है",
        15 => "शून्य",
        16 => "सत्य",
        17 => "असत्य",
        18 => "बार",
        19 => "के",
        20 => "लिए",
        21 => "में",
        22 => "वर्ग",
        23 => "यह",
        24 => "बनाओ",
        25 => "आयात",
        26 => "कोशिश",
        27 => "पकड़ो",
        28 => "त्रुटि",
        29 => "और",
        30 => "या",
        31 => "नहीं",
        32 => "वैश्विक",
        33 => "विकल्प",
        34 => "मिलाओ",
        35 => "जाँचो",
        36 => "स्थिर",
        37 => "से",
        38 => "अधिक",
        39 => "कम",
        40 => "बराबर",
        41 => "तो",
        _ => "",
    }
}

/// The word is one of the keywords.
pub open spec fn is_hl_keyword(w: Seq<char>) -> bool {
    exists|k: usize| k < HL_KEYWORD_COUNT && hl_keyword_spec(k) == w
}

pub open spec fn cur_bg(cur: bool) -> Seq<char> {
    if cur {
        "\x1b[48;5;236m"@
    } else {
        Seq::empty()
    }
}

/// Start of a word: a character above U+0900 (Devanagari and beyond), a
/// Unicode letter, or `_`.
pub open spec fn word_start_spec(c: char) -> bool {
    c > '\u{900}' || spec_is_alphabetic(c) || c == '_'
}

/// Inside a word: a character above U+0900, a Unicode letter or digit, or `_`.
pub open spec fn word_char_spec(c: char) -> bool {
    c > '\u{900}' || spec_is_alphanumeric(c) || c == '_'
}

/// Operator characters.
pub open spec fn is_op_spec(c: char) -> bool {
    c == '+' || c == '-' || c == '*' || c == '/' || c == '%' || c == '&' || c == '|' || c == '^'
        || c == '~' || c == '<' || c == '>' || c == '=' || c == '!'
}

/// Length of the string literal body from `i` (up to and including the closing
/// quote), within the width.
pub open spec fn str_run(s: Seq<char>, i: int, col: int, width: int) -> int
    decreases s.len() - i,
{
    if i < 0 || i >= s.len() || col >= width {
        0
    } else if s[i] == '"' {
        1
    } else {
        1 + str_run(s, i + 1, col + 1, width)
    }
}

/// Length of the number (digits and `.`) from `i`, within the width.
pub open spec fn num_run(s: Seq<char>, i: int, col: int, width: int) -> int
    decreases s.len() - i,
{
    if i < 0 || i >= s.len() || col >= width || !(is_ascii_digit_spec(s[i]) || s[i] == '.') {
        0
    } else {
        1 + num_run(s, i + 1, col + 1, width)
    }
}

/// End of the word that continues at `i`.
pub open spec fn word_end(s: Seq<char>, i: int) -> int
    decreases s.len() - i,
{
    if i < 0 || i >= s.len() || !word_char_spec(s[i]) {
        i
    } else {
        word_end(s, i + 1)
    }
}

/// The first character at or after `i` that is not a space.
pub open spec fn next_nonspace(s: Seq<char>, i: int) -> Option<char>
    decreases s.len() - i,
{
    if i < 0 || i >= s.len() {
        None
    } else if s[i] != ' ' {
        Some(s[i])
    } else {
        next_nonspace(s, i + 1)
    }
}

/// `rest` with each occurrence of `find` marked (search highlight), each
/// followed by `after` to restore the colour.
pub open spec fn mark_matches(rest: Seq<char>, find: Seq<char>, after: Seq<char>) -> Seq<char>
    decreases rest.len(),
{
    if find.len() == 0 || !contains_spec(rest, find) {
        rest
    } else {
        let p = first_occ_from(rest, find, 0);
        proof {
            lemma_first_occ_from(rest, find, 0);
        }
        rest.subrange(0, p) + "\x1b[30;43m"@ + find + after + mark_matches(
            rest.subrange(p + find.len(), rest.len() as int),
            find,
            after,
        )
    }
}

/// The coloured form of a word: blue keywords, lavender function names
/// (followed by `(`), search matches marked.
pub open spec fn hl_word(s: Seq<char>, i: int, j: int, find: Seq<char>, cur: bool) -> Seq<char> {
    let word = s.subrange(i, j);
    let is_kw = is_hl_keyword(word);
    let is_fn = !is_kw && next_nonspace(s, j) == Some('(');
    let color = if is_kw {
        "\x1b[38;5;75m"@
    } else if is_fn {
        "\x1b[38;5;183m"@
    } else {
        Seq::empty()
    };
    let body = if find.len() > 0 && contains_spec(word, find) {
        mark_matches(
            word,
            find,
            if color.len() > 0 {
                color
            } else if cur {
                "\x1b[48;5;236m"@
            } else {
                "\x1b[0m"@
            },
        )
    } else {
        word
    };
    color + body + if color.len() > 0 {
        "\x1b[0m"@ + cur_bg(cur)
    } else {
        Seq::empty()
    }
}

pub proof fn lemma_runs(s: Seq<char>, i: int, col: int, width: int)
    requires
        0 <= i <= s.len(),
    ensures
        0 <= str_run(s, i, col, width) <= s.len() - i,
        0 <= num_run(s, i, col, width) <= s.len() - i,
        col <= width ==> col + str_run(s, i, col, width) <= width,
        col <= width ==> col + num_run(s, i, col, width) <= width,
        i <= word_end(s, i) <= s.len(),
    decreases s.len() - i,
{
    if i < s.len() {
        lemma_runs(s, i + 1, col + 1, width);
    }
}

/// The highlighted rest of a line from position `i`, display column `col`.
pub open spec fn hl_from(s: Seq<char>, i: int, col: int, width: int, find: Seq<char>, cur: bool) -> Seq<char>
    decreases s.len() - i,
{
    if i < 0 || i >= s.len() || col >= width {
        Seq::empty()
    } else {
        let c = s[i];
        proof {
            lemma_runs(s, i + 1, col + 1, width);
            lemma_runs(s, i, col, width);
        }
        if c == '#' || c == '\u{964}' {
            let take = if width - col < s.len() - i {
                width - col
            } else {
                s.len() - i
            };
            "\x1b[38;5;242m"@ + s.subrange(i, i + take) + "\x1b[0m"@ + cur_bg(cur)
        } else if c == '"' {
            let r = str_run(s, i + 1, col + 1, width);
            "\x1b[38;5;214m"@ + s.subrange(i, i + 1 + r) + "\x1b[0m"@ + cur_bg(cur) + hl_from(
                s,
                i + 1 + r,
                col + 1 + r,
                width,
                find,
                cur,
            )
        } else if is_ascii_digit_spec(c) {
            let r = num_run(s, i, col, width);
            "\x1b[38;5;120m"@ + s.subrange(i, i + r) + "\x1b[0m"@ + cur_bg(cur) + hl_from(
                s,
                i + r,
                col + r,
                width,
                find,
                cur,
            )
        } else if word_start_spec(c) {
            let j = word_end(s, i);
            if col + (j - i) > width {
                Seq::empty()
            } else {
                hl_word(s, i, j, find, cur) + hl_from(s, j, col + (j - i), width, find, cur)
            }
        } else if is_op_spec(c) {
            "\x1b[38;5;203m"@ + seq![c] + "\x1b[0m"@ + cur_bg(cur) + hl_from(
                s,
                i + 1,
                col + 1,
                width,
                find,
                cur,
            )
        } else {
            seq![c] + hl_from(s, i + 1, col + 1, width, find, cur)
        }
    }
}

/// A line as drawn: coloured comments, strings, numbers, keywords, function
/// names and operators, search matches marked, cut at `width` columns, on a
/// dark background when it is the cursor line.
pub open spec fn highlight_spec(line: Seq<char>, width: int, find: Seq<char>, cur: bool) -> Seq<char> {
    cur_bg(cur) + hl_from(line, 0, 0, width, find, cur) + if cur {
        "\x1b[0m"@
    } else {
        Seq::empty()
    }
}

fn is_op(c: char) -> (b: bool)
    ensures
        b == is_op_spec(c),
{
    c == '+' || c == '-' || c == '*' || c == '/' || c == '%' || c == '&' || c == '|' || c == '^'
        || c == '~' || c == '<' || c == '>' || c == '=' || c == '!'
}

/// Whether `w` is one of the keywords.
fn is_keyword_word(w: &Vec<char>) -> (b: bool)
    ensures
        b == is_hl_keyword(w@),
{
    let mut k: usize = 0;
    while k < HL_KEYWORD_COUNT
        invariant
            k <= HL_KEYWORD_COUNT,
            forall|q: usize| q < k ==> hl_keyword_spec(q) != w@,
        decreases HL_KEYWORD_COUNT - k,
    {
        let kw = hl_keyword(k);
        let kc = str_chars(kw);
        if chars_eq(kc.as_slice(), w.as_slice()) {
            return true;
        }
        k = k + 1;
    }
    false
}

fn push_cur_bg(out: &mut String, cur: bool)
    ensures
        final(out)@ == old(out)@ + cur_bg(cur),
{
    if cur {
        push_str(out, "\x1b[48;5;236m");
    } else {
        assert(old(out)@ + cur_bg(cur) =~= old(out)@);
    }
}

/// Appends `mark_matches(rest, find, after)`.
fn push_marked(out: &mut String, rest: &Vec<char>, find: &Vec<char>, after: &str)
    requires
        find@.len() > 0,
    ensures
        final(out)@ == old(out)@ + mark_matches(rest@, find@, after@),
    decreases rest@.len(),
{
    match find_chars(rest, find) {
        Some(p) => {
            proof {
                lemma_first_occ_from(rest@, find@, 0);
            }
            let n = rest.len();
            let fl = find.len();
            let mut head: Vec<char> = Vec::new();
            push_range(&mut head, rest, 0, p);
            let hs = chars_to_string(head.as_slice());
            push_str(out, hs.as_str());
            push_str(out, "\x1b[30;43m");
            let fs = chars_to_string(find.as_slice());
            push_str(out, fs.as_str());
            push_str(out, after);
            let mut tail: Vec<char> = Vec::new();
            push_range(&mut tail, rest, p + fl, n);
            push_marked(out, &tail, find, after);
        },
        None => {
            let s = chars_to_string(rest.as_slice());
            push_str(out, s.as_str());
        },
    }
}

fn str_run_len(s: &Vec<char>, i: usize, col: usize, width: usize) -> (r: usize)
    requires
        i <= s@.len(),
    ensures
        r == str_run(s@, i as int, col as int, width as int),
        r <= s@.len() - i,
{
    let n = s.len();
    let mut k = i;
    let mut c = col;
    while k < n && c < width
        invariant
            i <= k <= n,
            n == s@.len(),
            c == col + (k - i),
            str_run(s@, i as int, col as int, width as int) == (k - i) + str_run(
                s@,
                k as int,
                c as int,
                width as int,
            ),
        decreases n - k,
    {
        if s[k] == '"' {
            return k - i + 1;
        }
        k = k + 1;
        c = c + 1;
    }
    k - i
}

fn num_run_len(s: &Vec<char>, i: usize, col: usize, width: usize) -> (r: usize)
    requires
        i <= s@.len(),
    ensures
        r == num_run(s@, i as int, col as int, width as int),
        r <= s@.len() - i,
{
    let n = s.len();
    let mut k = i;
    let mut c = col;
    while k < n && c < width && (is_ascii_digit(s[k]) || s[k] == '.')
        invariant
            i <= k <= n,
            n == s@.len(),
            c == col + (k - i),
            num_run(s@, i as int, col as int, width as int) == (k - i) + num_run(
                s@,
                k as int,
                c as int,
                width as int,
            ),
        decreases n - k,
    {
        k = k + 1;
        c = c + 1;
    }
    k - i
}

fn word_start(c: char) -> (b: bool)
    ensures
        b == word_start_spec(c),
{
    c > '\u{900}' || char_is_alphabetic(c) || c == '_'
}

fn word_end_at(s: &Vec<char>, i: usize) -> (j: usize)
    requires
        i <= s@.len(),
    ensures
        j == word_end(s@, i as int),
        i <= j <= s@.len(),
{
    let n = s.len();
    let mut k = i;
    while k < n && (s[k] > '\u{900}' || char_is_alphanumeric(s[k]) || s[k] == '_')
        invariant
            i <= k <= n,
            n == s@.len(),
            word_end(s@, i as int) == word_end(s@, k as int),
        decreases n - k,
    {
        k = k + 1;
    }
    k
}

fn next_nonspace_at(s: &Vec<char>, i: usize) -> (r: Option<char>)
    requires
        i <= s@.len(),
    ensures
        r == next_nonspace(s@, i as int),
{
    let n = s.len();
    let mut k = i;
    while k < n
        invariant
            i <= k <= n,
            n == s@.len(),
            next_nonspace(s@, i as int) == next_nonspace(s@, k as int),
        decreases n - k,
    {
        if s[k] != ' ' {
            return Some(s[k]);
        }
        k = k + 1;
    }
    None
}

/// Appends the coloured word `s[i..j]` (see `hl_word`).
fn push_word(out: &mut String, s: &Vec<char>, i: usize, j: usize, find: &Vec<char>, cur: bool)
    requires
        i <= j <= s@.len(),
    ensures
        final(out)@ == old(out)@ + hl_word(s@, i as int, j as int, find@, cur),
{
    let mut word: Vec<char> = Vec::new();
    push_range(&mut word, s, i, j);
    let is_kw = is_keyword_word(&word);
    let nn = next_nonspace_at(s, j);
    let is_fn = !is_kw && match nn {
        Some(c) => c == '(',
        None => false,
    };
    let color: &str = if is_kw {
        "\x1b[38;5;75m"
    } else if is_fn {
        "\x1b[38;5;183m"
    } else {
        ""
    };
    proof {
        if !is_kw && !is_fn {
            reveal_strlit("");
        }
        if is_kw {
            reveal_strlit("\x1b[38;5;75m");
        }
        if !is_kw && is_fn {
            reveal_strlit("\x1b[38;5;183m");
        }
    }
    let has_color = color.unicode_len() > 0;
    push_str(out, color);
    let marks = find.len() > 0 && match find_chars(&word, find) {
        Some(_) => true,
        None => false,
    };
    if marks {
        let after: &str = if has_color {
            color
        } else if cur {
            "\x1b[48;5;236m"
        } else {
            "\x1b[0m"
        };
        push_marked(out, &word, find, after);
    } else {
        let ws = chars_to_string(word.as_slice());
        push_str(out, ws.as_str());
    }
    if has_color {
        push_str(out, "\x1b[0m");
        push_cur_bg(out, cur);
    }
    assert(word@ == s@.subrange(i as int, j as int));
    assert(final(out)@ =~= old(out)@ + hl_word(s@, i as int, j as int, find@, cur)) by {
        if !has_color {
            assert(color@ =~= Seq::<char>::empty());
        }
    }
}

/// One step of drawing a line at position `i`, column `col`: appends the next
/// token and says where drawing goes on (or that the line is done).
#[verifier::rlimit(40)]
fn hl_step(out: &mut String, chars: &Vec<char>, i: usize, col: usize, width: usize, fc: &Vec<char>, cur: bool) -> (r: (usize, usize, bool))
    requires
        i < chars@.len(),
        col < width,
    ensures
        r.2 ==> final(out)@ == old(out)@ + hl_from(chars@, i as int, col as int, width as int, fc@, cur),
        !r.2 ==> final(out)@ + hl_from(chars@, r.0 as int, r.1 as int, width as int, fc@, cur)
            == old(out)@ + hl_from(chars@, i as int, col as int, width as int, fc@, cur),
        !r.2 ==> i < r.0 <= chars@.len(),
        r.2 ==> r.0 == i && r.1 == col,
{
    let n = chars.len();
    let c = chars[i];
    proof {
        lemma_runs(chars@, i + 1, col + 1, width as int);
        lemma_runs(chars@, i as int, col as int, width as int);
    }
    if c == '#' || c == '\u{964}' {
        let take = if width - col < n - i {
            width - col
        } else {
            n - i
        };
        push_str(out, "\x1b[38;5;242m");
        push_chars(out, chars.as_slice(), i, i + take);
        push_str(out, "\x1b[0m");
        push_cur_bg(out, cur);
        (i, col, true)
    } else if c == '"' {
        let r = str_run_len(chars, i + 1, col + 1, width);
        push_str(out, "\x1b[38;5;214m");
        push_chars(out, chars.as_slice(), i, i + 1 + r);
        push_str(out, "\x1b[0m");
        push_cur_bg(out, cur);
        (i + 1 + r, col + 1 + r, false)
    } else if is_ascii_digit(c) {
        let r = num_run_len(chars, i, col, width);
        push_str(out, "\x1b[38;5;120m");
        push_chars(out, chars.as_slice(), i, i + r);
        push_str(out, "\x1b[0m");
        push_cur_bg(out, cur);
        (i + r, col + r, false)
    } else if word_start(c) {
        let j = word_end_at(chars, i);
        if j - i > width - col {
            assert(hl_from(chars@, i as int, col as int, width as int, fc@, cur) =~= Seq::<char>::empty());
            (i, col, true)
        } else {
            push_word(out, chars, i, j, fc, cur);
            (j, col + (j - i), false)
        }
    } else if is_op(c) {
        push_str(out, "\x1b[38;5;203m");
        push_char(out, c);
        push_str(out, "\x1b[0m");
        push_cur_bg(out, cur);
        (i + 1, col + 1, false)
    } else {
        push_char(out, c);
        (i + 1, col + 1, false)
    }
}

/// Draws one line of code (see `highlight_spec`).
pub fn highlight(line: &str, width: usize, find: &str, is_cursor_line: bool) -> (out: String)
    ensures
        out@ == highlight_spec(line@, width as int, find@, is_cursor_line),
{
    let chars = str_chars(line);
    let fc = str_chars(find);
    let n = chars.len();
    let cur = is_cursor_line;
    let mut out = String::new();
    push_cur_bg(&mut out, cur);
    let ghost start = out@;
    let ghost total = hl_from(chars@, 0, 0, width as int, fc@, cur);
    let mut i: usize = 0;
    let mut col: usize = 0;
    let mut done = false;
    while !done && i < n && col < width
        invariant
            i <= n,
            n == chars@.len(),
            chars@ == line@,
            fc@ == find@,
            start == cur_bg(cur),
            total == hl_from(chars@, 0, 0, width as int, fc@, cur),
            !done ==> out@ + hl_from(chars@, i as int, col as int, width as int, fc@, cur) == start
                + total,
            done ==> out@ == start + total,
        decreases (n - i) + (if done {
            0int
        } else {
            1int
        }),
    {
        let (ni, nc, d) = hl_step(&mut out, &chars, i, col, width, &fc, cur);
        i = ni;
        col = nc;
        done = d;
    }
    proof {
        if !done {
            assert(hl_from(chars@, i as int, col as int, width as int, fc@, cur) =~= Seq::<char>::empty());
        }
    }
    if cur {
        push_str(&mut out, "\x1b[0m");
    }
    out
}

/// `s` cut or padded with spaces to exactly `w` characters.
pub open spec fn pad_spec(s: Seq<char>, w: int) -> Seq<char> {
    if s.len() >= w {
        s.subrange(0, w)
    } else {
        s + spaces(w - s.len())
    }
}

/// Cuts or pads `s` to `w` characters (title and status bars).
pub fn pad(s: &str, w: usize) -> (r: String)
    ensures
        r@ == pad_spec(s@, w as int),
{
    let chars = str_chars(s);
    let n = chars.len();
    if n >= w {
        let mut r = String::new();
        push_chars(&mut r, chars.as_slice(), 0, w);
        r
    } else {
        let mut r = String::new();
        push_str(&mut r, s);
        let mut k = n;
        while k < w
            invariant
                n <= k <= w,
                r@ == s@ + spaces(k - n),
            decreases w - k,
        {
            push_char(&mut r, ' ');
            k = k + 1;
            assert(r@ =~= s@ + spaces(k - n));
        }
        r
    }
}

} // verus!
