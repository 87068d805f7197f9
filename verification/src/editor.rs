//! UI-independent editing state for one document: the selection, caret
//! motion, edits with language-aware pairs and indentation, and an undo
//! history whose entries each know how to take themselves back.

use vstd::prelude::*;
use vstd::string::StringSliceAdditionalSpecFns;
use vstd::utf8::*;

use crate::addons::{
    spec_closing_for, spec_indent_unit, spec_opening_for, EditorSettings, LanguageEditRules, SearchQuery,
};
use crate::document::{
    caret_back, caret_forward, char_at, char_before, column_of, last_line, line_content_end_of, line_full_end_of, line_of,
    char_starting, lemma_next_boundary, lemma_prev_boundary, line_start_of, next_boundary, next_word_boundary_of,
    offset_at_column, offset_error, prev_boundary, previous_word_boundary_of,
    range_error, splice, Document, DocumentView,
};
use crate::rope::{
    is_boundary, lemma_encode_concat, lemma_encode_empty, lemma_seam_boundary, lemma_splice_bounds,
    lemma_str_bytes_valid,
};
use crate::lines::{
    is_prefix, leading_ws, leading_ws_count, rewrite_lines, rewrite_text, starts_with_at, LineEdit, LineRewrite,
};
use crate::rope::line_count;
use crate::strings::{chars_to_string, push_char, str_chars};
use crate::search::{find_in, found_in, is_search_match, is_search_match_spec, lemma_found_forward};
use crate::text::{ByteOffset, ByteRange, EditError, Revision};

verus! {

/// How many edits the undo history keeps.
pub const HISTORY_LIMIT: usize = 1000;

/// An anchored selection whose head is the active caret position.
#[derive(Clone, Copy, Debug, PartialEq, Eq, Structural)]
pub struct Selection {
    anchor: ByteOffset,
    head: ByteOffset,
}

impl View for Selection {
    /// The anchor and the head.
    type V = (usize, usize);

    closed spec fn view(&self) -> (usize, usize) {
        (self.anchor.0, self.head.0)
    }
}

/// The lower end of a selection.
pub open spec fn sel_lo(s: (usize, usize)) -> int {
    if s.0 <= s.1 {
        s.0 as int
    } else {
        s.1 as int
    }
}

/// The upper end of a selection.
pub open spec fn sel_hi(s: (usize, usize)) -> int {
    if s.0 <= s.1 {
        s.1 as int
    } else {
        s.0 as int
    }
}

/// An empty selection at `o`.
pub open spec fn caret(o: int) -> (usize, usize) {
    (o as usize, o as usize)
}

impl Selection {
    pub fn new(anchor: ByteOffset, head: ByteOffset) -> (selection: Self)
        ensures
            selection@ == (anchor.0, head.0),
    {
        Selection { anchor, head }
    }

    pub fn anchor(self) -> (anchor: ByteOffset)
        ensures
            anchor.0 == self@.0,
    {
        self.anchor
    }

    pub fn head(self) -> (head: ByteOffset)
        ensures
            head.0 == self@.1,
    {
        self.head
    }

    pub fn is_empty(self) -> (empty: bool)
        ensures
            empty == (self@.0 == self@.1),
    {
        self.anchor.0 == self.head.0
    }

    /// The selected bytes, from the lower end to the upper.
    pub fn range(self) -> (range: ByteRange)
        ensures
            range.lo() == sel_lo(self@),
            range.hi() == sel_hi(self@),
    {
        if self.anchor.0 <= self.head.0 {
            ByteRange::new(self.anchor, self.head)
        } else {
            ByteRange::new(self.head, self.anchor)
        }
    }
}

impl Default for Selection {
    /// An empty selection at the start.
    fn default() -> (selection: Self)
        ensures
            selection@ == (0usize, 0usize),
    {
        Selection { anchor: ByteOffset(0), head: ByteOffset(0) }
    }
}

/// What kind of change an undo entry records.
#[derive(Clone, Copy, Debug, PartialEq, Eq, Structural)]
pub enum HistoryKind {
    Insert,
    Delete,
    Replace,
}

/// One undoable change: at `start`, `deleted` was replaced by `inserted`.
struct HistoryEdit {
    start: ByteOffset,
    deleted: String,
    inserted: String,
    selection_before: Selection,
    selection_after: Selection,
    kind: HistoryKind,
}

/// What an undo entry holds.
pub struct HistoryView {
    pub start: int,
    pub deleted: Seq<char>,
    pub inserted: Seq<char>,
    pub before: (usize, usize),
    pub after: (usize, usize),
    pub kind: HistoryKind,
}

impl View for HistoryEdit {
    type V = HistoryView;

    closed spec fn view(&self) -> HistoryView {
        HistoryView {
            start: self.start.0 as int,
            deleted: self.deleted@,
            inserted: self.inserted@,
            before: self.selection_before@,
            after: self.selection_after@,
            kind: self.kind,
        }
    }
}

spec fn history_views(stack: Seq<HistoryEdit>) -> Seq<HistoryView> {
    stack.map_values(|e: HistoryEdit| e@)
}

/// The kind of a change that replaced `deleted` by `inserted`.
pub open spec fn history_kind(deleted: Seq<char>, inserted: Seq<char>) -> HistoryKind {
    if deleted.len() == 0 && inserted.len() > 0 {
        HistoryKind::Insert
    } else if inserted.len() == 0 && deleted.len() > 0 {
        HistoryKind::Delete
    } else {
        HistoryKind::Replace
    }
}

/// The text before the change `e`, given the text after it.
pub open spec fn undone(bytes: Seq<u8>, e: HistoryView) -> Seq<u8> {
    bytes.take(e.start) + encode_utf8(e.deleted) + bytes.skip(e.start + encode_utf8(e.inserted).len())
}

/// The text after the change `e`, given the text before it.
pub open spec fn redone(bytes: Seq<u8>, e: HistoryView) -> Seq<u8> {
    bytes.take(e.start) + encode_utf8(e.inserted) + bytes.skip(e.start + encode_utf8(e.deleted).len())
}

/// `o` is a caret position in `bytes`.
pub open spec fn valid_offset(bytes: Seq<u8>, o: int) -> bool {
    0 <= o <= bytes.len() && is_boundary(bytes, o)
}

pub open spec fn valid_selection(bytes: Seq<u8>, s: (usize, usize)) -> bool {
    valid_offset(bytes, s.0 as int) && valid_offset(bytes, s.1 as int)
}

/// `bytes` holds `piece` at `start`, between two character boundaries.
pub open spec fn holds_at(bytes: Seq<u8>, start: int, piece: Seq<u8>) -> bool {
    &&& 0 <= start
    &&& start + piece.len() <= bytes.len()
    &&& is_boundary(bytes, start)
    &&& is_boundary(bytes, start + piece.len())
    &&& bytes.subrange(start, start + piece.len()) == piece
}

/// Each entry of an undo stack, from the top down, is the last change made
/// to the text it meets, and taking it back gives the text the next entry
/// meets, with a valid selection at every step.
#[verifier::opaque]
pub open spec fn undo_chain(bytes: Seq<u8>, undo: Seq<HistoryView>) -> bool
    decreases undo.len(),
{
    if undo.len() == 0 {
        true
    } else {
        let e = undo.last();
        &&& holds_at(bytes, e.start, encode_utf8(e.inserted))
        &&& e.deleted.len() + e.inserted.len() > 0
        &&& e.kind == history_kind(e.deleted, e.inserted)
        &&& valid_selection(bytes, e.after)
        &&& valid_selection(undone(bytes, e), e.before)
        &&& undo_chain(undone(bytes, e), undo.drop_last())
    }
}

/// Each entry of a redo stack, from the top down, was just taken back from
/// the text it meets, and making it again gives the text the next entry meets.
#[verifier::opaque]
pub open spec fn redo_chain(bytes: Seq<u8>, redo: Seq<HistoryView>) -> bool
    decreases redo.len(),
{
    if redo.len() == 0 {
        true
    } else {
        let e = redo.last();
        &&& holds_at(bytes, e.start, encode_utf8(e.deleted))
        &&& e.deleted.len() + e.inserted.len() > 0
        &&& e.kind == history_kind(e.deleted, e.inserted)
        &&& valid_selection(bytes, e.before)
        &&& valid_selection(redone(bytes, e), e.after)
        &&& redo_chain(redone(bytes, e), redo.drop_last())
    }
}

/// A single character that is not a line break: typing such characters one
/// after another undoes as one step.
pub open spec fn is_coalescable(t: Seq<char>) -> bool {
    t.len() == 1 && t[0] != '\n' && t[0] != '\r'
}

/// `edit` continues `last` so that one undo takes both back: a character
/// typed right after an insertion, or a character deleted right before or
/// right after a deletion.
pub open spec fn continues(last: HistoryView, edit: HistoryView) -> bool {
    ||| {
        &&& last.kind == HistoryKind::Insert
        &&& edit.kind == HistoryKind::Insert
        &&& is_coalescable(edit.inserted)
        &&& last.after == edit.before
        &&& last.start + encode_utf8(last.inserted).len() == edit.start
    }
    ||| {
        &&& last.kind == HistoryKind::Delete
        &&& edit.kind == HistoryKind::Delete
        &&& is_coalescable(edit.deleted)
        &&& (last.start == edit.start + encode_utf8(edit.deleted).len() || last.start == edit.start)
    }
}

/// The entry that records `last` and `edit` together.
pub open spec fn merged(last: HistoryView, edit: HistoryView) -> HistoryView {
    if last.kind == HistoryKind::Insert {
        HistoryView { inserted: last.inserted + edit.inserted, after: edit.after, ..last }
    } else if last.start == edit.start + encode_utf8(edit.deleted).len() {
        HistoryView { start: edit.start, deleted: edit.deleted + last.deleted, after: edit.after, ..last }
    } else {
        HistoryView { deleted: last.deleted + edit.deleted, after: edit.after, ..last }
    }
}

/// The undo stack once `e` is recorded: merged into the top entry when it
/// continues it, else pushed, dropping the oldest entry past the limit.
pub open spec fn recorded(undo: Seq<HistoryView>, e: HistoryView) -> Seq<HistoryView> {
    if undo.len() > 0 && continues(undo.last(), e) {
        undo.drop_last().push(merged(undo.last(), e))
    } else if undo.len() + 1 > HISTORY_LIMIT {
        undo.push(e).drop_first()
    } else {
        undo.push(e)
    }
}

/// The undo entry for replacing the bytes from `lo` to `hi` by `text`.
pub open spec fn new_entry(v: EditorView, lo: int, hi: int, text: Seq<char>, anchor: int, head: int) -> HistoryView {
    let deleted = decode_utf8(v.document.bytes.subrange(lo, hi));
    HistoryView {
        start: lo,
        deleted,
        inserted: text,
        before: v.selection,
        after: ((lo + anchor) as usize, (lo + head) as usize),
        kind: history_kind(deleted, text),
    }
}

/// `v` after the bytes from `lo` to `hi` are replaced by `text`, with the
/// new selection's anchor and head `anchor` and `head` bytes after `lo`, the
/// change recorded for undo and the redo history discarded; nothing changes
/// when nothing would be replaced.
pub open spec fn applied(v: EditorView, lo: int, hi: int, text: Seq<char>, anchor: int, head: int) -> EditorView {
    let bytes = v.document.bytes;
    let after = ((lo + anchor) as usize, (lo + head) as usize);
    if lo == hi && text.len() == 0 {
        v
    } else {
        let e = new_entry(v, lo, hi, text, anchor, head);
        EditorView {
            document: DocumentView {
                bytes: bytes.take(lo) + encode_utf8(text) + bytes.skip(hi),
                revision: (v.document.revision + 1) as u64,
                ..v.document
            },
            selection: after,
            preferred_column: None,
            undo: recorded(v.undo, e),
            redo: Seq::empty(),
            ..v
        }
    }
}

/// `v` with the selection replaced by `text` and the caret after it.
pub open spec fn replaced_selection(v: EditorView, text: Seq<char>) -> EditorView {
    let n = encode_utf8(text).len() as int;
    applied(v, sel_lo(v.selection), sel_hi(v.selection), text, n, n)
}

/// `v` after undoing its last change, if any.
pub open spec fn spec_undo(v: EditorView) -> EditorView {
    if v.undo.len() == 0 {
        v
    } else {
        let e = v.undo.last();
        EditorView {
            document: DocumentView {
                bytes: undone(v.document.bytes, e),
                revision: (v.document.revision + 1) as u64,
                ..v.document
            },
            selection: e.before,
            preferred_column: None,
            undo: v.undo.drop_last(),
            redo: v.redo.push(e),
            ..v
        }
    }
}

/// `v` after redoing its last undone change, if any.
pub open spec fn spec_redo(v: EditorView) -> EditorView {
    if v.redo.len() == 0 {
        v
    } else {
        let e = v.redo.last();
        EditorView {
            document: DocumentView {
                bytes: redone(v.document.bytes, e),
                revision: (v.document.revision + 1) as u64,
                ..v.document
            },
            selection: e.after,
            preferred_column: None,
            undo: v.undo.push(e),
            redo: v.redo.drop_last(),
            ..v
        }
    }
}

/// Taking back a change recorded at the top of a valid undo stack keeps the
/// rest valid after the oldest entry is dropped.
proof fn lemma_undo_chain_drop_first(bytes: Seq<u8>, undo: Seq<HistoryView>)
    requires
        undo_chain(bytes, undo),
        undo.len() > 0,
    ensures
        undo_chain(bytes, undo.drop_first()),
    decreases undo.len(),
{
    reveal(undo_chain);
    if undo.len() > 1 {
        let e = undo.last();
        lemma_undo_chain_drop_first(undone(bytes, e), undo.drop_last());
        assert(undo.drop_first().last() == e);
        assert(undo.drop_first().drop_last() =~= undo.drop_last().drop_first());
    }
}

/// Taking back a merged entry takes back both changes it records.
proof fn lemma_merged_undone(bytes: Seq<u8>, last: HistoryView, e: HistoryView)
    requires
        continues(last, e),
        e.kind == history_kind(e.deleted, e.inserted),
        last.kind == history_kind(last.deleted, last.inserted),
        holds_at(bytes, e.start, encode_utf8(e.inserted)),
        holds_at(undone(bytes, e), last.start, encode_utf8(last.inserted)),
    ensures
        holds_at(bytes, merged(last, e).start, encode_utf8(merged(last, e).inserted)),
        undone(bytes, merged(last, e)) == undone(undone(bytes, e), last),
{
    let m = merged(last, e);
    let b1 = undone(bytes, e);
    let b0 = undone(b1, last);
    let ie = encode_utf8(e.inserted);
    let de = encode_utf8(e.deleted);
    let il = encode_utf8(last.inserted);
    lemma_encode_empty(e.inserted);
    lemma_encode_empty(e.deleted);
    lemma_encode_empty(last.inserted);
    lemma_encode_empty(last.deleted);
    if last.kind == HistoryKind::Insert {
        lemma_encode_concat(last.inserted, e.inserted);
        let ls = last.start;
        assert(b1 =~= bytes.take(e.start) + bytes.skip(e.start + ie.len()));
        assert(bytes.subrange(ls, e.start) =~= b1.subrange(ls, e.start));
        assert(bytes.subrange(ls, e.start + ie.len()) =~= bytes.subrange(ls, e.start) + bytes.subrange(
            e.start,
            e.start + ie.len(),
        ));
        assert(encode_utf8(m.inserted) == il + ie);
        if 0 < ls < bytes.len() {
            assert(bytes[ls] == b1[ls]);
        }
        assert(holds_at(bytes, m.start, encode_utf8(m.inserted)));
        assert(undone(bytes, m) =~= b0);
    } else if last.start == e.start + de.len() {
        lemma_encode_concat(e.deleted, last.deleted);
        assert(undone(bytes, m) =~= b0);
    } else {
        lemma_encode_concat(last.deleted, e.deleted);
        assert(undone(bytes, m) =~= b0);
    }
}

/// Recording a change keeps the undo stack valid, whether the change is
/// merged into the top entry or pushed.
proof fn lemma_recorded_chain(bytes: Seq<u8>, undo: Seq<HistoryView>, e: HistoryView)
    requires
        valid_utf8(bytes),
        holds_at(bytes, e.start, encode_utf8(e.inserted)),
        e.deleted.len() + e.inserted.len() > 0,
        e.kind == history_kind(e.deleted, e.inserted),
        valid_selection(bytes, e.after),
        valid_selection(undone(bytes, e), e.before),
        undo_chain(undone(bytes, e), undo),
        undo.len() <= HISTORY_LIMIT,
    ensures
        undo_chain(bytes, recorded(undo, e)),
        recorded(undo, e).len() <= HISTORY_LIMIT,
{
    reveal(undo_chain);
    let pushed = undo.push(e);
    assert(pushed.last() == e);
    assert(pushed.drop_last() =~= undo);
    if undo.len() > 0 && continues(undo.last(), e) {
        let last = undo.last();
        let m = merged(last, e);
        let b1 = undone(bytes, e);
        let b0 = undone(b1, last);
        let r = undo.drop_last().push(m);
        assert(r.last() == m);
        assert(r.drop_last() =~= undo.drop_last());
        lemma_merged_undone(bytes, last, e);
        assert(undo_chain(bytes, r));
    } else if undo.len() + 1 > HISTORY_LIMIT {
        assert(undo_chain(bytes, pushed));
        lemma_undo_chain_drop_first(bytes, pushed);
    } else {
        assert(undo_chain(bytes, pushed));
    }
}

/// Taking back the top change of a valid undo stack, then making it again,
/// gives the text back.
proof fn lemma_undone_redone(bytes: Seq<u8>, e: HistoryView)
    requires
        valid_utf8(bytes),
        holds_at(bytes, e.start, encode_utf8(e.inserted)),
    ensures
        redone(undone(bytes, e), e) == bytes,
        holds_at(undone(bytes, e), e.start, encode_utf8(e.deleted)),
        valid_utf8(undone(bytes, e)),
{
    crate::rope::encode_utf8_valid_utf8_of(e.deleted);
    lemma_splice_bounds(bytes, e.start, e.start + encode_utf8(e.inserted).len(), encode_utf8(e.deleted));
    let u = undone(bytes, e);
    assert(redone(u, e) =~= bytes);
}

/// Making the top change of a valid redo stack, then taking it back, gives
/// the text back.
proof fn lemma_redone_undone(bytes: Seq<u8>, e: HistoryView)
    requires
        valid_utf8(bytes),
        holds_at(bytes, e.start, encode_utf8(e.deleted)),
    ensures
        undone(redone(bytes, e), e) == bytes,
        holds_at(redone(bytes, e), e.start, encode_utf8(e.inserted)),
        valid_utf8(redone(bytes, e)),
{
    crate::rope::encode_utf8_valid_utf8_of(e.inserted);
    lemma_splice_bounds(bytes, e.start, e.start + encode_utf8(e.deleted).len(), encode_utf8(e.inserted));
    let r = redone(bytes, e);
    assert(undone(r, e) =~= bytes);
}

/// Undoing keeps the editor's invariant, and the change undone sits in the
/// text as recorded.
proof fn lemma_undo_step(v: EditorView)
    requires
        editor_wf(v),
        v.undo.len() > 0,
    ensures
        holds_at(v.document.bytes, v.undo.last().start, encode_utf8(v.undo.last().inserted)),
        v.undo.last().deleted.len() + v.undo.last().inserted.len() > 0,
        editor_wf(spec_undo(v)),
{
    reveal(undo_chain);
    reveal(redo_chain);
    let e = v.undo.last();
    lemma_undone_redone(v.document.bytes, e);
    let w = spec_undo(v);
    assert(w.redo.last() == e);
    assert(w.redo.drop_last() =~= v.redo);
}

/// Redoing keeps the editor's invariant, and the change redone sits in the
/// text as taken back.
proof fn lemma_redo_step(v: EditorView)
    requires
        editor_wf(v),
        v.redo.len() > 0,
    ensures
        holds_at(v.document.bytes, v.redo.last().start, encode_utf8(v.redo.last().deleted)),
        v.redo.last().deleted.len() + v.redo.last().inserted.len() > 0,
        editor_wf(spec_redo(v)),
{
    reveal(undo_chain);
    reveal(redo_chain);
    let e = v.redo.last();
    lemma_redone_undone(v.document.bytes, e);
    let w = spec_redo(v);
    assert(w.undo.last() == e);
    assert(w.undo.drop_last() =~= v.undo);
}

/// Undo, then redo, gives back the text and both histories; the selection
/// becomes the one the redone change left.
pub proof fn lemma_undo_then_redo(v: EditorView)
    requires
        editor_wf(v),
        v.undo.len() > 0,
    ensures
        spec_redo(spec_undo(v)).document.bytes == v.document.bytes,
        spec_redo(spec_undo(v)).undo == v.undo,
        spec_redo(spec_undo(v)).redo == v.redo,
        spec_redo(spec_undo(v)).selection == v.undo.last().after,
{
    reveal(undo_chain);
    lemma_undone_redone(v.document.bytes, v.undo.last());
    let u = spec_undo(v);
    assert(u.redo.last() == v.undo.last());
    assert(u.redo.drop_last() =~= v.redo);
    assert(u.undo.push(v.undo.last()) =~= v.undo);
}

/// Redo, then undo, gives back the text and both histories; the selection
/// becomes the one from before the change.
pub proof fn lemma_redo_then_undo(v: EditorView)
    requires
        editor_wf(v),
        v.redo.len() > 0,
    ensures
        spec_undo(spec_redo(v)).document.bytes == v.document.bytes,
        spec_undo(spec_redo(v)).undo == v.undo,
        spec_undo(spec_redo(v)).redo == v.redo,
        spec_undo(spec_redo(v)).selection == v.redo.last().before,
{
    reveal(redo_chain);
    lemma_redone_undone(v.document.bytes, v.redo.last());
    let r = spec_redo(v);
    assert(r.undo.last() == v.redo.last());
    assert(r.undo.drop_last() =~= v.undo);
    assert(r.redo.push(v.redo.last()) =~= v.redo);
}

/// An edit, then an undo, gives back the text and the selection from before
/// the edit; when the edit continues the last change (typing or deleting one
/// character next to it), the undo takes back both at once.
pub proof fn lemma_edit_then_undo(v: EditorView, lo: int, hi: int, text: Seq<char>, anchor: int, head: int)
    requires
        editor_wf(v),
        0 <= lo <= hi <= v.document.bytes.len(),
        is_boundary(v.document.bytes, lo),
        is_boundary(v.document.bytes, hi),
        !(lo == hi && text.len() == 0),
    ensures
        ({
            let w = spec_undo(applied(v, lo, hi, text, anchor, head));
            if v.undo.len() > 0 && continues(v.undo.last(), new_entry(v, lo, hi, text, anchor, head)) {
                w.document.bytes == spec_undo(v).document.bytes && w.selection == spec_undo(v).selection
            } else {
                w.document.bytes == v.document.bytes && w.selection == v.selection
            }
        }),
{
    let bytes = v.document.bytes;
    let e = new_entry(v, lo, hi, text, anchor, head);
    let piece = encode_utf8(text);
    let nb = bytes.take(lo) + piece + bytes.skip(hi);
    crate::rope::encode_utf8_valid_utf8_of(text);
    crate::rope::lemma_subrange_valid(bytes, lo, hi);
    decode_utf8_encode_utf8(bytes.subrange(lo, hi));
    lemma_splice_bounds(bytes, lo, hi, piece);
    assert(undone(nb, e) =~= bytes);
    let a = applied(v, lo, hi, text, anchor, head);
    if v.undo.len() > 0 && continues(v.undo.last(), e) {
        reveal(undo_chain);
        crate::rope::lemma_decode_empty(bytes.subrange(lo, hi));
        crate::rope::lemma_encode_empty(text);
        lemma_merged_undone(nb, v.undo.last(), e);
        assert(a.undo.last() == merged(v.undo.last(), e));
    } else {
        assert(a.undo.last() == e);
    }
}

/// An edit that changes the text discards what could be redone.
pub proof fn lemma_edit_clears_redo(v: EditorView, lo: int, hi: int, text: Seq<char>, anchor: int, head: int)
    requires
        !(lo == hi && text.len() == 0),
    ensures
        applied(v, lo, hi, text, anchor, head).redo.len() == 0,
{
}

/// Edits, undo and redo never move the revision back.
pub proof fn lemma_revision_never_decreases(v: EditorView, lo: int, hi: int, text: Seq<char>, anchor: int, head: int)
    requires
        v.document.revision < u64::MAX,
    ensures
        applied(v, lo, hi, text, anchor, head).document.revision >= v.document.revision,
        spec_undo(v).document.revision >= v.document.revision,
        spec_redo(v).document.revision >= v.document.revision,
{
}

/// Whether `t` is a line break, `\n` or `\r\n`.
fn is_line_break(t: &str) -> (yes: bool)
    ensures
        yes == (t@ == seq!['\n'] || t@ == seq!['\r', '\n']),
{
    let n = t.unicode_len();
    if n == 1 {
        let c = t.get_char(0);
        assert(c == '\n' ==> t@ =~= seq!['\n']);
        c == '\n'
    } else if n == 2 {
        let c = t.get_char(0);
        let d = t.get_char(1);
        assert(c == '\r' && d == '\n' ==> t@ =~= seq!['\r', '\n']);
        c == '\r' && d == '\n'
    } else {
        false
    }
}

/// The one character of `t`, if it has exactly one.
fn single_char(t: &str) -> (c: Option<char>)
    ensures
        c == if t@.len() == 1 {
            Some(t@[0])
        } else {
            None::<char>
        },
{
    if t.unicode_len() == 1 {
        Some(t.get_char(0))
    } else {
        None
    }
}

/// The bytes of a character, as a string.
fn char_string(c: char) -> (s: String)
    ensures
        s@ == seq![c],
{
    let mut s = String::new();
    push_char(&mut s, c);
    assert(s@ =~= seq![c]);
    s
}

/// The length of a text in bytes.
fn byte_len(t: &str) -> (n: usize)
    ensures
        n == t.spec_bytes().len(),
{
    t.as_bytes().len()
}

fn coalescable(t: &str) -> (yes: bool)
    ensures
        yes == is_coalescable(t@),
{
    if t.unicode_len() != 1 {
        return false;
    }
    let c = t.get_char(0);
    c != '\n' && c != '\r'
}

fn kind_of(deleted: &str, inserted: &str) -> (kind: HistoryKind)
    ensures
        kind == history_kind(deleted@, inserted@),
{
    if deleted.is_empty() && !inserted.is_empty() {
        HistoryKind::Insert
    } else if inserted.is_empty() && !deleted.is_empty() {
        HistoryKind::Delete
    } else {
        HistoryKind::Replace
    }
}

impl HistoryEdit {
    /// Whether `edit` continues this entry.
    fn continued_by(&self, edit: &HistoryEdit) -> (yes: bool)
        ensures
            yes == continues(self@, edit@),
    {
        match (self.kind, edit.kind) {
            (HistoryKind::Insert, HistoryKind::Insert) => {
                coalescable(edit.inserted.as_str()) && self.selection_after == edit.selection_before
                    && self.start.0 <= edit.start.0 && edit.start.0 - self.start.0
                    == byte_len(self.inserted.as_str())
            },
            (HistoryKind::Delete, HistoryKind::Delete) => {
                coalescable(edit.deleted.as_str()) && (self.start.0 >= edit.start.0 && self.start.0
                    - edit.start.0 == byte_len(edit.deleted.as_str()) || self.start.0 == edit.start.0)
            },
            _ => false,
        }
    }

    /// Takes `edit` into this entry.
    fn absorb(&mut self, edit: HistoryEdit)
        requires
            continues(old(self)@, edit@),
        ensures
            final(self)@ == merged(old(self)@, edit@),
    {
        let ghost m = merged(self@, edit@);
        if self.kind == HistoryKind::Insert {
            self.inserted.append(edit.inserted.as_str());
            assert(self.inserted@ =~= m.inserted);
        } else if self.start.0 >= edit.start.0 && self.start.0 - edit.start.0 == byte_len(edit.deleted.as_str()) {
            let mut deleted = edit.deleted;
            deleted.append(self.deleted.as_str());
            self.deleted = deleted;
            self.start = edit.start;
            assert(self.deleted@ =~= m.deleted);
        } else {
            self.deleted.append(edit.deleted.as_str());
            assert(self.deleted@ =~= m.deleted);
        }
        self.selection_after = edit.selection_after;
    }
}

/// The text a line break brings: the break, the blanks that start the line
/// up to the caret, and one more indentation level after an opening bracket.
pub open spec fn newline_text(v: EditorView) -> Seq<char> {
    let bytes = v.document.bytes;
    let head = v.selection.1 as int;
    let start = line_start_of(bytes, line_of(bytes, head));
    let indent = Seq::new(blank_run(bytes, start, head), |i: int| bytes[start + i] as char);
    let extra = match char_before(bytes, head) {
        Some(c) => if c == '{' || c == '[' || c == '(' {
            spec_indent_unit(v.settings.spec_tab_width(), v.settings.spec_indent_with_spaces())
        } else {
            Seq::empty()
        },
        None => Seq::empty(),
    };
    seq!['\n'] + indent + extra
}

/// Typing `c` steps over the same closing character just after the caret.
pub open spec fn skips_closing(v: EditorView, c: char) -> bool {
    &&& v.selection.0 == v.selection.1
    &&& spec_opening_for(v.rules.spec_pairs(), c) is Some
    &&& char_at(v.document.bytes, v.selection.1 as int) == Some(c)
}

/// `v` with the selection wrapped in `open` and `close`: the caret between
/// them when nothing was selected, else the wrapped text selected.
pub open spec fn with_pair(v: EditorView, open: char, close: char) -> EditorView {
    let lo = sel_lo(v.selection);
    let hi = sel_hi(v.selection);
    let inner = decode_utf8(v.document.bytes.subrange(lo, hi));
    let o = encode_utf8(seq![open]).len() as int;
    applied(v, lo, hi, seq![open] + inner + seq![close], o, o + (hi - lo))
}

/// What typing `t` does.
pub open spec fn spec_insert(v: EditorView, t: Seq<char>) -> EditorView {
    if t == seq!['\n'] || t == seq!['\r', '\n'] {
        replaced_selection(v, newline_text(v))
    } else if t.len() == 1 && skips_closing(v, t[0]) {
        EditorView {
            selection: caret(caret_forward(v.document.bytes, v.selection.1 as int)),
            preferred_column: None,
            ..v
        }
    } else if t.len() == 1 && spec_closing_for(v.rules.spec_pairs(), t[0]) is Some {
        with_pair(v, t[0], spec_closing_for(v.rules.spec_pairs(), t[0])->0)
    } else {
        replaced_selection(v, t)
    }
}

/// The caret sits between an opening character and its closing partner.
pub open spec fn pair_around(v: EditorView) -> bool {
    let bytes = v.document.bytes;
    let h = v.selection.1 as int;
    match (char_before(bytes, h), char_at(bytes, h)) {
        (Some(o), Some(c)) => spec_closing_for(v.rules.spec_pairs(), o) == Some(c),
        _ => false,
    }
}

/// What Backspace does: deletes the selection, or both characters of an
/// empty pair around the caret, or the character before the caret.
pub open spec fn spec_backspace(v: EditorView) -> EditorView {
    let bytes = v.document.bytes;
    let h = v.selection.1 as int;
    if v.selection.0 == v.selection.1 {
        if pair_around(v) {
            applied(v, caret_back(bytes, h), caret_forward(bytes, h), Seq::empty(), 0, 0)
        } else {
            replaced_selection(EditorView { selection: (caret_back(bytes, h) as usize, h as usize), ..v }, Seq::empty())
        }
    } else {
        replaced_selection(v, Seq::empty())
    }
}

/// What Delete does: deletes the selection, or the character after the caret.
pub open spec fn spec_delete_forward(v: EditorView) -> EditorView {
    let h = v.selection.1 as int;
    if v.selection.0 == v.selection.1 {
        replaced_selection(
            EditorView { selection: (h as usize, caret_forward(v.document.bytes, h) as usize), ..v },
            Seq::empty(),
        )
    } else {
        replaced_selection(v, Seq::empty())
    }
}

/// The first and last lines the selection touches; a selection that ends
/// at a line start does not touch that line.
pub open spec fn line_span(v: EditorView) -> (int, int) {
    let bytes = v.document.bytes;
    let lo = sel_lo(v.selection);
    let hi = sel_hi(v.selection);
    let first = line_of(bytes, lo);
    let last = if lo == hi || hi == 0 {
        first
    } else {
        let l = line_of(bytes, hi - 1);
        if l > first {
            l
        } else {
            first
        }
    };
    (first, last)
}

/// The text of lines `first` to `last`, their line breaks included.
pub open spec fn line_block_of(bytes: Seq<u8>, first: int, last: int) -> Seq<char> {
    decode_utf8(bytes.subrange(line_start_of(bytes, first), line_full_end_of(bytes, last)))
}

/// What deleting the selected lines does.
pub open spec fn spec_delete_line(v: EditorView) -> EditorView {
    let bytes = v.document.bytes;
    let (first, last) = line_span(v);
    applied(v, line_start_of(bytes, first), line_full_end_of(bytes, last), Seq::empty(), 0, 0)
}

/// What duplicating does: the selection is inserted again after itself, or,
/// with nothing selected, the caret's line after itself; the caret goes
/// after the copy.
pub open spec fn spec_duplicate_line(v: EditorView) -> EditorView {
    let bytes = v.document.bytes;
    let lo = sel_lo(v.selection);
    let hi = sel_hi(v.selection);
    if lo == hi {
        let line = line_of(bytes, v.selection.1 as int);
        let end = line_full_end_of(bytes, line);
        let text = line_block_of(bytes, line, line);
        let insertion = if text.len() > 0 && text.last() == '\n' {
            text
        } else {
            seq!['\n'] + text
        };
        let n = encode_utf8(insertion).len() as int;
        applied(v, end, end, insertion, n, n)
    } else {
        let text = decode_utf8(bytes.subrange(lo, hi));
        applied(v, hi, hi, text, hi - lo, hi - lo)
    }
}

/// Lines `block_start` to `block_end` trade places with the lines from
/// `upper_start` up to them; the moved block ends up selected.
pub open spec fn swapped_lines(v: EditorView, upper_start: int, block_start: int, block_end: int) -> EditorView {
    let bytes = v.document.bytes;
    let upper = line_block_of(bytes, upper_start, if block_start >= 1 { block_start - 1 } else { 0 });
    let block = line_block_of(bytes, block_start, block_end);
    applied(
        v,
        line_start_of(bytes, upper_start),
        line_full_end_of(bytes, block_end),
        block + upper,
        0,
        encode_utf8(block).len() as int,
    )
}

/// What moving the selected lines up does; nothing on the first line.
pub open spec fn spec_move_line_up(v: EditorView) -> EditorView {
    let (first, last) = line_span(v);
    if first == 0 {
        v
    } else {
        swapped_lines(v, first - 1, first, last)
    }
}

/// What moving the selected lines down does; nothing on the last line.
pub open spec fn spec_move_line_down(v: EditorView) -> EditorView {
    let (first, last) = line_span(v);
    if last >= last_line(v.document.bytes) {
        v
    } else {
        swapped_lines(v, first, last + 1, last + 1)
    }
}

/// One indentation level as the settings make it.
pub open spec fn indent_unit_of(v: EditorView) -> Seq<char> {
    spec_indent_unit(v.settings.spec_tab_width(), v.settings.spec_indent_with_spaces())
}

/// `v` with every line the selection touches rewritten by `edit`, the
/// rewritten lines then selected.
pub open spec fn mapped_lines(v: EditorView, edit: LineEdit) -> EditorView {
    let bytes = v.document.bytes;
    let (first, last) = line_span(v);
    let start = line_start_of(bytes, first);
    let end = line_full_end_of(bytes, last);
    let rebuilt = rewrite_lines(edit, decode_utf8(bytes.subrange(start, end)));
    applied(v, start, end, rebuilt, 0, encode_utf8(rebuilt).len() as int)
}

/// What Tab does: one indentation level in place of an empty selection, or
/// in front of every selected line.
pub open spec fn spec_indent(v: EditorView) -> EditorView {
    if v.selection.0 == v.selection.1 {
        replaced_selection(v, indent_unit_of(v))
    } else {
        mapped_lines(v, LineEdit::Indent(indent_unit_of(v)))
    }
}

/// What Shift+Tab does: one indentation level off every selected line.
pub open spec fn spec_outdent(v: EditorView) -> EditorView {
    mapped_lines(v, LineEdit::Outdent(indent_unit_of(v), v.settings.spec_tab_width() as nat))
}

/// Line `index` exists and starts, after its leading whitespace, with `prefix`.
pub open spec fn line_commented(bytes: Seq<u8>, index: int, prefix: Seq<char>) -> bool {
    let c = decode_utf8(bytes.subrange(line_start_of(bytes, index), line_content_end_of(bytes, index)));
    index < line_count(bytes) && is_prefix(prefix, c.skip(leading_ws(c) as int))
}

/// What toggling line comments does: with no comment syntax, nothing; when
/// every selected line is commented, the comment markers come off; else each
/// selected line that is not blank gets one.
pub open spec fn spec_toggle_line_comment(v: EditorView) -> EditorView {
    match v.rules.spec_line_comment() {
        None => v,
        Some(p) => {
            let (first, last) = line_span(v);
            if forall|i: int| first <= i <= last ==> line_commented(v.document.bytes, i, p@) {
                mapped_lines(v, LineEdit::Uncomment(p@))
            } else {
                mapped_lines(v, LineEdit::Comment(p@))
            }
        },
    }
}

/// The byte length of a query's text.
pub open spec fn query_len(q: SearchQuery) -> int {
    encode_utf8(q.text@).len() as int
}

/// Where `q` is found from `from`, starting over from the start (going
/// forward) or the end (going backward) when there is no match that way.
pub open spec fn found_wrapping(h: Seq<char>, q: SearchQuery, from: int, forward: bool) -> Option<int> {
    match found_in(h, q, from, forward) {
        Some(a) => Some(a),
        None => found_in(h, q, if forward { 0 } else { encode_utf8(h).len() as int }, forward),
    }
}

/// The start of the match that find next (`forward`) or find previous
/// selects, if any.
pub open spec fn find_target(v: EditorView, q: SearchQuery, forward: bool) -> Option<int> {
    if q.text@.len() == 0 {
        None
    } else {
        found_wrapping(
            decode_utf8(v.document.bytes),
            q,
            if forward { sel_hi(v.selection) } else { sel_lo(v.selection) },
            forward,
        )
    }
}

/// `v` with the match that find next or find previous reaches selected.
pub open spec fn spec_find(v: EditorView, q: SearchQuery, forward: bool) -> EditorView {
    match find_target(v, q, forward) {
        Some(a) => EditorView { selection: (a as usize, (a + query_len(q)) as usize), preferred_column: None, ..v },
        None => v,
    }
}

/// The selection is a match of `q` and is replaced by `replacement`, then
/// the next match is selected.
pub open spec fn spec_replace_match(v: EditorView, q: SearchQuery, replacement: Seq<char>) -> EditorView {
    let selected = decode_utf8(v.document.bytes.subrange(sel_lo(v.selection), sel_hi(v.selection)));
    if is_search_match_spec(selected, q) {
        spec_find(replaced_selection(v, replacement), q, true)
    } else {
        spec_find(v, q, true)
    }
}

/// The starts of the successive forward matches from `cursor`, each search
/// going on after the previous match.
pub open spec fn all_matches(h: Seq<char>, q: SearchQuery, cursor: int) -> Seq<int>
    decreases encode_utf8(h).len() + 1 - cursor,
{
    if cursor < 0 || cursor > encode_utf8(h).len() {
        Seq::empty()
    } else {
        match found_in(h, q, cursor, true) {
            None => Seq::empty(),
            Some(a) => {
                proof {
                    lemma_found_forward(h, q, cursor);
                }
                seq![a] + all_matches(h, q, a + query_len(q))
            },
        }
    }
}

/// The text with each match, from `last` on, replaced.
pub open spec fn rebuilt_text(bytes: Seq<u8>, ms: Seq<int>, n: int, r: Seq<char>, last: int) -> Seq<char>
    decreases ms.len(),
{
    if ms.len() == 0 {
        decode_utf8(bytes.subrange(last, bytes.len() as int))
    } else {
        decode_utf8(bytes.subrange(last, ms[0])) + r + rebuilt_text(bytes, ms.drop_first(), n, r, ms[0] + n)
    }
}

/// The matches lie in order from `last`, between character boundaries.
pub open spec fn well_spaced(bytes: Seq<u8>, ms: Seq<int>, n: int, last: int) -> bool
    decreases ms.len(),
{
    &&& 0 <= last <= bytes.len()
    &&& is_boundary(bytes, last)
    &&& (ms.len() > 0 ==> {
        &&& last <= ms[0]
        &&& ms[0] + n <= bytes.len()
        &&& is_boundary(bytes, ms[0])
        &&& well_spaced(bytes, ms.drop_first(), n, ms[0] + n)
    })
}

/// The greatest character boundary at or before `o`.
pub open spec fn floor_boundary(bytes: Seq<u8>, o: int) -> int {
    if is_boundary(bytes, o) {
        o
    } else {
        prev_boundary(bytes, o)
    }
}

/// What replace-all does: every match replaced, the caret kept where it was
/// (within the new text, moved back to a character boundary); with no match
/// nothing changes. The count of matches goes with it.
pub open spec fn spec_replace_all(v: EditorView, q: SearchQuery, replacement: Seq<char>) -> (EditorView, nat) {
    let bytes = v.document.bytes;
    let ms = all_matches(decode_utf8(bytes), q, 0);
    if q.text@.len() == 0 || ms.len() == 0 {
        (v, 0)
    } else {
        let text = rebuilt_text(bytes, ms, query_len(q), replacement, 0);
        let tb = encode_utf8(text);
        let head = v.selection.1 as int;
        let caret = floor_boundary(tb, if tb.len() < head { tb.len() as int } else { head });
        (applied(v, 0, bytes.len() as int, text, caret, caret), ms.len())
    }
}

proof fn lemma_all_matches_spaced(h: Seq<char>, q: SearchQuery, cursor: int)
    requires
        0 <= cursor <= encode_utf8(h).len(),
        is_boundary(encode_utf8(h), cursor),
    ensures
        well_spaced(encode_utf8(h), all_matches(h, q, cursor), query_len(q), cursor),
    decreases encode_utf8(h).len() + 1 - cursor,
{
    lemma_found_forward(h, q, cursor);
    match found_in(h, q, cursor, true) {
        None => {},
        Some(a) => {
            lemma_all_matches_spaced(h, q, a + query_len(q));
            let ms = all_matches(h, q, cursor);
            assert(ms.drop_first() =~= all_matches(h, q, a + query_len(q)));
        },
    }
}

/// `c` opens or closes a pair of the rules.
pub open spec fn is_bracket(rules: LanguageEditRules, c: char) -> bool {
    spec_closing_for(rules.spec_pairs(), c) is Some || spec_opening_for(rules.spec_pairs(), c) is Some
}

/// The number of bytes of a character.
pub open spec fn char_width(c: char) -> int {
    encode_utf8(seq![c]).len() as int
}

/// Scanning forward from the character at `p`, with `depth` brackets open,
/// for the `close` that brings the depth to zero.
pub open spec fn match_forward(bytes: Seq<u8>, p: int, depth: int, open: char, close: char) -> Option<int>
    decreases bytes.len() - p,
{
    if p < 0 || p >= bytes.len() {
        None
    } else {
        let c = char_starting(bytes, p);
        proof {
            lemma_next_boundary(bytes, p);
        }
        if c == open {
            match_forward(bytes, next_boundary(bytes, p), depth + 1, open, close)
        } else if c == close {
            if depth - 1 == 0 {
                Some(p)
            } else {
                match_forward(bytes, next_boundary(bytes, p), depth - 1, open, close)
            }
        } else {
            match_forward(bytes, next_boundary(bytes, p), depth, open, close)
        }
    }
}

/// Scanning backward from the character at `p`, with `depth` brackets
/// closed, for the `open` that brings the depth to zero.
pub open spec fn match_backward(bytes: Seq<u8>, p: int, depth: int, open: char, close: char) -> Option<int>
    decreases p,
{
    if p < 0 || p >= bytes.len() {
        None
    } else {
        let c = char_starting(bytes, p);
        let d = if c == close {
            depth + 1
        } else if c == open {
            depth - 1
        } else {
            depth
        };
        if c != close && c == open && d == 0 {
            Some(p)
        } else if p == 0 {
            None
        } else {
            proof {
                lemma_prev_boundary(bytes, p);
            }
            match_backward(bytes, prev_boundary(bytes, p), d, open, close)
        }
    }
}

/// The bracket `ch` at `offset` and its partner, as (opening, closing)
/// ranges, when the partner is found.
pub open spec fn bracket_pair_at(bytes: Seq<u8>, rules: LanguageEditRules, offset: int, ch: char) -> Option<
    ((int, int), (int, int)),
> {
    let pairs = rules.spec_pairs();
    let open = match spec_opening_for(pairs, ch) {
        Some(o) => o,
        None => ch,
    };
    let close = match spec_closing_for(pairs, ch) {
        Some(c) => Some(c),
        None => spec_closing_for(pairs, open),
    };
    match close {
        None => None,
        Some(close) => {
            let origin = (offset, offset + char_width(ch));
            let forward = (spec_closing_for(pairs, ch) is Some && spec_opening_for(pairs, ch) != Some(ch)) || (ch
                == open && ch != close);
            if ch == close && ch != open {
                match match_backward(bytes, offset, 0, open, close) {
                    Some(p) => Some(((p, p + char_width(open)), origin)),
                    None => None,
                }
            } else if forward {
                match match_forward(bytes, offset, 0, open, close) {
                    Some(p) => Some((origin, (p, p + char_width(close)))),
                    None => None,
                }
            } else {
                None
            }
        },
    }
}

/// The bracket at the caret (or just before it) and its partner.
pub open spec fn spec_matching_brackets(v: EditorView) -> Option<((int, int), (int, int))> {
    let bytes = v.document.bytes;
    let h = v.selection.1 as int;
    let at = char_at(bytes, h);
    let before = char_before(bytes, h);
    if at is Some && is_bracket(v.rules, at->0) {
        bracket_pair_at(bytes, v.rules, h, at->0)
    } else if before is Some && is_bracket(v.rules, before->0) {
        bracket_pair_at(bytes, v.rules, caret_back(bytes, h), before->0)
    } else {
        None
    }
}

proof fn lemma_match_forward(bytes: Seq<u8>, p: int, depth: int, open: char, close: char)
    requires
        0 <= p,
    ensures
        match_forward(bytes, p, depth, open, close) matches Some(q) ==> p <= q < bytes.len() && char_starting(
            bytes,
            q,
        ) == close && (q == p || is_boundary(bytes, q)),
    decreases bytes.len() - p,
{
    if 0 <= p < bytes.len() {
        lemma_next_boundary(bytes, p);
        let c = char_starting(bytes, p);
        let d = if c == open {
            depth + 1
        } else if c == close {
            depth - 1
        } else {
            depth
        };
        lemma_match_forward(bytes, next_boundary(bytes, p), d, open, close);
    }
}

proof fn lemma_match_backward(bytes: Seq<u8>, p: int, depth: int, open: char, close: char)
    ensures
        match_backward(bytes, p, depth, open, close) matches Some(q) ==> 0 <= q <= p && char_starting(bytes, q)
            == open && (q == p || is_boundary(bytes, q)),
    decreases p,
{
    if 0 < p < bytes.len() {
        lemma_prev_boundary(bytes, p);
        let c = char_starting(bytes, p);
        let d = if c == close {
            depth + 1
        } else if c == open {
            depth - 1
        } else {
            depth
        };
        lemma_match_backward(bytes, prev_boundary(bytes, p), d, open, close);
    }
}

/// A character that starts within valid text ends within it.
proof fn lemma_char_width_fits(bytes: Seq<u8>, p: int)
    requires
        valid_utf8(bytes),
        0 <= p < bytes.len(),
        is_boundary(bytes, p),
    ensures
        p + char_width(char_starting(bytes, p)) <= bytes.len(),
{
    let tail = bytes.skip(p);
    assert(tail =~= bytes.subrange(p, bytes.len() as int));
    crate::rope::lemma_subrange_valid(bytes, p, bytes.len() as int);
    crate::rope::lemma_decode_empty(tail);
    let d = decode_utf8(tail);
    decode_utf8_encode_utf8(tail);
    assert(d =~= seq![d[0]] + d.drop_first());
    lemma_encode_concat(seq![d[0]], d.drop_first());
}

/// What an editor holds.
pub struct EditorView {
    pub document: DocumentView,
    pub selection: (usize, usize),
    pub preferred_column: Option<usize>,
    pub undo: Seq<HistoryView>,
    pub redo: Seq<HistoryView>,
    pub settings: EditorSettings,
    pub rules: LanguageEditRules,
}

/// The editor's invariant: valid text, a valid selection, and undo and redo
/// stacks that can each be replayed.
pub open spec fn editor_wf(v: EditorView) -> bool {
    &&& valid_utf8(v.document.bytes)
    &&& valid_selection(v.document.bytes, v.selection)
    &&& undo_chain(v.document.bytes, v.undo)
    &&& redo_chain(v.document.bytes, v.redo)
    &&& v.undo.len() + v.redo.len() <= HISTORY_LIMIT
}

/// `v` with the selection moved to `target`: the head alone when extending,
/// else both ends.
pub open spec fn moved(v: EditorView, target: int, extend: bool) -> EditorView {
    EditorView {
        selection: if extend {
            (v.selection.0, target as usize)
        } else {
            caret(target)
        },
        preferred_column: None,
        ..v
    }
}

/// The column a vertical motion aims for.
pub open spec fn goal_column(v: EditorView) -> nat {
    match v.preferred_column {
        Some(c) => c as nat,
        None => column_of(v.document.bytes, v.selection.1 as int),
    }
}

/// `v` with the head moved to line `line`, keeping the goal column.
pub open spec fn moved_vertically(v: EditorView, line: int, extend: bool) -> EditorView {
    let column = goal_column(v);
    let target = offset_at_column(v.document.bytes, line, column);
    EditorView {
        selection: if extend {
            (v.selection.0, target as usize)
        } else {
            caret(target)
        },
        preferred_column: Some(column as usize),
        ..v
    }
}

pub open spec fn is_blank_byte(b: u8) -> bool {
    b == 0x20 || b == 0x09
}

/// The number of spaces and tabs from `start`, stopping at `end`.
pub open spec fn blank_run(bytes: Seq<u8>, start: int, end: int) -> nat
    decreases end - start,
{
    if start < end && 0 <= start < bytes.len() && is_blank_byte(bytes[start]) {
        1 + blank_run(bytes, start + 1, end)
    } else {
        0
    }
}

fn is_blank(b: u8) -> (blank: bool)
    ensures
        blank == is_blank_byte(b),
{
    b == 0x20u8 || b == 0x09u8
}

/// Where the Home key goes from the head: to the first non-blank character
/// of the line, or to the line start when already there.
pub open spec fn home_target(bytes: Seq<u8>, head: int) -> int {
    let line = line_of(bytes, head);
    let start = line_start_of(bytes, line);
    let indented = start + blank_run(bytes, start, line_content_end_of(bytes, line));
    if head == indented {
        start
    } else {
        indented
    }
}

/// UI-independent editing state for one document.
pub struct Editor {
    document: Document,
    selection: Selection,
    preferred_column: Option<usize>,
    undo_stack: Vec<HistoryEdit>,
    redo_stack: Vec<HistoryEdit>,
    settings: EditorSettings,
    edit_rules: LanguageEditRules,
}

impl View for Editor {
    type V = EditorView;

    closed spec fn view(&self) -> EditorView {
        EditorView {
            document: self.document@,
            selection: self.selection@,
            preferred_column: self.preferred_column,
            undo: history_views(self.undo_stack@),
            redo: history_views(self.redo_stack@),
            settings: self.settings,
            rules: self.edit_rules,
        }
    }
}

impl Editor {
    pub open spec fn wf(&self) -> bool {
        editor_wf(self@)
    }

    /// An editor on `document` with the caret at the start, no history, the
    /// default settings and the default edit rules.
    pub fn new(document: Document) -> (editor: Self)
        requires
            document.wf(),
        ensures
            editor.wf(),
            editor@.document == document@,
            editor@.selection == caret(0),
            editor@.preferred_column is None,
            editor@.undo.len() == 0,
            editor@.redo.len() == 0,
            editor@.settings.spec_tab_width() == 4,
            editor@.settings.spec_indent_with_spaces(),
            editor@.rules.spec_line_comment() is None,
            editor@.rules.spec_pairs() == LanguageEditRules::DEFAULT_PAIRS@,
    {
        let editor = Editor {
            document,
            selection: Selection::default(),
            preferred_column: None,
            undo_stack: Vec::new(),
            redo_stack: Vec::new(),
            settings: EditorSettings::default(),
            edit_rules: LanguageEditRules::default(),
        };
        assert(history_views(editor.undo_stack@) =~= Seq::empty());
        assert(history_views(editor.redo_stack@) =~= Seq::empty());
        proof {
            reveal(undo_chain);
            reveal(redo_chain);
        }
        editor
    }

    pub fn settings(&self) -> (settings: EditorSettings)
        ensures
            settings == self@.settings,
    {
        self.settings
    }

    pub fn set_settings(&mut self, settings: EditorSettings)
        ensures
            final(self)@ == (EditorView { settings, ..old(self)@ }),
    {
        self.settings = settings;
    }

    pub fn edit_rules(&self) -> (rules: LanguageEditRules)
        ensures
            rules == self@.rules,
    {
        self.edit_rules
    }

    pub fn set_edit_rules(&mut self, rules: LanguageEditRules)
        ensures
            final(self)@ == (EditorView { rules, ..old(self)@ }),
    {
        self.edit_rules = rules;
    }

    pub fn document(&self) -> (document: &Document)
        ensures
            document@ == self@.document,
    {
        &self.document
    }

    /// Records the current text as saved, once it has been written out.
    pub fn mark_saved(&mut self)
        ensures
            final(self)@ == (EditorView {
                document: DocumentView { saved: old(self)@.document.bytes, ..old(self)@.document },
                ..old(self)@
            }),
    {
        self.document.mark_saved();
    }

    pub fn selection(&self) -> (selection: Selection)
        ensures
            selection@ == self@.selection,
    {
        self.selection
    }

    /// The caret: the selection's head.
    pub fn cursor(&self) -> (cursor: ByteOffset)
        ensures
            cursor.0 == self@.selection.1,
    {
        self.selection.head
    }

    /// Selects from `anchor` to `head` when both are valid caret positions.
    pub fn set_selection(&mut self, anchor: ByteOffset, head: ByteOffset) -> (result: Result<(), EditError>)
        requires
            old(self).wf(),
        ensures
            final(self).wf(),
            match offset_error(old(self)@.document.bytes, anchor) {
                Some(error) => result == Err::<(), EditError>(error) && final(self)@ == old(self)@,
                None => match offset_error(old(self)@.document.bytes, head) {
                    Some(error) => result == Err::<(), EditError>(error) && final(self)@ == old(self)@,
                    None => result is Ok && final(self)@ == (EditorView {
                        selection: (anchor.0, head.0),
                        preferred_column: None,
                        ..old(self)@
                    }),
                },
            },
    {
        self.document.validate_offset(anchor)?;
        self.document.validate_offset(head)?;
        self.selection = Selection::new(anchor, head);
        self.preferred_column = None;
        Ok(())
    }

    fn move_to(&mut self, target: ByteOffset, extend: bool)
        requires
            old(self).wf(),
            valid_offset(old(self)@.document.bytes, target.0 as int),
        ensures
            final(self).wf(),
            final(self)@ == moved(old(self)@, target.0 as int, extend),
    {
        self.selection = if extend {
            Selection::new(self.selection.anchor, target)
        } else {
            Selection::new(target, target)
        };
        self.preferred_column = None;
    }

    fn move_vertically(&mut self, target_line: usize, extend: bool)
        requires
            old(self).wf(),
            target_line <= last_line(old(self)@.document.bytes),
        ensures
            final(self).wf(),
            final(self)@ == moved_vertically(old(self)@, target_line as int, extend),
    {
        let column = match self.preferred_column {
            Some(c) => c,
            None => self.document.char_column_at(self.selection.head),
        };
        let target = match self.document.offset_for_line_column(target_line, column) {
            Some(t) => t,
            None => {
                return;
            },
        };
        self.selection = if extend {
            Selection::new(self.selection.anchor, target)
        } else {
            Selection::new(target, target)
        };
        self.preferred_column = Some(column);
    }

    /// Collapses a selection to its lower end, or moves one caret step back;
    /// with `extend`, moves only the head.
    pub fn move_left(&mut self, extend: bool)
        requires
            old(self).wf(),
        ensures
            final(self).wf(),
            final(self)@ == moved(
                old(self)@,
                if !extend && old(self)@.selection.0 != old(self)@.selection.1 {
                    sel_lo(old(self)@.selection)
                } else {
                    caret_back(old(self)@.document.bytes, old(self)@.selection.1 as int)
                },
                extend,
            ),
    {
        let target = if !extend && !self.selection.is_empty() {
            self.selection.range().start
        } else {
            self.document.previous_char_boundary(self.selection.head)
        };
        self.move_to(target, extend);
    }

    /// Collapses a selection to its upper end, or moves one caret step
    /// forward; with `extend`, moves only the head.
    pub fn move_right(&mut self, extend: bool)
        requires
            old(self).wf(),
        ensures
            final(self).wf(),
            final(self)@ == moved(
                old(self)@,
                if !extend && old(self)@.selection.0 != old(self)@.selection.1 {
                    sel_hi(old(self)@.selection)
                } else {
                    caret_forward(old(self)@.document.bytes, old(self)@.selection.1 as int)
                },
                extend,
            ),
    {
        let target = if !extend && !self.selection.is_empty() {
            self.selection.range().end
        } else {
            self.document.next_char_boundary(self.selection.head)
        };
        self.move_to(target, extend);
    }

    /// Moves the head one line up, aiming for the goal column; on the first
    /// line nothing changes.
    pub fn move_up(&mut self, extend: bool)
        requires
            old(self).wf(),
        ensures
            final(self).wf(),
            ({
                let v = old(self)@;
                let line = line_of(v.document.bytes, v.selection.1 as int);
                final(self)@ == if line == 0 {
                    v
                } else {
                    moved_vertically(v, line - 1, extend)
                }
            }),
    {
        let current_line = self.document.line_index_at(self.selection.head);
        if current_line == 0 {
            return;
        }
        proof {
            crate::document::lemma_line_start_order(
                self@.document.bytes,
                current_line as int,
                self@.selection.1 as int,
            );
        }
        self.move_vertically(current_line - 1, extend);
    }

    /// Moves the head one line down, aiming for the goal column; on the last
    /// line nothing changes.
    pub fn move_down(&mut self, extend: bool)
        requires
            old(self).wf(),
        ensures
            final(self).wf(),
            ({
                let v = old(self)@;
                let line = line_of(v.document.bytes, v.selection.1 as int);
                final(self)@ == if line >= last_line(v.document.bytes) {
                    v
                } else {
                    moved_vertically(v, line + 1, extend)
                }
            }),
    {
        let current_line = self.document.line_index_at(self.selection.head);
        if current_line >= self.document.last_line_index() {
            return;
        }
        self.move_vertically(current_line + 1, extend);
    }

    /// Selects the whole text, the head at the end.
    pub fn select_all(&mut self)
        requires
            old(self).wf(),
        ensures
            final(self).wf(),
            final(self)@ == (EditorView {
                selection: (0usize, old(self)@.document.bytes.len() as usize),
                preferred_column: None,
                ..old(self)@
            }),
    {
        let len = self.document.len_bytes();
        self.selection = Selection::new(ByteOffset(0), ByteOffset(len));
        self.preferred_column = None;
    }

    pub fn move_word_left(&mut self, extend: bool)
        requires
            old(self).wf(),
        ensures
            final(self).wf(),
            final(self)@ == moved(
                old(self)@,
                previous_word_boundary_of(old(self)@.document.bytes, old(self)@.selection.1 as int),
                extend,
            ),
    {
        let target = self.document.previous_word_boundary(self.selection.head);
        self.move_to(target, extend);
    }

    pub fn move_word_right(&mut self, extend: bool)
        requires
            old(self).wf(),
        ensures
            final(self).wf(),
            final(self)@ == moved(
                old(self)@,
                next_word_boundary_of(old(self)@.document.bytes, old(self)@.selection.1 as int),
                extend,
            ),
    {
        let target = self.document.next_word_boundary(self.selection.head);
        self.move_to(target, extend);
    }

    /// Home: to the first non-blank character of the line, or to the line
    /// start when already there.
    pub fn move_line_start(&mut self, extend: bool)
        requires
            old(self).wf(),
        ensures
            final(self).wf(),
            final(self)@ == moved(
                old(self)@,
                home_target(old(self)@.document.bytes, old(self)@.selection.1 as int),
                extend,
            ),
    {
        let ghost bytes = self@.document.bytes;
        let head = self.selection.head;
        let line = self.document.line_index_at(head);
        proof {
            crate::document::lemma_line_start_order(bytes, line as int, head.0 as int);
            crate::document::lemma_line_ends(bytes, line as int);
            crate::document::lemma_line_start(bytes, line as int);
        }
        let start = match self.document.line_start(line) {
            Some(s) => s.0,
            None => 0,
        };
        let content_end = match self.document.line_content_end(line) {
            Some(e) => e.0,
            None => self.document.len_bytes(),
        };
        let mut i = start;
        while i < content_end && is_blank(self.document.byte_at(i))
            invariant
                bytes == self@.document.bytes,
                start <= i <= content_end <= bytes.len(),
                blank_run(bytes, start as int, content_end as int) == (i - start) + blank_run(
                    bytes,
                    i as int,
                    content_end as int,
                ),
                forall|k: int| start <= k < i ==> is_blank_byte(bytes[k]),
            decreases content_end - i,
        {
            i = i + 1;
        }
        proof {
            assert(blank_run(bytes, i as int, content_end as int) == 0);
            if i > start {
                crate::rope::lemma_after_ascii_is_boundary(bytes, i as int);
            }
        }
        let target = if head.0 == i {
            ByteOffset(start)
        } else {
            ByteOffset(i)
        };
        self.move_to(target, extend);
    }

    /// End: to the end of the line's content, before its line break.
    pub fn move_line_end(&mut self, extend: bool)
        requires
            old(self).wf(),
        ensures
            final(self).wf(),
            final(self)@ == moved(
                old(self)@,
                line_content_end_of(
                    old(self)@.document.bytes,
                    line_of(old(self)@.document.bytes, old(self)@.selection.1 as int),
                ),
                extend,
            ),
    {
        let ghost bytes = self@.document.bytes;
        let line = self.document.line_index_at(self.selection.head);
        proof {
            crate::document::lemma_line_start_order(bytes, line as int, self@.selection.1 as int);
            crate::document::lemma_line_ends(bytes, line as int);
        }
        let target = match self.document.line_content_end(line) {
            Some(e) => e,
            None => ByteOffset(self.document.len_bytes()),
        };
        self.move_to(target, extend);
    }

    pub fn move_document_start(&mut self, extend: bool)
        requires
            old(self).wf(),
        ensures
            final(self).wf(),
            final(self)@ == moved(old(self)@, 0, extend),
    {
        self.move_to(ByteOffset(0), extend);
    }

    pub fn move_document_end(&mut self, extend: bool)
        requires
            old(self).wf(),
        ensures
            final(self).wf(),
            final(self)@ == moved(old(self)@, old(self)@.document.bytes.len() as int, extend),
    {
        let len = self.document.len_bytes();
        self.move_to(ByteOffset(len), extend);
    }

    /// Moves the head `lines` lines up (at least one), stopping at the first
    /// line, aiming for the goal column.
    #[verifier::rlimit(40)]
    pub fn page_up(&mut self, lines: usize, extend: bool)
        requires
            old(self).wf(),
        ensures
            final(self).wf(),
            ({
                let v = old(self)@;
                let line = line_of(v.document.bytes, v.selection.1 as int);
                let step = if lines == 0 {
                    1
                } else {
                    lines as int
                };
                final(self)@ == moved_vertically(
                    v,
                    if line >= step {
                        line - step
                    } else {
                        0
                    },
                    extend,
                )
            }),
    {
        let current = self.document.line_index_at(self.selection.head);
        proof {
            crate::document::lemma_line_start_order(
                self@.document.bytes,
                current as int,
                self@.selection.1 as int,
            );
        }
        let step = if lines == 0 {
            1
        } else {
            lines
        };
        let target = current.saturating_sub(step);
        self.move_vertically(target, extend);
    }

    /// Moves the head `lines` lines down (at least one), stopping at the last
    /// line, aiming for the goal column.
    #[verifier::rlimit(40)]
    pub fn page_down(&mut self, lines: usize, extend: bool)
        requires
            old(self).wf(),
        ensures
            final(self).wf(),
            ({
                let v = old(self)@;
                let line = line_of(v.document.bytes, v.selection.1 as int);
                let step = if lines == 0 {
                    1
                } else {
                    lines as int
                };
                let last = last_line(v.document.bytes);
                final(self)@ == moved_vertically(
                    v,
                    if line + step <= last {
                        line + step
                    } else {
                        last
                    },
                    extend,
                )
            }),
    {
        let current = self.document.line_index_at(self.selection.head);
        let last = self.document.last_line_index();
        let step = if lines == 0 {
            1
        } else {
            lines
        };
        let sum = current.saturating_add(step);
        let target = if sum < last {
            sum
        } else {
            last
        };
        self.move_vertically(target, extend);
    }

    /// Puts the caret at the start of line `line_number`, counted from 1 and
    /// clamped to the document's lines.
    pub fn go_to_line(&mut self, line_number: usize)
        requires
            old(self).wf(),
        ensures
            final(self).wf(),
            ({
                let bytes = old(self)@.document.bytes;
                let index = if line_number == 0 {
                    0
                } else {
                    line_number - 1
                };
                let clamped = if index <= last_line(bytes) {
                    index
                } else {
                    last_line(bytes)
                };
                final(self)@ == moved(old(self)@, line_start_of(bytes, clamped), false)
            }),
    {
        let last = self.document.last_line_index();
        let index = line_number.saturating_sub(1);
        let clamped = if index < last {
            index
        } else {
            last
        };
        proof {
            crate::document::lemma_line_start(self@.document.bytes, clamped as int);
        }
        let target = match self.document.line_start(clamped) {
            Some(s) => s,
            None => ByteOffset(0),
        };
        self.move_to(target, false);
    }

    /// Records a change just made to the text: merged into the last entry
    /// when it continues it, else pushed, the oldest entry dropped past the
    /// limit; the redo history is discarded.
    fn record_edit(&mut self, edit: HistoryEdit)
        requires
            valid_utf8(old(self)@.document.bytes),
            valid_selection(old(self)@.document.bytes, old(self)@.selection),
            holds_at(old(self)@.document.bytes, edit@.start, encode_utf8(edit@.inserted)),
            edit@.deleted.len() + edit@.inserted.len() > 0,
            edit@.kind == history_kind(edit@.deleted, edit@.inserted),
            valid_selection(old(self)@.document.bytes, edit@.after),
            valid_selection(undone(old(self)@.document.bytes, edit@), edit@.before),
            undo_chain(undone(old(self)@.document.bytes, edit@), old(self)@.undo),
            old(self)@.undo.len() <= HISTORY_LIMIT,
        ensures
            final(self).wf(),
            final(self)@ == (EditorView { undo: recorded(old(self)@.undo, edit@), redo: Seq::empty(), ..old(self)@ }),
    {
        let ghost e = edit@;
        let ghost old_stack = self.undo_stack@;
        proof {
            lemma_recorded_chain(self@.document.bytes, self@.undo, e);
            reveal(redo_chain);
        }
        let n = self.undo_stack.len();
        if n > 0 && self.undo_stack[n - 1].continued_by(&edit) {
            let mut last = self.undo_stack.pop().unwrap();
            last.absorb(edit);
            self.undo_stack.push(last);
            assert(history_views(self.undo_stack@) =~= history_views(old_stack).drop_last().push(
                merged(history_views(old_stack).last(), e),
            ));
        } else {
            self.undo_stack.push(edit);
            assert(history_views(self.undo_stack@) =~= history_views(old_stack).push(e));
            if self.undo_stack.len() > HISTORY_LIMIT {
                let ghost pushed = self.undo_stack@;
                self.undo_stack.remove(0);
                assert(history_views(self.undo_stack@) =~= history_views(pushed).drop_first());
            }
        }
        self.redo_stack.clear();
        assert(history_views(self.redo_stack@) =~= Seq::empty());
    }

    /// Replaces the bytes of a valid `range` by `text`, then selects from
    /// `anchor` to `head` bytes after the range's start, recording the change.
    fn apply_replacement(&mut self, range: ByteRange, text: &str, anchor: usize, head: usize) -> (result: Result<
        Revision,
        EditError,
    >)
        requires
            old(self).wf(),
            old(self)@.document.revision < u64::MAX,
            range_error(old(self)@.document.bytes, range) is None,
            anchor <= text.spec_bytes().len(),
            head <= text.spec_bytes().len(),
            valid_offset(splice(old(self)@.document.bytes, range, text.spec_bytes()), range.lo() + anchor),
            valid_offset(splice(old(self)@.document.bytes, range, text.spec_bytes()), range.lo() + head),
        ensures
            final(self).wf(),
            final(self)@ == applied(old(self)@, range.lo(), range.hi(), text@, anchor as int, head as int),
            result == Ok::<Revision, EditError>(Revision(final(self)@.document.revision)),
    {
        let ghost bytes = self@.document.bytes;
        let selection_before = self.selection;
        let deleted = self.document.text_in(range)?;
        proof {
            crate::rope::lemma_subrange_valid(bytes, range.lo(), range.hi());
            crate::rope::lemma_decode_empty(bytes.subrange(range.lo(), range.hi()));
        }
        if deleted.as_str().is_empty() && text.is_empty() {
            return Ok(self.document.revision());
        }
        let revision = self.document.replace(range, text)?;
        let len = self.document.len_bytes();
        proof {
            lemma_str_bytes_valid(text);
            lemma_splice_bounds(bytes, range.lo(), range.hi(), text.spec_bytes());
            decode_utf8_encode_utf8(bytes.subrange(range.lo(), range.hi()));
        }
        let after = Selection::new(ByteOffset(range.start.0 + anchor), ByteOffset(range.start.0 + head));
        self.selection = after;
        self.preferred_column = None;
        let kind = kind_of(deleted.as_str(), text);
        let edit = HistoryEdit {
            start: range.start,
            deleted,
            inserted: text.to_owned(),
            selection_before,
            selection_after: after,
            kind,
        };
        proof {
            let nb = self@.document.bytes;
            assert(undone(nb, edit@) =~= bytes);
        }
        self.record_edit(edit);
        Ok(revision)
    }

    /// Replaces the selection by `text`, the caret after it.
    fn replace_selection(&mut self, text: &str) -> (result: Result<Revision, EditError>)
        requires
            old(self).wf(),
            old(self)@.document.revision < u64::MAX,
        ensures
            final(self).wf(),
            final(self)@ == replaced_selection(old(self)@, text@),
            result == Ok::<Revision, EditError>(Revision(final(self)@.document.revision)),
    {
        let ghost bytes = self@.document.bytes;
        let range = self.selection.range();
        proof {
            lemma_str_bytes_valid(text);
            lemma_splice_bounds(bytes, range.lo(), range.hi(), text.spec_bytes());
        }
        let n = byte_len(text);
        self.apply_replacement(range, text, n, n)
    }

    /// Takes back the last change, restoring the text and the selection from
    /// before it; with nothing to undo, nothing changes.
    pub fn undo(&mut self) -> (result: Result<Revision, EditError>)
        requires
            old(self).wf(),
            old(self)@.document.revision < u64::MAX,
        ensures
            final(self).wf(),
            final(self)@ == spec_undo(old(self)@),
            result == Ok::<Revision, EditError>(Revision(final(self)@.document.revision)),
    {
        let ghost v = self@;
        let len = self.document.len_bytes();
        let edit = match self.undo_stack.pop() {
            Some(edit) => edit,
            None => {
                return Ok(self.document.revision());
            },
        };
        assert(history_views(self.undo_stack@) =~= v.undo.drop_last());
        assert(edit@ == v.undo.last());
        proof {
            lemma_undo_step(v);
        }
        let start = edit.start.0;
        let range = ByteRange { start: edit.start, end: ByteOffset(start + byte_len(edit.inserted.as_str())) };
        let revision = self.document.replace(range, edit.deleted.as_str())?;
        self.selection = edit.selection_before;
        self.preferred_column = None;
        self.redo_stack.push(edit);
        assert(history_views(self.redo_stack@) =~= v.redo.push(v.undo.last()));
        Ok(revision)
    }

    /// Makes the last undone change again, restoring the text and the
    /// selection from after it; with nothing to redo, nothing changes.
    pub fn redo(&mut self) -> (result: Result<Revision, EditError>)
        requires
            old(self).wf(),
            old(self)@.document.revision < u64::MAX,
        ensures
            final(self).wf(),
            final(self)@ == spec_redo(old(self)@),
            result == Ok::<Revision, EditError>(Revision(final(self)@.document.revision)),
    {
        let ghost v = self@;
        let len = self.document.len_bytes();
        let edit = match self.redo_stack.pop() {
            Some(edit) => edit,
            None => {
                return Ok(self.document.revision());
            },
        };
        assert(history_views(self.redo_stack@) =~= v.redo.drop_last());
        assert(edit@ == v.redo.last());
        proof {
            lemma_redo_step(v);
        }
        let start = edit.start.0;
        let range = ByteRange { start: edit.start, end: ByteOffset(start + byte_len(edit.deleted.as_str())) };
        let revision = self.document.replace(range, edit.inserted.as_str())?;
        self.selection = edit.selection_after;
        self.preferred_column = None;
        self.undo_stack.push(edit);
        assert(history_views(self.undo_stack@) =~= v.undo.push(v.redo.last()));
        Ok(revision)
    }

    /// Types `text`: a line break keeps the line's indentation (one level
    /// more after an opening bracket); a closing character steps over the
    /// same character after the caret; an opening character wraps the
    /// selection in its pair; anything else replaces the selection.
    pub fn insert(&mut self, text: &str) -> (result: Result<Revision, EditError>)
        requires
            old(self).wf(),
            old(self)@.document.revision < u64::MAX,
        ensures
            final(self).wf(),
            final(self)@ == spec_insert(old(self)@, text@),
            result == Ok::<Revision, EditError>(Revision(final(self)@.document.revision)),
    {
        if is_line_break(text) {
            return self.insert_newline();
        }
        if let Some(character) = single_char(text) {
            if self.try_skip_closing(character) {
                return Ok(self.document.revision());
            }
            if let Some(close) = self.edit_rules.closing_for(character) {
                return self.insert_pair(character, close);
            }
        }
        self.replace_selection(text)
    }

    fn insert_newline(&mut self) -> (result: Result<Revision, EditError>)
        requires
            old(self).wf(),
            old(self)@.document.revision < u64::MAX,
        ensures
            final(self).wf(),
            final(self)@ == replaced_selection(old(self)@, newline_text(old(self)@)),
            result == Ok::<Revision, EditError>(Revision(final(self)@.document.revision)),
    {
        let ghost v = self@;
        let ghost bytes = v.document.bytes;
        let head = self.selection.head;
        let line = self.document.line_index_at(head);
        proof {
            crate::document::lemma_line_start_order(bytes, line as int, head.0 as int);
        }
        let start = match self.document.line_start(line) {
            Some(s) => s.0,
            None => 0,
        };
        let mut indent = String::new();
        let mut i = start;
        while i < head.0 && is_blank(self.document.byte_at(i))
            invariant
                bytes == self@.document.bytes,
                start <= i <= head.0 <= bytes.len(),
                blank_run(bytes, start as int, head.0 as int) == (i - start) + blank_run(bytes, i as int, head.0 as int),
                indent@ =~= Seq::new((i - start) as nat, |k: int| bytes[start + k] as char),
            decreases head.0 - i,
        {
            let b = self.document.byte_at(i);
            if b == 0x20u8 {
                push_char(&mut indent, ' ');
            } else {
                push_char(&mut indent, '\t');
            }
            i = i + 1;
        }
        let extra = match self.document.char_before(head) {
            Some(c) => if c == '{' || c == '[' || c == '(' {
                self.settings.indent_unit()
            } else {
                String::new()
            },
            None => String::new(),
        };
        let mut text = char_string('\n');
        text.append(indent.as_str());
        text.append(extra.as_str());
        assert(text@ =~= newline_text(v));
        self.replace_selection(text.as_str())
    }

    /// Steps over `character` when it closes a pair and sits just after the
    /// caret of an empty selection.
    fn try_skip_closing(&mut self, character: char) -> (skipped: bool)
        requires
            old(self).wf(),
        ensures
            final(self).wf(),
            skipped == skips_closing(old(self)@, character),
            skipped ==> final(self)@ == (EditorView {
                selection: caret(caret_forward(old(self)@.document.bytes, old(self)@.selection.1 as int)),
                preferred_column: None,
                ..old(self)@
            }),
            !skipped ==> final(self)@ == old(self)@,
    {
        if !self.selection.is_empty() || self.edit_rules.opening_for(character).is_none() {
            return false;
        }
        let at = self.document.char_at(self.selection.head);
        let same = match at {
            Some(c) => c == character,
            None => false,
        };
        if !same {
            return false;
        }
        let next = self.document.next_char_boundary(self.selection.head);
        self.selection = Selection::new(next, next);
        self.preferred_column = None;
        true
    }

    /// Wraps the selection in `open` and `close`.
    #[verifier::rlimit(60)]
    fn insert_pair(&mut self, open: char, close: char) -> (result: Result<Revision, EditError>)
        requires
            old(self).wf(),
            old(self)@.document.revision < u64::MAX,
        ensures
            final(self).wf(),
            final(self)@ == with_pair(old(self)@, open, close),
            result == Ok::<Revision, EditError>(Revision(final(self)@.document.revision)),
    {
        let ghost bytes = self@.document.bytes;
        let range = self.selection.range();
        let inner = self.document.text_in(range)?;
        let open_text = char_string(open);
        let close_text = char_string(close);
        let mut text = char_string(open);
        text.append(inner.as_str());
        text.append(close_text.as_str());
        let o = byte_len(open_text.as_str());
        let inner_len = byte_len(inner.as_str());
        let total = byte_len(text.as_str());
        let ghost ob = encode_utf8(seq![open]);
        let ghost ib = encode_utf8(inner@);
        let ghost cb = encode_utf8(seq![close]);
        proof {
            let lo = range.lo();
            let hi = range.hi();
            crate::rope::lemma_subrange_valid(bytes, lo, hi);
            decode_utf8_encode_utf8(bytes.subrange(lo, hi));
            lemma_encode_concat(seq![open], inner@);
            lemma_encode_concat(seq![open] + inner@, seq![close]);
            crate::rope::encode_utf8_valid_utf8_of(seq![open]);
            crate::rope::encode_utf8_valid_utf8_of(inner@);
            crate::rope::encode_utf8_valid_utf8_of(seq![close]);
            crate::rope::encode_utf8_valid_utf8_of(text@);
            crate::rope::lemma_encode_empty(seq![close]);
            crate::rope::lemma_encode_empty(seq![open]);
            assert(text@ =~= seq![open] + inner@ + seq![close]);
            assert(ib == bytes.subrange(lo, hi));
            let piece = ob + ib + cb;
            lemma_splice_bounds(bytes, lo, hi, piece);
            let sp = bytes.take(lo) + piece + bytes.skip(hi);
            valid_utf8_concat(ib, cb);
            assert(sp =~= (bytes.take(lo) + ob) + (ib + cb) + bytes.skip(hi));
            lemma_seam_boundary(bytes.take(lo) + ob, ib + cb, bytes.skip(hi));
            assert(sp =~= (bytes.take(lo) + ob + ib) + cb + bytes.skip(hi));
            lemma_seam_boundary(bytes.take(lo) + ob + ib, cb, bytes.skip(hi));
        }
        let head = if inner_len == 0 {
            o
        } else {
            o + inner_len
        };
        self.apply_replacement(range, text.as_str(), o, head)
    }

    /// Deletes the selection; with an empty selection, both characters of an
    /// empty pair around the caret, or else the character before the caret.
    pub fn backspace(&mut self) -> (result: Result<Revision, EditError>)
        requires
            old(self).wf(),
            old(self)@.document.revision < u64::MAX,
        ensures
            final(self).wf(),
            final(self)@ == spec_backspace(old(self)@),
            result == Ok::<Revision, EditError>(Revision(final(self)@.document.revision)),
    {
        let ghost bytes = self@.document.bytes;
        proof {
            reveal_strlit("");
            assert(("")@ =~= Seq::<char>::empty());
        }
        if self.selection.is_empty() {
            let head = self.selection.head;
            let before = self.document.char_before(head);
            let at = self.document.char_at(head);
            let paired = match (before, at) {
                (Some(open), Some(close)) => match self.edit_rules.closing_for(open) {
                    Some(c) => c == close,
                    None => false,
                },
                _ => false,
            };
            if paired {
                return self.delete_pair_around();
            }
            let previous = self.document.previous_char_boundary(head);
            self.selection = Selection::new(previous, head);
        }
        self.replace_selection("")
    }

    /// Deletes the two characters around the caret.
    fn delete_pair_around(&mut self) -> (result: Result<Revision, EditError>)
        requires
            old(self).wf(),
            old(self)@.document.revision < u64::MAX,
        ensures
            final(self).wf(),
            final(self)@ == applied(
                old(self)@,
                caret_back(old(self)@.document.bytes, old(self)@.selection.1 as int),
                caret_forward(old(self)@.document.bytes, old(self)@.selection.1 as int),
                Seq::empty(),
                0,
                0,
            ),
            result == Ok::<Revision, EditError>(Revision(final(self)@.document.revision)),
    {
        let ghost bytes = self@.document.bytes;
        let head = self.selection.head;
        let start = self.document.previous_char_boundary(head);
        let end = self.document.next_char_boundary(head);
        proof {
            reveal_strlit("");
            assert(("")@ =~= Seq::<char>::empty());
            lemma_splice_bounds(bytes, start.0 as int, end.0 as int, ("").spec_bytes());
        }
        self.apply_replacement(ByteRange::new(start, end), "", 0, 0)
    }

    fn selected_line_span(&self) -> (span: (usize, usize))
        requires
            self.wf(),
        ensures
            span.0 == line_span(self@).0,
            span.1 == line_span(self@).1,
            span.0 <= span.1 <= last_line(self@.document.bytes),
    {
        let ghost bytes = self@.document.bytes;
        let range = self.selection.range();
        let first = self.document.line_index_at(range.start);
        proof {
            crate::document::lemma_line_start_order(bytes, first as int, range.lo());
        }
        let last = if range.is_empty() || range.end.0 == 0 {
            first
        } else {
            let at_end = self.document.line_index_at(range.end);
            let l = if self.document.byte_at(range.end.0 - 1) == 10u8 {
                at_end - 1
            } else {
                at_end
            };
            proof {
                assert(bytes.take(range.hi()).drop_last() =~= bytes.take(range.hi() - 1));
                assert(l == line_of(bytes, range.hi() - 1));
                crate::document::lemma_line_start_order(bytes, l as int, range.hi() - 1);
            }
            if l > first {
                l
            } else {
                first
            }
        };
        (first, last)
    }

    /// The start and full end of lines `first` to `last`.
    fn block_bounds(&self, first: usize, last: usize) -> (bounds: (usize, usize))
        requires
            self.wf(),
            first <= last <= last_line(self@.document.bytes),
        ensures
            bounds.0 == line_start_of(self@.document.bytes, first as int),
            bounds.1 == line_full_end_of(self@.document.bytes, last as int),
            range_error(self@.document.bytes, ByteRange { start: ByteOffset(bounds.0), end: ByteOffset(bounds.1) }) is None,
    {
        let ghost bytes = self@.document.bytes;
        proof {
            crate::document::lemma_line_start(bytes, first as int);
            crate::document::lemma_line_ends(bytes, last as int);
            crate::document::lemma_line_start_mono(bytes, first as int, last as int);
        }
        let start = match self.document.line_start(first) {
            Some(s) => s.0,
            None => 0,
        };
        let end = match self.document.line_full_end(last) {
            Some(e) => e.0,
            None => self.document.len_bytes(),
        };
        (start, end)
    }

    /// Deletes the lines the selection touches, line breaks included.
    pub fn delete_line(&mut self) -> (result: Result<Revision, EditError>)
        requires
            old(self).wf(),
            old(self)@.document.revision < u64::MAX,
        ensures
            final(self).wf(),
            final(self)@ == spec_delete_line(old(self)@),
            result == Ok::<Revision, EditError>(Revision(final(self)@.document.revision)),
    {
        let ghost bytes = self@.document.bytes;
        let (first, last) = self.selected_line_span();
        let (start, end) = self.block_bounds(first, last);
        proof {
            reveal_strlit("");
            assert(("")@ =~= Seq::<char>::empty());
            lemma_splice_bounds(bytes, start as int, end as int, ("").spec_bytes());
        }
        self.apply_replacement(ByteRange::new(ByteOffset(start), ByteOffset(end)), "", 0, 0)
    }

    /// Inserts a copy of the selection after it, or of the caret's line
    /// after that line, with the caret after the copy.
    pub fn duplicate_line(&mut self) -> (result: Result<Revision, EditError>)
        requires
            old(self).wf(),
            old(self)@.document.revision < u64::MAX,
        ensures
            final(self).wf(),
            final(self)@ == spec_duplicate_line(old(self)@),
            result == Ok::<Revision, EditError>(Revision(final(self)@.document.revision)),
    {
        let ghost bytes = self@.document.bytes;
        let range = self.selection.range();
        if range.is_empty() {
            let line = self.document.line_index_at(self.selection.head);
            proof {
                crate::document::lemma_line_start_order(bytes, line as int, self@.selection.1 as int);
            }
            let (start, end) = self.block_bounds(line, line);
            let text = self.document.text_in(ByteRange::new(ByteOffset(start), ByteOffset(end)))?;
            let n = text.as_str().unicode_len();
            let ends_with_newline = n > 0 && text.as_str().get_char(n - 1) == '\n';
            let insertion = if ends_with_newline {
                text
            } else {
                let mut s = char_string('\n');
                s.append(text.as_str());
                s
            };
            let len = byte_len(insertion.as_str());
            proof {
                crate::rope::encode_utf8_valid_utf8_of(insertion@);
                lemma_splice_bounds(bytes, end as int, end as int, encode_utf8(insertion@));
            }
            return self.apply_replacement(ByteRange::new(ByteOffset(end), ByteOffset(end)), insertion.as_str(), len, len);
        }
        let text = self.document.text_in(range)?;
        let len = byte_len(text.as_str());
        proof {
            crate::rope::lemma_subrange_valid(bytes, range.lo(), range.hi());
            decode_utf8_encode_utf8(bytes.subrange(range.lo(), range.hi()));
            crate::rope::encode_utf8_valid_utf8_of(text@);
            lemma_splice_bounds(bytes, range.hi(), range.hi(), encode_utf8(text@));
        }
        self.apply_replacement(ByteRange::new(range.end, range.end), text.as_str(), len, len)
    }

    /// The text of lines `first` to `last`, line breaks included.
    fn line_block(&self, first: usize, last: usize) -> (text: String)
        requires
            self.wf(),
            first <= last <= last_line(self@.document.bytes),
        ensures
            text@ == line_block_of(self@.document.bytes, first as int, last as int),
    {
        let (start, end) = self.block_bounds(first, last);
        match self.document.text_in(ByteRange::new(ByteOffset(start), ByteOffset(end))) {
            Ok(t) => t,
            Err(_) => String::new(),
        }
    }

    /// Swaps lines `block_start` to `block_end` with the lines from
    /// `upper_start` up to them.
    fn swap_line_block(&mut self, upper_start: usize, block_start: usize, block_end: usize) -> (result: Result<
        Revision,
        EditError,
    >)
        requires
            old(self).wf(),
            old(self)@.document.revision < u64::MAX,
            upper_start < block_start <= block_end <= last_line(old(self)@.document.bytes),
        ensures
            final(self).wf(),
            final(self)@ == swapped_lines(old(self)@, upper_start as int, block_start as int, block_end as int),
            result == Ok::<Revision, EditError>(Revision(final(self)@.document.revision)),
    {
        let ghost bytes = self@.document.bytes;
        let upper = self.line_block(upper_start, block_start - 1);
        let block = self.line_block(block_start, block_end);
        let (start, end) = self.block_bounds(upper_start, block_end);
        let mut rebuilt = String::new();
        rebuilt.append(block.as_str());
        rebuilt.append(upper.as_str());
        let block_len = byte_len(block.as_str());
        let ghost bb = encode_utf8(block@);
        let ghost ub = encode_utf8(upper@);
        proof {
            assert(rebuilt@ =~= block@ + upper@);
            lemma_encode_concat(block@, upper@);
            crate::rope::encode_utf8_valid_utf8_of(block@);
            crate::rope::encode_utf8_valid_utf8_of(upper@);
            crate::rope::encode_utf8_valid_utf8_of(rebuilt@);
            crate::rope::lemma_encode_empty(upper@);
            lemma_splice_bounds(bytes, start as int, end as int, bb + ub);
            if ub.len() > 0 {
                let sp = bytes.take(start as int) + (bb + ub) + bytes.skip(end as int);
                assert(sp =~= (bytes.take(start as int) + bb) + ub + bytes.skip(end as int));
                lemma_seam_boundary(bytes.take(start as int) + bb, ub, bytes.skip(end as int));
            } else {
                assert(bb + ub =~= bb);
            }
        }
        self.apply_replacement(ByteRange::new(ByteOffset(start), ByteOffset(end)), rebuilt.as_str(), 0, block_len)
    }

    /// Moves the selected lines above the line before them.
    pub fn move_line_up(&mut self) -> (result: Result<Revision, EditError>)
        requires
            old(self).wf(),
            old(self)@.document.revision < u64::MAX,
        ensures
            final(self).wf(),
            final(self)@ == spec_move_line_up(old(self)@),
            result == Ok::<Revision, EditError>(Revision(final(self)@.document.revision)),
    {
        let (first, last) = self.selected_line_span();
        if first == 0 {
            return Ok(self.document.revision());
        }
        self.swap_line_block(first - 1, first, last)
    }

    /// Moves the selected lines below the line after them.
    pub fn move_line_down(&mut self) -> (result: Result<Revision, EditError>)
        requires
            old(self).wf(),
            old(self)@.document.revision < u64::MAX,
        ensures
            final(self).wf(),
            final(self)@ == spec_move_line_down(old(self)@),
            result == Ok::<Revision, EditError>(Revision(final(self)@.document.revision)),
    {
        let (first, last) = self.selected_line_span();
        if last >= self.document.last_line_index() {
            return Ok(self.document.revision());
        }
        self.swap_line_block(first, last + 1, last + 1)
    }

    /// Rewrites every line the selection touches, then selects them.
    fn map_selected_lines(&mut self, edit: &LineRewrite) -> (result: Result<Revision, EditError>)
        requires
            old(self).wf(),
            old(self)@.document.revision < u64::MAX,
        ensures
            final(self).wf(),
            final(self)@ == mapped_lines(old(self)@, edit@),
            result == Ok::<Revision, EditError>(Revision(final(self)@.document.revision)),
    {
        let ghost bytes = self@.document.bytes;
        let (first, last) = self.selected_line_span();
        let (start, end) = self.block_bounds(first, last);
        let range = ByteRange::new(ByteOffset(start), ByteOffset(end));
        let original = self.document.text_in(range)?;
        let chars = str_chars(original.as_str());
        let out = rewrite_text(edit, &chars);
        let rebuilt = chars_to_string(&out);
        let n = byte_len(rebuilt.as_str());
        proof {
            crate::rope::encode_utf8_valid_utf8_of(rebuilt@);
            lemma_splice_bounds(bytes, start as int, end as int, encode_utf8(rebuilt@));
        }
        self.apply_replacement(range, rebuilt.as_str(), 0, n)
    }

    /// Indents: one level in place of an empty selection, or in front of
    /// every selected line.
    pub fn indent(&mut self) -> (result: Result<Revision, EditError>)
        requires
            old(self).wf(),
            old(self)@.document.revision < u64::MAX,
        ensures
            final(self).wf(),
            final(self)@ == spec_indent(old(self)@),
            result == Ok::<Revision, EditError>(Revision(final(self)@.document.revision)),
    {
        let unit = self.settings.indent_unit();
        if self.selection.is_empty() {
            return self.replace_selection(unit.as_str());
        }
        let edit = LineRewrite::Indent(str_chars(unit.as_str()));
        self.map_selected_lines(&edit)
    }

    /// Takes one indentation level off every selected line.
    pub fn outdent(&mut self) -> (result: Result<Revision, EditError>)
        requires
            old(self).wf(),
            old(self)@.document.revision < u64::MAX,
        ensures
            final(self).wf(),
            final(self)@ == spec_outdent(old(self)@),
            result == Ok::<Revision, EditError>(Revision(final(self)@.document.revision)),
    {
        let unit = self.settings.indent_unit();
        let edit = LineRewrite::Outdent(str_chars(unit.as_str()), self.settings.tab_width());
        self.map_selected_lines(&edit)
    }

    /// Comments out the selected lines, or, when all are commented, takes
    /// the comment markers off; nothing without a line comment syntax.
    pub fn toggle_line_comment(&mut self) -> (result: Result<Revision, EditError>)
        requires
            old(self).wf(),
            old(self)@.document.revision < u64::MAX,
        ensures
            final(self).wf(),
            final(self)@ == spec_toggle_line_comment(old(self)@),
            result == Ok::<Revision, EditError>(Revision(final(self)@.document.revision)),
    {
        let ghost bytes = self@.document.bytes;
        let prefix = match self.edit_rules.line_comment() {
            Some(p) => p,
            None => {
                return Ok(self.document.revision());
            },
        };
        let (first, last) = self.selected_line_span();
        let prefix_chars = str_chars(prefix);
        let mut all = true;
        let mut index = first;
        loop
            invariant_except_break
                all == forall|i: int| first <= i < index ==> line_commented(bytes, i, prefix@),
            invariant
                bytes == self@.document.bytes,
                self.wf(),
                first <= index <= last,
                prefix_chars@ == prefix@,
            ensures
                all == forall|i: int| first <= i <= last ==> line_commented(bytes, i, prefix@),
            decreases last - index,
        {
            let commented = match self.document.line(index) {
                Some(line) => {
                    let c = str_chars(line.as_str());
                    let k = leading_ws_count(&c);
                    starts_with_at(&c, k, &prefix_chars)
                },
                None => false,
            };
            assert(commented == line_commented(bytes, index as int, prefix@));
            all = all && commented;
            if index == last {
                break;
            }
            index = index + 1;
        }
        let edit = if all {
            LineRewrite::Uncomment(prefix_chars)
        } else {
            LineRewrite::Comment(prefix_chars)
        };
        self.map_selected_lines(&edit)
    }

    /// Selects the next match of `query` after the selection, starting over
    /// from the top when there is none; `None` (and no change) when there is
    /// no match at all.
    pub fn find_next(&mut self, query: &SearchQuery) -> (found: Option<ByteRange>)
        requires
            old(self).wf(),
        ensures
            final(self).wf(),
            final(self)@ == spec_find(old(self)@, *query, true),
            found == match find_target(old(self)@, *query, true) {
                Some(a) => Some(
                    ByteRange {
                        start: ByteOffset(a as usize),
                        end: ByteOffset((a + query_len(*query)) as usize),
                    },
                ),
                None => None::<ByteRange>,
            },
    {
        let start = self.selection.range().end.0;
        self.find_from(query, start, true)
    }

    /// Selects the previous match of `query` before the selection, starting
    /// over from the bottom when there is none; `None` (and no change) when
    /// there is no match at all.
    pub fn find_previous(&mut self, query: &SearchQuery) -> (found: Option<ByteRange>)
        requires
            old(self).wf(),
        ensures
            final(self).wf(),
            final(self)@ == spec_find(old(self)@, *query, false),
            found == match find_target(old(self)@, *query, false) {
                Some(a) => Some(
                    ByteRange {
                        start: ByteOffset(a as usize),
                        end: ByteOffset((a + query_len(*query)) as usize),
                    },
                ),
                None => None::<ByteRange>,
            },
    {
        let start = self.selection.range().start.0;
        self.find_from(query, start, false)
    }

    fn find_from(&mut self, query: &SearchQuery, start: usize, forward: bool) -> (found: Option<ByteRange>)
        requires
            old(self).wf(),
            start == if forward { sel_hi(old(self)@.selection) } else { sel_lo(old(self)@.selection) },
        ensures
            final(self).wf(),
            final(self)@ == spec_find(old(self)@, *query, forward),
            found == match find_target(old(self)@, *query, forward) {
                Some(a) => Some(
                    ByteRange {
                        start: ByteOffset(a as usize),
                        end: ByteOffset((a + query_len(*query)) as usize),
                    },
                ),
                None => None::<ByteRange>,
            },
    {
        let ghost bytes = self@.document.bytes;
        if query.text.as_str().is_empty() {
            return None;
        }
        let text = self.document.text();
        proof {
            decode_utf8_encode_utf8(bytes);
        }
        let total = byte_len(text.as_str());
        let wrap = if forward {
            0
        } else {
            total
        };
        let found = match find_in(text.as_str(), query, start, forward) {
            Some(f) => Some(f),
            None => find_in(text.as_str(), query, wrap, forward),
        };
        match found {
            Some(range) => {
                self.selection = Selection::new(range.start, range.end);
                self.preferred_column = None;
                Some(range)
            },
            None => None,
        }
    }

    /// When the selection is a match of `query`, replaces it by
    /// `replacement`; then selects the next match.
    pub fn replace_match(&mut self, query: &SearchQuery, replacement: &str) -> (result: Result<
        Option<ByteRange>,
        EditError,
    >)
        requires
            old(self).wf(),
            old(self)@.document.revision < u64::MAX,
        ensures
            final(self).wf(),
            final(self)@ == spec_replace_match(old(self)@, *query, replacement@),
            ({
                let v = old(self)@;
                let selected = decode_utf8(v.document.bytes.subrange(sel_lo(v.selection), sel_hi(v.selection)));
                let w = if is_search_match_spec(selected, *query) {
                    replaced_selection(v, replacement@)
                } else {
                    v
                };
                result == Ok::<Option<ByteRange>, EditError>(
                    match find_target(w, *query, true) {
                        Some(a) => Some(
                            ByteRange {
                                start: ByteOffset(a as usize),
                                end: ByteOffset((a + query_len(*query)) as usize),
                            },
                        ),
                        None => None::<ByteRange>,
                    },
                )
            }),
    {
        let current = self.selection.range();
        let text = self.document.text_in(current)?;
        if !is_search_match(text.as_str(), query) {
            return Ok(self.find_next(query));
        }
        self.replace_selection(replacement)?;
        Ok(self.find_next(query))
    }

    /// Replaces every match of `query` by `replacement` in one change and
    /// returns how many there were.
    #[verifier::rlimit(40)]
    pub fn replace_all(&mut self, query: &SearchQuery, replacement: &str) -> (result: Result<usize, EditError>)
        requires
            old(self).wf(),
            old(self)@.document.revision < u64::MAX,
        ensures
            final(self).wf(),
            final(self)@ == spec_replace_all(old(self)@, *query, replacement@).0,
            result == Ok::<usize, EditError>(spec_replace_all(old(self)@, *query, replacement@).1 as usize),
    {
        let ghost bytes = self@.document.bytes;
        let ghost h = decode_utf8(bytes);
        if query.text.as_str().is_empty() {
            return Ok(0);
        }
        let text = self.document.text();
        let len = byte_len(text.as_str());
        proof {
            decode_utf8_encode_utf8(bytes);
            lemma_all_matches_spaced(h, *query, 0);
        }
        let ghost all = all_matches(h, *query, 0);
        let mut starts: Vec<usize> = Vec::new();
        let mut cursor: usize = 0;
        let ghost n = query_len(*query);
        loop
            invariant
                text@ == h,
                encode_utf8(h) == bytes,
                len == bytes.len(),
                cursor <= len,
                is_boundary(bytes, cursor as int),
                query.text@.len() > 0,
                all == starts@.map_values(|a: usize| a as int) + all_matches(h, *query, cursor as int),
            ensures
                all == starts@.map_values(|a: usize| a as int),
            decreases len + 1 - cursor,
        {
            proof {
                lemma_found_forward(h, *query, cursor as int);
            }
            match find_in(text.as_str(), query, cursor, true) {
                None => {
                    assert(all_matches(h, *query, cursor as int) =~= Seq::<int>::empty());
                    assert(all =~= starts@.map_values(|a: usize| a as int));
                    break;
                },
                Some(found) => {
                    let ghost prev = starts@;
                    starts.push(found.start.0);
                    cursor = found.end.0;
                    assert(starts@.map_values(|a: usize| a as int) =~= prev.map_values(|a: usize| a as int).push(
                        found.start.0 as int,
                    ));
                },
            }
        }
        assert(all.skip(0) =~= all);
        if starts.len() == 0 {
            return Ok(0);
        }
        let nl = byte_len(query.text.as_str());
        let mut rebuilt = String::new();
        let mut last: usize = 0;
        let mut i: usize = 0;
        while i < starts.len()
            invariant
                self.wf(),
                bytes == self@.document.bytes,
                len == bytes.len(),
                nl == n,
                0 <= i <= starts@.len(),
                all == starts@.map_values(|a: usize| a as int),
                well_spaced(bytes, all.skip(i as int), n, last as int),
                rebuilt@ + rebuilt_text(bytes, all.skip(i as int), n, replacement@, last as int) == rebuilt_text(
                    bytes,
                    all,
                    n,
                    replacement@,
                    0,
                ),
            decreases starts@.len() - i,
        {
            let start = starts[i];
            assert(all.skip(i as int)[0] == start as int);
            let segment = match self.document.text_in(ByteRange::new(ByteOffset(last), ByteOffset(start))) {
                Ok(s) => s,
                Err(_) => String::new(),
            };
            let ghost before = rebuilt@;
            rebuilt.append(segment.as_str());
            rebuilt.append(replacement);
            assert(all.skip(i as int).drop_first() =~= all.skip(i + 1));
            assert(rebuilt@ =~= before + segment@ + replacement@);
            last = start + nl;
            i = i + 1;
        }
        let tail = match self.document.text_in(ByteRange::new(ByteOffset(last), ByteOffset(len))) {
            Ok(s) => s,
            Err(_) => String::new(),
        };
        rebuilt.append(tail.as_str());
        assert(rebuilt@ =~= rebuilt_text(bytes, all, n, replacement@, 0));
        let rl = byte_len(rebuilt.as_str());
        let head = self.selection.head.0;
        let ghost c0 = if rl < head { rl } else { head };
        let mut caret = if rl < head {
            rl
        } else {
            head
        };
        let ghost rb = encode_utf8(rebuilt@);
        proof {
            crate::rope::encode_utf8_valid_utf8_of(rebuilt@);
        }
        while !rebuilt.as_str().is_char_boundary(caret)
            invariant
                rb == encode_utf8(rebuilt@),
                valid_utf8(rb),
                caret <= c0 <= rb.len(),
                forall|k: int| caret < k <= c0 ==> !is_boundary(rb, k),
            decreases caret,
        {
            proof {
                crate::rope::lemma_boundary_is_char_boundary(rb, caret as int);
            }
            caret = caret - 1;
        }
        proof {
            crate::rope::lemma_boundary_is_char_boundary(rb, caret as int);
            if caret < c0 {
                crate::document::lemma_prev_boundary(rb, c0 as int);
                let p = prev_boundary(rb, c0 as int);
                assert(crate::document::is_prev_boundary(rb, c0 as int, caret as int));
            }
            let sp = bytes.take(0) + rb + bytes.skip(len as int);
            assert(sp =~= rb);
        }
        self.apply_replacement(ByteRange::new(ByteOffset(0), ByteOffset(len)), rebuilt.as_str(), caret, caret)?;
        Ok(starts.len())
    }

    fn is_bracket(&self, c: char) -> (yes: bool)
        ensures
            yes == is_bracket(self@.rules, c),
    {
        self.edit_rules.closing_for(c).is_some() || self.edit_rules.opening_for(c).is_some()
    }

    /// The character starting at a boundary before the end.
    fn char_starting_at(&self, p: usize) -> (c: char)
        requires
            self.wf(),
            p < self@.document.bytes.len(),
            is_boundary(self@.document.bytes, p as int),
        ensures
            c == char_starting(self@.document.bytes, p as int),
    {
        match self.document.char_at(ByteOffset(p)) {
            Some(c) => c,
            None => ' ',
        }
    }

    fn scan_forward_brackets(&self, offset: usize, open: char, close: char) -> (found: Option<usize>)
        requires
            self.wf(),
            offset <= self@.document.bytes.len(),
            is_boundary(self@.document.bytes, offset as int),
        ensures
            found == match match_forward(self@.document.bytes, offset as int, 0, open, close) {
                Some(p) => Some(p as usize),
                None => None::<usize>,
            },
            match_forward(self@.document.bytes, offset as int, 0, open, close) matches Some(p) ==> offset <= p
                < self@.document.bytes.len() && is_boundary(self@.document.bytes, p) && char_starting(
                self@.document.bytes,
                p,
            ) == close,
    {
        let ghost bytes = self@.document.bytes;
        proof {
            lemma_match_forward(bytes, offset as int, 0, open, close);
        }
        let len = self.document.len_bytes();
        let mut p = offset;
        let mut depth: i128 = 0;
        loop
            invariant
                self.wf(),
                bytes == self@.document.bytes,
                len == bytes.len(),
                offset <= p <= len,
                is_boundary(bytes, p as int),
                -(p - offset) <= depth <= p - offset,
                match_forward(bytes, p as int, depth as int, open, close) == match_forward(
                    bytes,
                    offset as int,
                    0,
                    open,
                    close,
                ),
            decreases len - p,
        {
            if p >= len {
                return None;
            }
            let c = self.char_starting_at(p);
            let next = self.document.boundary_after(p);
            if c == open {
                depth = depth + 1;
            } else if c == close {
                if depth - 1 == 0 {
                    return Some(p);
                }
                depth = depth - 1;
            }
            p = next;
        }
    }

    fn scan_backward_brackets(&self, offset: usize, open: char, close: char) -> (found: Option<usize>)
        requires
            self.wf(),
            offset < self@.document.bytes.len(),
            is_boundary(self@.document.bytes, offset as int),
        ensures
            found == match match_backward(self@.document.bytes, offset as int, 0, open, close) {
                Some(p) => Some(p as usize),
                None => None::<usize>,
            },
            match_backward(self@.document.bytes, offset as int, 0, open, close) matches Some(p) ==> 0 <= p
                <= offset && is_boundary(self@.document.bytes, p) && char_starting(self@.document.bytes, p)
                == open,
    {
        let ghost bytes = self@.document.bytes;
        proof {
            lemma_match_backward(bytes, offset as int, 0, open, close);
        }
        let mut p = offset;
        let mut depth: i128 = 0;
        loop
            invariant
                self.wf(),
                bytes == self@.document.bytes,
                p <= offset < bytes.len(),
                is_boundary(bytes, p as int),
                -(offset - p) <= depth <= offset - p,
                match_backward(bytes, p as int, depth as int, open, close) == match_backward(
                    bytes,
                    offset as int,
                    0,
                    open,
                    close,
                ),
            decreases p,
        {
            let c = self.char_starting_at(p);
            if c == close {
                depth = depth + 1;
            } else if c == open {
                depth = depth - 1;
                if depth == 0 {
                    return Some(p);
                }
            }
            if p == 0 {
                return None;
            }
            proof {
                lemma_prev_boundary(bytes, p as int);
            }
            p = self.document.boundary_before(p);
        }
    }

    /// The number of bytes of `c`.
    fn width_of(c: char) -> (n: usize)
        ensures
            n == char_width(c),
    {
        byte_len(char_string(c).as_str())
    }

    #[verifier::rlimit(80)]
    fn find_matching_bracket(&self, offset: usize, character: char) -> (pair: Option<(ByteRange, ByteRange)>)
        requires
            self.wf(),
            offset < self@.document.bytes.len(),
            is_boundary(self@.document.bytes, offset as int),
            offset + char_width(character) <= self@.document.bytes.len(),
        ensures
            pair == match bracket_pair_at(self@.document.bytes, self@.rules, offset as int, character) {
                Some((a, b)) => Some(
                    (
                        ByteRange { start: ByteOffset(a.0 as usize), end: ByteOffset(a.1 as usize) },
                        ByteRange { start: ByteOffset(b.0 as usize), end: ByteOffset(b.1 as usize) },
                    ),
                ),
                None => None::<(ByteRange, ByteRange)>,
            },
    {
        let ghost bytes = self@.document.bytes;
        let len = self.document.len_bytes();
        let rules = self.edit_rules;
        let open = match rules.opening_for(character) {
            Some(o) => o,
            None => character,
        };
        let close = match rules.closing_for(character) {
            Some(c) => c,
            None => match rules.closing_for(open) {
                Some(c) => c,
                None => {
                    return None;
                },
            },
        };
        let origin = ByteRange::new(ByteOffset(offset), ByteOffset(offset + Self::width_of(character)));
        let opens_itself = match rules.opening_for(character) {
            Some(o) => o == character,
            None => false,
        };
        let forward = rules.closing_for(character).is_some() && !opens_itself || character == open && character
            != close;
        if character == close && character != open {
            match self.scan_backward_brackets(offset, open, close) {
                Some(p) => {
                    proof {
                        lemma_char_width_fits(bytes, p as int);
                    }
                    Some((ByteRange::new(ByteOffset(p), ByteOffset(p + Self::width_of(open))), origin))
                },
                None => None,
            }
        } else if forward {
            match self.scan_forward_brackets(offset, open, close) {
                Some(p) => {
                    proof {
                        lemma_char_width_fits(bytes, p as int);
                    }
                    Some((origin, ByteRange::new(ByteOffset(p), ByteOffset(p + Self::width_of(close)))))
                },
                None => None,
            }
        } else {
            None
        }
    }

    /// The bracket at the caret (or, failing that, just before it) and its
    /// partner, as (opening, closing) ranges; `None` when the caret is at no
    /// bracket or the partner is missing.
    pub fn matching_brackets(&self) -> (pair: Option<(ByteRange, ByteRange)>)
        requires
            self.wf(),
        ensures
            pair == match spec_matching_brackets(self@) {
                Some((a, b)) => Some(
                    (
                        ByteRange { start: ByteOffset(a.0 as usize), end: ByteOffset(a.1 as usize) },
                        ByteRange { start: ByteOffset(b.0 as usize), end: ByteOffset(b.1 as usize) },
                    ),
                ),
                None => None::<(ByteRange, ByteRange)>,
            },
    {
        let ghost bytes = self@.document.bytes;
        let cursor = self.selection.head;
        let at = self.document.char_at(cursor);
        let before = self.document.char_before(cursor);
        match at {
            Some(c) => if self.is_bracket(c) {
                proof {
                    lemma_char_width_fits(bytes, cursor.0 as int);
                }
                return self.find_matching_bracket(cursor.0, c);
            },
            None => {},
        }
        match before {
            Some(c) => if self.is_bracket(c) {
                let start = self.document.previous_char_boundary(cursor);
                proof {
                    crate::document::lemma_last_char(bytes, cursor.0 as int);
                    lemma_prev_boundary(bytes, cursor.0 as int);
                    if start.0 + 2 == cursor.0 {
                        reveal_with_fuel(decode_utf8, 2);
                    }
                }
                return self.find_matching_bracket(start.0, c);
            },
            None => {},
        }
        None
    }

    /// Deletes the selection, or the character after the caret.
    pub fn delete_forward(&mut self) -> (result: Result<Revision, EditError>)
        requires
            old(self).wf(),
            old(self)@.document.revision < u64::MAX,
        ensures
            final(self).wf(),
            final(self)@ == spec_delete_forward(old(self)@),
            result == Ok::<Revision, EditError>(Revision(final(self)@.document.revision)),
    {
        proof {
            reveal_strlit("");
            assert(("")@ =~= Seq::<char>::empty());
        }
        if self.selection.is_empty() {
            let head = self.selection.head;
            let next = self.document.next_char_boundary(head);
            self.selection = Selection::new(head, next);
        }
        self.replace_selection("")
    }
}

impl Editor {
    /// The selected text, to copy; none when the selection is empty.
    pub fn selected_text(&self) -> (text: Option<String>)
        requires
            self.wf(),
        ensures
            match text {
                Some(t) => sel_lo(self@.selection) < sel_hi(self@.selection) && t@ == decode_utf8(
                    self@.document.bytes.subrange(sel_lo(self@.selection), sel_hi(self@.selection)),
                ),
                None => sel_lo(self@.selection) == sel_hi(self@.selection),
            },
    {
        let range = self.selection.range();
        if range.start.0 == range.end.0 {
            return None;
        }
        match self.document.text_in(range) {
            Ok(text) => Some(text),
            Err(_) => None,
        }
    }

    /// Cuts the selection: returns its text and removes it, as typing an
    /// empty text does; an empty selection is left alone.
    pub fn cut(&mut self) -> (cut: Option<String>)
        requires
            old(self).wf(),
            old(self)@.document.revision < u64::MAX,
        ensures
            final(self).wf(),
            match cut {
                Some(t) => {
                    &&& sel_lo(old(self)@.selection) < sel_hi(old(self)@.selection)
                    &&& t@ == decode_utf8(
                        old(self)@.document.bytes.subrange(sel_lo(old(self)@.selection), sel_hi(old(self)@.selection)),
                    )
                    &&& final(self)@ == replaced_selection(old(self)@, Seq::empty())
                },
                None => sel_lo(old(self)@.selection) == sel_hi(old(self)@.selection) && final(self)@ == old(self)@,
            },
    {
        let text = self.selected_text();
        match text {
            Some(t) => {
                let _ = self.replace_selection("");
                proof {
                    reveal_strlit("");
                }
                assert(""@ =~= Seq::<char>::empty());
                Some(t)
            },
            None => None,
        }
    }
}

proof fn lemma_blank_run(bytes: Seq<u8>, start: int, end: int)
    requires
        0 <= start <= end <= bytes.len(),
    ensures
        start + blank_run(bytes, start, end) <= end,
        forall|i: int| 0 <= i < blank_run(bytes, start, end) ==> is_blank_byte(#[trigger] bytes[start + i]),
        start + blank_run(bytes, start, end) == end || !is_blank_byte(bytes[start + blank_run(bytes, start, end)]),
    decreases end - start,
{
    if start < end && is_blank_byte(bytes[start]) {
        lemma_blank_run(bytes, start + 1, end);
        let k = blank_run(bytes, start + 1, end);
        assert forall|i: int| 0 <= i < blank_run(bytes, start, end) implies is_blank_byte(#[trigger] bytes[start + i]) by {
            if i > 0 {
                assert(bytes[start + i] == bytes[(start + 1) + (i - 1)]);
            }
        }
    }
}

/// Enter replaces the selection by a line break, then the blanks (spaces and
/// tabs) that start the caret's line, up to the caret, then one indentation
/// unit exactly when the character before the caret is `{`, `[` or `(`.
pub proof fn lemma_enter_keeps_indentation(v: EditorView, t: Seq<char>)
    requires
        editor_wf(v),
        t == seq!['\n'] || t == seq!['\r', '\n'],
    ensures
        exists|indent: Seq<char>|
            #![trigger indent.len()]
            {
                let bytes = v.document.bytes;
                let head = v.selection.1 as int;
                let start = line_start_of(bytes, line_of(bytes, head));
                let extra = if char_before(bytes, head) matches Some(c) && (c == '{' || c == '[' || c == '(') {
                    spec_indent_unit(v.settings.spec_tab_width(), v.settings.spec_indent_with_spaces())
                } else {
                    Seq::empty()
                };
                &&& start + indent.len() <= head
                &&& forall|i: int|
                    0 <= i < indent.len() ==> (bytes[start + i] == 0x20u8 && #[trigger] indent[i] == ' ') || (
                    bytes[start + i] == 0x09u8 && indent[i] == '\t')
                &&& start + indent.len() == head || !(bytes[start + indent.len()] == 0x20u8 || bytes[start
                    + indent.len()] == 0x09u8)
                &&& spec_insert(v, t) == replaced_selection(v, seq!['\n'] + indent + extra)
            },
{
    let bytes = v.document.bytes;
    let head = v.selection.1 as int;
    let line = line_of(bytes, head);
    crate::document::lemma_line_start_order(bytes, line, head);
    crate::document::lemma_line_start(bytes, line);
    let start = line_start_of(bytes, line);
    assert(spec_insert(v, t) == replaced_selection(v, newline_text(v)));
    lemma_blank_run(bytes, start, head);
    let k = blank_run(bytes, start, head);
    let indent = Seq::new(k, |i: int| bytes[start + i] as char);
    assert forall|i: int| 0 <= i < indent.len() implies (bytes[start + i] == 0x20u8 && #[trigger] indent[i] == ' ')
        || (bytes[start + i] == 0x09u8 && indent[i] == '\t') by {
        assert(is_blank_byte(bytes[start + i]));
        let b = bytes[start + i];
        assert(b == 0x20u8 ==> (b as char) == ' ');
        assert(b == 0x09u8 ==> (b as char) == '\t');
    }
    assert(newline_text(v) == seq!['\n'] + indent + (if char_before(bytes, head) matches Some(c) && (c == '{' || c
        == '[' || c == '(') {
        spec_indent_unit(v.settings.spec_tab_width(), v.settings.spec_indent_with_spaces())
    } else {
        Seq::empty()
    }));
}

/// The number of characters `ch` that start in bytes `[a, b)` of `bytes`.
pub open spec fn count_char(bytes: Seq<u8>, a: int, b: int, ch: char) -> int
    decreases b - a,
{
    if a >= b {
        0
    } else {
        (if 0 <= a < bytes.len() && is_boundary(bytes, a) && char_starting(bytes, a) == ch {
            1int
        } else {
            0int
        }) + count_char(bytes, a + 1, b, ch)
    }
}

proof fn lemma_count_split(bytes: Seq<u8>, a: int, b: int, c: int, ch: char)
    requires
        a <= b <= c,
    ensures
        count_char(bytes, a, c, ch) == count_char(bytes, a, b, ch) + count_char(bytes, b, c, ch),
    decreases b - a,
{
    if a < b {
        lemma_count_split(bytes, a + 1, b, c, ch);
    }
}

proof fn lemma_count_none(bytes: Seq<u8>, a: int, b: int, ch: char)
    requires
        forall|r: int| a <= r < b ==> !is_boundary(bytes, r),
    ensures
        count_char(bytes, a, b, ch) == 0,
    decreases b - a,
{
    if a < b {
        lemma_count_none(bytes, a + 1, b, ch);
    }
}

/// Within one character, only its own start is counted.
proof fn lemma_count_one(bytes: Seq<u8>, p: int, r: int, ch: char)
    requires
        0 <= p < bytes.len(),
        is_boundary(bytes, p),
        p < r <= next_boundary(bytes, p),
    ensures
        count_char(bytes, p, r, ch) == if char_starting(bytes, p) == ch {
            1int
        } else {
            0int
        },
{
    lemma_next_boundary(bytes, p);
    lemma_count_none(bytes, p + 1, r, ch);
}

/// Scanning forward from a boundary `p` with `depth` brackets open (at least
/// one), the closing bracket found is where the brackets opened from `p` on
/// first balance the depth: `depth` plus the opens minus the closes from `p`
/// through it is zero, and at least one before it.
proof fn lemma_match_forward_balanced(bytes: Seq<u8>, p: int, depth: int, open: char, close: char)
    requires
        0 <= p,
        is_boundary(bytes, p),
        depth >= 1,
        open != close,
    ensures
        match_forward(bytes, p, depth, open, close) matches Some(q) ==> {
            &&& p <= q < bytes.len()
            &&& char_starting(bytes, q) == close
            &&& depth + count_char(bytes, p, q + 1, open) - count_char(bytes, p, q + 1, close) == 0
            &&& forall|r: int|
                p <= r <= q ==> depth + count_char(bytes, p, r, open) - count_char(bytes, p, r, close) >= 1
        },
    decreases bytes.len() - p,
{
    if p < bytes.len() {
        lemma_next_boundary(bytes, p);
        let nb = next_boundary(bytes, p);
        let c = char_starting(bytes, p);
        let d = if c == open {
            depth + 1
        } else if c == close {
            depth - 1
        } else {
            depth
        };
        if c == close && depth - 1 == 0 {
            lemma_count_one(bytes, p, p + 1, open);
            lemma_count_one(bytes, p, p + 1, close);
        } else {
            lemma_match_forward_balanced(bytes, nb, d, open, close);
            match match_forward(bytes, nb, d, open, close) {
                Some(q) => {
                    lemma_count_one(bytes, p, nb, open);
                    lemma_count_one(bytes, p, nb, close);
                    lemma_count_split(bytes, p, nb, q + 1, open);
                    lemma_count_split(bytes, p, nb, q + 1, close);
                    assert forall|r: int| p <= r <= q implies depth + count_char(bytes, p, r, open) - count_char(
                        bytes,
                        p,
                        r,
                        close,
                    ) >= 1 by {
                        if r == p {
                        } else if r <= nb {
                            lemma_count_one(bytes, p, r, open);
                            lemma_count_one(bytes, p, r, close);
                        } else {
                            lemma_count_split(bytes, p, nb, r, open);
                            lemma_count_split(bytes, p, nb, r, close);
                        }
                    }
                },
                None => {},
            }
        }
    }
}

/// Scanning forward from a boundary `p` with `depth` brackets open finds a
/// partner whenever some closing bracket from `p` on balances the depth.
proof fn lemma_match_forward_complete(bytes: Seq<u8>, p: int, depth: int, open: char, close: char, q: int)
    requires
        0 <= p <= q < bytes.len(),
        is_boundary(bytes, p),
        is_boundary(bytes, q),
        depth >= 1,
        open != close,
        char_starting(bytes, q) == close,
        depth + count_char(bytes, p, q + 1, open) - count_char(bytes, p, q + 1, close) == 0,
    ensures
        match_forward(bytes, p, depth, open, close) is Some,
    decreases q - p,
{
    lemma_next_boundary(bytes, p);
    let nb = next_boundary(bytes, p);
    let c = char_starting(bytes, p);
    if p == q {
        lemma_count_one(bytes, p, p + 1, open);
        lemma_count_one(bytes, p, p + 1, close);
    } else if !(c == close && depth - 1 == 0) {
        let d = if c == open {
            depth + 1
        } else if c == close {
            depth - 1
        } else {
            depth
        };
        assert(nb <= q) by {
            if nb > q {
                assert(!is_boundary(bytes, q));
            }
        }
        lemma_count_one(bytes, p, nb, open);
        lemma_count_one(bytes, p, nb, close);
        lemma_count_split(bytes, p, nb, q + 1, open);
        lemma_count_split(bytes, p, nb, q + 1, close);
        lemma_match_forward_complete(bytes, nb, d, open, close, q);
    }
}

/// Scanning backward from a boundary `p` with `depth` brackets closed finds
/// a partner whenever some opening bracket up to `p` balances the depth.
proof fn lemma_match_backward_complete(bytes: Seq<u8>, p: int, depth: int, open: char, close: char, q: int)
    requires
        0 <= q <= p < bytes.len(),
        is_boundary(bytes, p),
        is_boundary(bytes, q),
        depth >= 1,
        open != close,
        char_starting(bytes, q) == open,
        depth + count_char(bytes, q, p + 1, close) - count_char(bytes, q, p + 1, open) == 0,
    ensures
        match_backward(bytes, p, depth, open, close) is Some,
    decreases p - q,
{
    let c = char_starting(bytes, p);
    let d = if c == close {
        depth + 1
    } else if c == open {
        depth - 1
    } else {
        depth
    };
    if p == q {
        lemma_next_boundary(bytes, p);
        lemma_count_one(bytes, p, p + 1, open);
        lemma_count_one(bytes, p, p + 1, close);
    } else if !(c != close && c == open && d == 0) {
        lemma_prev_boundary(bytes, p);
        let pb = prev_boundary(bytes, p);
        assert(q <= pb) by {
            if q > pb {
                assert(!is_boundary(bytes, q));
            }
        }
        lemma_count_split(bytes, q, pb + 1, p + 1, open);
        lemma_count_split(bytes, q, pb + 1, p + 1, close);
        lemma_count_last(bytes, p, pb + 1, open);
        lemma_count_last(bytes, p, pb + 1, close);
        lemma_match_backward_complete(bytes, pb, d, open, close, q);
    }
}

/// The partner of an opening bracket at the caret is the first closing
/// bracket after it at which the text from the opening bracket through it
/// holds as many opening as closing brackets: before it, there are always
/// more opening ones.
pub proof fn lemma_bracket_partner_balances(v: EditorView, open: char, close: char)
    requires
        editor_wf(v),
        open != close,
        char_at(v.document.bytes, v.selection.1 as int) == Some(open),
        spec_closing_for(v.rules.spec_pairs(), open) == Some(close),
        spec_opening_for(v.rules.spec_pairs(), open) is None,
    ensures
        spec_matching_brackets(v) matches Some((first, second)) ==> {
            let bytes = v.document.bytes;
            let h = v.selection.1 as int;
            let q = second.0;
            &&& first == (h, h + char_width(open))
            &&& h < q
            &&& second == (q, q + char_width(close))
            &&& char_at(bytes, q) == Some(close)
            &&& count_char(bytes, h, q + 1, open) == count_char(bytes, h, q + 1, close)
            &&& forall|r: int| h < r <= q ==> count_char(bytes, h, r, open) > count_char(bytes, h, r, close)
        },
        (exists|q: int|
            #![trigger char_at(v.document.bytes, q)]
            v.selection.1 < q && is_boundary(v.document.bytes, q) && char_at(v.document.bytes, q) == Some(close)
                && count_char(v.document.bytes, v.selection.1 as int, q + 1, open) == count_char(
                v.document.bytes,
                v.selection.1 as int,
                q + 1,
                close,
            )) ==> spec_matching_brackets(v) is Some,
{
    let bytes = v.document.bytes;
    let h = v.selection.1 as int;
    assert(h < bytes.len());
    assert(char_starting(bytes, h) == open);
    assert(is_boundary(bytes, h));
    assert(bracket_pair_at(bytes, v.rules, h, open) == match match_forward(bytes, h, 0, open, close) {
        Some(p) => Some(((h, h + char_width(open)), (p, p + char_width(close)))),
        None => None::<((int, int), (int, int))>,
    });
    lemma_next_boundary(bytes, h);
    let nb = next_boundary(bytes, h);
    assert(match_forward(bytes, h, 0, open, close) == match_forward(bytes, nb, 1, open, close));
    lemma_match_forward_balanced(bytes, nb, 1, open, close);
    if exists|q: int|
        #![trigger char_at(bytes, q)]
        h < q && is_boundary(bytes, q) && char_at(bytes, q) == Some(close) && count_char(bytes, h, q + 1, open)
            == count_char(bytes, h, q + 1, close) {
        let q = choose|q: int|
            #![trigger char_at(bytes, q)]
            h < q && is_boundary(bytes, q) && char_at(bytes, q) == Some(close) && count_char(bytes, h, q + 1, open)
                == count_char(bytes, h, q + 1, close);
        assert(nb <= q) by {
            if nb > q {
                assert(!is_boundary(bytes, q));
            }
        }
        lemma_count_one(bytes, h, nb, open);
        lemma_count_one(bytes, h, nb, close);
        lemma_count_split(bytes, h, nb, q + 1, open);
        lemma_count_split(bytes, h, nb, q + 1, close);
        lemma_match_forward_complete(bytes, nb, 1, open, close, q);
    }
    match match_forward(bytes, nb, 1, open, close) {
        Some(q) => {
            lemma_count_one(bytes, h, nb, open);
            lemma_count_one(bytes, h, nb, close);
            lemma_count_split(bytes, h, nb, q + 1, open);
            lemma_count_split(bytes, h, nb, q + 1, close);
            assert forall|r: int| h < r <= q implies count_char(bytes, h, r, open) > count_char(bytes, h, r, close) by {
                if r <= nb {
                    lemma_count_one(bytes, h, r, open);
                    lemma_count_one(bytes, h, r, close);
                } else {
                    lemma_count_split(bytes, h, nb, r, open);
                    lemma_count_split(bytes, h, nb, r, close);
                }
            }
        },
        None => {},
    }
}

/// Counting back from a character to just after the one before it finds
/// only that character.
proof fn lemma_count_last(bytes: Seq<u8>, p: int, r: int, ch: char)
    requires
        0 < p < bytes.len(),
        is_boundary(bytes, p),
        prev_boundary(bytes, p) < r <= p,
    ensures
        count_char(bytes, r, p + 1, ch) == if char_starting(bytes, p) == ch {
            1int
        } else {
            0int
        },
{
    lemma_prev_boundary(bytes, p);
    lemma_next_boundary(bytes, p);
    lemma_count_split(bytes, r, p, p + 1, ch);
    lemma_count_none(bytes, r, p, ch);
    lemma_count_one(bytes, p, p + 1, ch);
}

/// Scanning backward from a boundary `p` with `depth` brackets closed (at
/// least one), the opening bracket found is where the brackets closed from
/// it through `p` first balance the depth.
proof fn lemma_match_backward_balanced(bytes: Seq<u8>, p: int, depth: int, open: char, close: char)
    requires
        0 <= p,
        is_boundary(bytes, p),
        depth >= 1,
        open != close,
    ensures
        match_backward(bytes, p, depth, open, close) matches Some(q) ==> {
            &&& 0 <= q <= p < bytes.len()
            &&& is_boundary(bytes, q)
            &&& char_starting(bytes, q) == open
            &&& depth + count_char(bytes, q, p + 1, close) - count_char(bytes, q, p + 1, open) == 0
            &&& forall|r: int|
                q < r <= p ==> depth + #[trigger] count_char(bytes, r, p + 1, close) - count_char(bytes, r, p + 1, open)
                    >= 1
        },
    decreases p,
{
    if p < bytes.len() {
        let c = char_starting(bytes, p);
        let d = if c == close {
            depth + 1
        } else if c == open {
            depth - 1
        } else {
            depth
        };
        if c != close && c == open && d == 0 {
            lemma_next_boundary(bytes, p);
            lemma_count_one(bytes, p, p + 1, open);
            lemma_count_one(bytes, p, p + 1, close);
        } else if p > 0 {
            lemma_prev_boundary(bytes, p);
            let pb = prev_boundary(bytes, p);
            lemma_match_backward_balanced(bytes, pb, d, open, close);
            match match_backward(bytes, pb, d, open, close) {
                Some(q) => {
                    lemma_count_split(bytes, q, pb + 1, p + 1, open);
                    lemma_count_split(bytes, q, pb + 1, p + 1, close);
                    lemma_count_last(bytes, p, pb + 1, open);
                    lemma_count_last(bytes, p, pb + 1, close);
                    assert forall|r: int| q < r <= p implies depth + #[trigger] count_char(bytes, r, p + 1, close) - count_char(
                        bytes,
                        r,
                        p + 1,
                        open,
                    ) >= 1 by {
                        if r > pb {
                            lemma_count_last(bytes, p, r, open);
                            lemma_count_last(bytes, p, r, close);
                        } else {
                            lemma_count_split(bytes, r, pb + 1, p + 1, open);
                            lemma_count_split(bytes, r, pb + 1, p + 1, close);
                        }
                    }
                },
                None => {},
            }
        }
    }
}

/// The partner of a closing bracket at the caret is the last opening bracket
/// before it at which the text from it through the closing bracket holds as
/// many opening as closing brackets: from any later point, there are always
/// more closing ones.
pub proof fn lemma_bracket_partner_balances_backward(v: EditorView, open: char, close: char)
    requires
        editor_wf(v),
        open != close,
        char_at(v.document.bytes, v.selection.1 as int) == Some(close),
        spec_opening_for(v.rules.spec_pairs(), close) == Some(open),
        spec_closing_for(v.rules.spec_pairs(), close) is None,
        spec_closing_for(v.rules.spec_pairs(), open) == Some(close),
    ensures
        spec_matching_brackets(v) matches Some((first, second)) ==> {
            let bytes = v.document.bytes;
            let h = v.selection.1 as int;
            let q = first.0;
            &&& second == (h, h + char_width(close))
            &&& q < h
            &&& first == (q, q + char_width(open))
            &&& char_at(bytes, q) == Some(open)
            &&& count_char(bytes, q, h + 1, open) == count_char(bytes, q, h + 1, close)
            &&& forall|r: int|
                q < r <= h ==> #[trigger] count_char(bytes, r, h + 1, close) > count_char(bytes, r, h + 1, open)
        },
        (exists|q: int|
            #![trigger char_at(v.document.bytes, q)]
            q < v.selection.1 && 0 <= q && is_boundary(v.document.bytes, q) && char_at(v.document.bytes, q) == Some(
                open,
            ) && count_char(v.document.bytes, q, v.selection.1 + 1, open) == count_char(
                v.document.bytes,
                q,
                v.selection.1 + 1,
                close,
            )) ==> spec_matching_brackets(v) is Some,
{
    let bytes = v.document.bytes;
    let h = v.selection.1 as int;
    assert(h < bytes.len());
    assert(char_starting(bytes, h) == close);
    assert(is_boundary(bytes, h));
    assert(bracket_pair_at(bytes, v.rules, h, close) == match match_backward(bytes, h, 0, open, close) {
        Some(p) => Some(((p, p + char_width(open)), (h, h + char_width(close)))),
        None => None::<((int, int), (int, int))>,
    });
    if h > 0 {
        lemma_prev_boundary(bytes, h);
        let pb = prev_boundary(bytes, h);
        assert(match_backward(bytes, h, 0, open, close) == match_backward(bytes, pb, 1, open, close));
        lemma_match_backward_balanced(bytes, pb, 1, open, close);
        if exists|q: int|
            #![trigger char_at(bytes, q)]
            q < h && 0 <= q && is_boundary(bytes, q) && char_at(bytes, q) == Some(open) && count_char(
                bytes,
                q,
                h + 1,
                open,
            ) == count_char(bytes, q, h + 1, close) {
            let q = choose|q: int|
                #![trigger char_at(bytes, q)]
                q < h && 0 <= q && is_boundary(bytes, q) && char_at(bytes, q) == Some(open) && count_char(
                    bytes,
                    q,
                    h + 1,
                    open,
                ) == count_char(bytes, q, h + 1, close);
            assert(q <= pb) by {
                if q > pb {
                    assert(!is_boundary(bytes, q));
                }
            }
            lemma_count_split(bytes, q, pb + 1, h + 1, open);
            lemma_count_split(bytes, q, pb + 1, h + 1, close);
            lemma_count_last(bytes, h, pb + 1, open);
            lemma_count_last(bytes, h, pb + 1, close);
            lemma_match_backward_complete(bytes, pb, 1, open, close, q);
        }
        match match_backward(bytes, pb, 1, open, close) {
            Some(q) => {
                lemma_count_split(bytes, q, pb + 1, h + 1, open);
                lemma_count_split(bytes, q, pb + 1, h + 1, close);
                lemma_count_last(bytes, h, pb + 1, open);
                lemma_count_last(bytes, h, pb + 1, close);
                assert forall|r: int| q < r <= h implies #[trigger] count_char(bytes, r, h + 1, close) > count_char(
                    bytes,
                    r,
                    h + 1,
                    open,
                ) by {
                    if r > pb {
                        lemma_count_last(bytes, h, r, open);
                        lemma_count_last(bytes, h, r, close);
                    } else {
                        lemma_count_split(bytes, r, pb + 1, h + 1, open);
                        lemma_count_split(bytes, r, pb + 1, h + 1, close);
                    }
                }
            },
            None => {},
        }
    }
}

} // verus!
