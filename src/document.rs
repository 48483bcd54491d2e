//! Documents: a text buffer with per-view selections, undo history and
//! modification bookkeeping.
use crate::history::{History, MAX_HISTORY_SIZE};
use crate::selection::{normal_form, Range, Selection};
use crate::language::{detect_language, extension_of, language_of_extension};
use crate::text::{line_count, rope_chars, rope_from_str, rope_len_chars, rope_len_lines, rope_new, rope_to_string};
use crate::transaction::{
    apply_ops, dst_len, invert_ops, lemma_apply_len, lemma_invert_round_trip, map_through, OpView, Transaction,
};
use crate::view::{IdGenerator, ViewId};
use ropey::Rope;
use std::collections::HashMap;
use vstd::prelude::*;

verus! {

broadcast use vstd::std_specs::hash::group_hash_axioms;

/// Identifies a document.
#[derive(Debug, Clone, Copy, PartialEq, Eq, Hash, Structural)]
pub struct DocumentId(pub usize);

impl DocumentId {
    /// The number behind the identifier.
    pub open spec fn index(self) -> usize {
        self.0
    }

    /// A fresh identifier from the session's generator.
    pub fn next(ids: &mut IdGenerator) -> (r: DocumentId)
        requires
            old(ids).upcoming() < usize::MAX,
        ensures
            r.index() == old(ids).upcoming(),
            final(ids).upcoming() == old(ids).upcoming() + 1,
    {
        DocumentId(ids.next_id())
    }
}

/// The line ending that new lines get, as found when the text was loaded.
#[derive(Debug, Clone, Copy, PartialEq, Eq, Structural)]
pub enum LineEnding {
    LF,
    CRLF,
}

/// Whether `s` holds a carriage return followed by a line feed.
pub open spec fn has_crlf_spec(s: Seq<char>) -> bool {
    exists|i: int| 0 <= i < s.len() - 1 && s[i] == '\r' && #[trigger] s[i + 1] == '\n'
}

/// Relies on `str::contains`: whether the pattern occurs in the text.
#[verifier::external_body]
fn has_crlf(text: &str) -> (r: bool)
    ensures
        r == has_crlf_spec(text@),
{
    text.contains("\r\n")
}

impl Default for LineEnding {
    fn default() -> (r: LineEnding)
        ensures
            r == LineEnding::LF,
    {
        LineEnding::LF
    }
}

impl LineEnding {
    /// The chars of the line ending.
    pub open spec fn chars(self) -> Seq<char> {
        match self {
            LineEnding::LF => seq!['\n'],
            LineEnding::CRLF => seq!['\r', '\n'],
        }
    }

    pub fn as_str(&self) -> (r: &'static str)
        ensures
            r@ == self.chars(),
    {
        match self {
            LineEnding::LF => {
                proof { reveal_strlit("\n"); }
                "\n"
            },
            LineEnding::CRLF => {
                proof { reveal_strlit("\r\n"); }
                "\r\n"
            },
        }
    }

    /// CRLF where the text holds any `"\r\n"`, LF otherwise.
    pub fn detect(text: &str) -> (r: LineEnding)
        ensures
            r == (if has_crlf_spec(text@) { LineEnding::CRLF } else { LineEnding::LF }),
    {
        if has_crlf(text) {
            LineEnding::CRLF
        } else {
            LineEnding::LF
        }
    }
}

/// The last component of a path, if it names a file.
pub uninterp spec fn file_name_of(path: Seq<char>) -> Option<Seq<char>>;

/// Relies on `Path::file_name`: the final component, unless the path ends
/// in `..` or is a root (a `&str` path is always valid UTF-8).
#[verifier::external_body]
fn path_file_name(path: &str) -> (r: Option<String>)
    ensures
        match r {
            Some(n) => file_name_of(path@) == Some(n@),
            None => file_name_of(path@) is None,
        },
{
    std::path::Path::new(path).file_name().and_then(|n| n.to_str()).map(String::from)
}

/// Undo entries, newest last, each applicable to the text that the ones
/// after it leave: the newest applies to `text` itself.
pub open spec fn chain_ok(stack: Seq<Transaction>, text: Seq<char>) -> bool
    decreases stack.len(),
{
    if stack.len() == 0 {
        true
    } else {
        let top = stack.last();
        &&& top.wf()
        &&& top.changes.doc_len == text.len()
        &&& chain_ok(stack.drop_last(), apply_ops(top.changes.edits(), text))
    }
}

proof fn lemma_chain_drop_first(stack: Seq<Transaction>, text: Seq<char>)
    requires
        stack.len() > 0,
        chain_ok(stack, text),
    ensures
        chain_ok(stack.drop_first(), text),
    decreases stack.len(),
{
    if stack.len() > 1 {
        let top = stack.last();
        assert(stack.drop_first().last() == top);
        assert(stack.drop_first().drop_last() =~= stack.drop_last().drop_first());
        lemma_chain_drop_first(stack.drop_last(), apply_ops(top.changes.edits(), text));
    } else {
        assert(stack.drop_first() =~= Seq::<Transaction>::empty());
    }
}

proof fn lemma_chain_push(stack: Seq<Transaction>, before: Seq<char>, inv: Transaction, after: Seq<char>)
    requires
        chain_ok(stack, before),
        inv.wf(),
        inv.changes.doc_len == after.len(),
        apply_ops(inv.changes.edits(), after) == before,
    ensures
        chain_ok(stack.push(inv), after),
{
    assert(stack.push(inv).drop_last() =~= stack);
}

/// The undo entries after pushing `tx` onto `stack`, with the oldest dropped
/// past the bound.
pub open spec fn pushed_bounded(stack: Seq<Transaction>, tx: Transaction) -> Seq<Transaction> {
    if stack.len() < MAX_HISTORY_SIZE {
        stack.push(tx)
    } else {
        stack.push(tx).drop_first()
    }
}

/// `tx` undoes `ops` made on `text` and restores the selection `ranges`
/// with primary index `primary`.
pub open spec fn undoes(tx: Transaction, ops: Seq<OpView>, text: Seq<char>, ranges: Seq<Range>, primary: int) -> bool {
    &&& tx.changes.doc_len == dst_len(ops)
    &&& tx.changes.edits() == invert_ops(ops, text)
    &&& tx.selection is Some
    &&& tx.selection->0@ == ranges
    &&& tx.selection->0.primary_index() == primary
}

/// A range with both ends mapped through the operations.
pub open spec fn map_range(ops: Seq<OpView>, r: Range) -> Range {
    Range {
        anchor: map_through(ops, 0, 0, r.anchor as int) as usize,
        head: map_through(ops, 0, 0, r.head as int) as usize,
    }
}

/// A document: its text, a selection per view, its history and versions.
#[derive(Debug)]
pub struct Document {
    pub id: DocumentId,
    pub rope: Rope,
    /// Where the document is saved, if anywhere.
    pub path: Option<String>,
    /// Whether the version differs from the saved one.
    pub modified: bool,
    pub selections: HashMap<usize, Selection>,
    pub history: History,
    pub line_ending: LineEnding,
    pub encoding: &'static str,
    /// Language tag for syntax highlighting.
    pub language: Option<String>,
    pub last_saved_version: usize,
    pub version: usize,
}

impl Document {
    /// The chars of the document.
    pub open spec fn text_view(&self) -> Seq<char> {
        rope_chars(self.rope)
    }

    /// The selections of the views that have one, by view index.
    pub open spec fn selection_map(&self) -> Map<usize, Selection> {
        self.selections@
    }

    pub open spec fn history_view(&self) -> History {
        self.history
    }

    pub open spec fn version_view(&self) -> nat {
        self.version as nat
    }

    pub open spec fn saved_version_view(&self) -> nat {
        self.last_saved_version as nat
    }

    /// The selection ranges of a view: its own, or a point at `0` for a view
    /// that has none yet.
    pub open spec fn view_ranges(&self, view: ViewId) -> Seq<Range> {
        if self.selection_map().contains_key(view.index()) {
            self.selection_map()[view.index()]@
        } else {
            seq![Range { anchor: 0, head: 0 }]
        }
    }

    pub open spec fn view_primary(&self, view: ViewId) -> int {
        if self.selection_map().contains_key(view.index()) {
            self.selection_map()[view.index()].primary_index()
        } else {
            0
        }
    }

    /// Every selection is well formed, the history bounded and applicable in
    /// order, and `modified` tells whether the version is the saved one.
    pub open spec fn wf(&self) -> bool {
        &&& forall|k: usize| #[trigger] self.selection_map().contains_key(k) ==> self.selection_map()[k].wf()
        &&& self.history_view().wf()
        &&& chain_ok(self.history_view().undo_entries(), self.text_view())
        &&& chain_ok(self.history_view().redo_entries(), self.text_view())
        &&& self.modified == (self.version_view() != self.saved_version_view())
    }

    /// An empty document.
    pub fn new(ids: &mut IdGenerator) -> (r: Document)
        requires
            old(ids).upcoming() < usize::MAX,
        ensures
            r.wf(),
            r.id.index() == old(ids).upcoming(),
            final(ids).upcoming() == old(ids).upcoming() + 1,
            r.text_view() == Seq::<char>::empty(),
            r.selection_map() == Map::<usize, Selection>::empty(),
            r.history_view().undo_entries().len() == 0,
            r.history_view().redo_entries().len() == 0,
            r.line_ending == LineEnding::LF,
            r.path is None,
            r.language is None,
            !r.modified,
            r.version_view() == 0,
    {
        Document {
            id: DocumentId::next(ids),
            rope: rope_new(),
            path: None,
            modified: false,
            selections: HashMap::new(),
            history: History::new(),
            line_ending: LineEnding::LF,
            encoding: "utf-8",
            language: None,
            last_saved_version: 0,
            version: 0,
        }
    }

    /// A document holding `text`, with the line ending found in it.
    pub fn from_text(ids: &mut IdGenerator, text: &str) -> (r: Document)
        requires
            old(ids).upcoming() < usize::MAX,
        ensures
            r.wf(),
            r.id.index() == old(ids).upcoming(),
            final(ids).upcoming() == old(ids).upcoming() + 1,
            r.text_view() == text@,
            r.selection_map() == Map::<usize, Selection>::empty(),
            r.history_view().undo_entries().len() == 0,
            r.history_view().redo_entries().len() == 0,
            r.line_ending == (if has_crlf_spec(text@) { LineEnding::CRLF } else { LineEnding::LF }),
            r.path is None,
            r.language is None,
            !r.modified,
            r.version_view() == 0,
    {
        let line_ending = LineEnding::detect(text);
        Document {
            id: DocumentId::next(ids),
            rope: rope_from_str(text),
            path: None,
            modified: false,
            selections: HashMap::new(),
            history: History::new(),
            line_ending,
            encoding: "utf-8",
            language: None,
            last_saved_version: 0,
            version: 0,
        }
    }

    /// The text buffer.
    pub fn rope(&self) -> (r: &Rope)
        ensures
            rope_chars(*r) == self.text_view(),
    {
        &self.rope
    }

    /// The undo history.
    pub fn history(&self) -> (r: &History)
        ensures
            *r == self.history_view(),
    {
        &self.history
    }

    pub fn version(&self) -> (r: usize)
        ensures
            r == self.version_view(),
    {
        self.version
    }

    /// The full text.
    pub fn text(&self) -> (r: String)
        ensures
            r@ == self.text_view(),
    {
        rope_to_string(&self.rope)
    }

    pub fn len_chars(&self) -> (r: usize)
        ensures
            r == self.text_view().len(),
    {
        rope_len_chars(&self.rope)
    }

    pub fn is_empty(&self) -> (r: bool)
        ensures
            r == (self.text_view().len() == 0),
    {
        rope_len_chars(&self.rope) == 0
    }

    /// The selection of `view`: its own, or a point at `0` if it has none yet.
    pub fn selection(&self, view: ViewId) -> (r: Selection)
        requires
            self.wf(),
        ensures
            r.wf(),
            r@ == self.view_ranges(view),
            r.primary_index() == self.view_primary(view),
    {
        match self.selections.get(&view.0) {
            Some(s) => {
                assert(self.selection_map().contains_key(view.index()));
                assert(self.selection_map()[view.index()] == *s);
                s.clone()
            },
            None => Selection::point(0),
        }
    }

    /// Gives `view` the selection `selection`.
    pub fn set_selection(&mut self, view: ViewId, selection: Selection)
        requires
            old(self).wf(),
            selection.wf(),
        ensures
            final(self).wf(),
            final(self).selection_map() == old(self).selection_map().insert(view.index(), selection),
            final(self).text_view() == old(self).text_view(),
            final(self).history_view() == old(self).history_view(),
            final(self).version_view() == old(self).version_view(),
            final(self).modified == old(self).modified,
    {
        self.selections.insert(view.0, selection);
        assert forall|k: usize| #[trigger] self.selection_map().contains_key(k) implies self.selection_map()[k].wf() by {
            if k != view.0 {
                assert(old(self).selection_map().contains_key(k));
            }
        }
    }

    /// Forgets the selection of a view that was closed.
    pub fn remove_view(&mut self, view: ViewId)
        requires
            old(self).wf(),
        ensures
            final(self).wf(),
            final(self).selection_map() == old(self).selection_map().remove(view.index()),
            final(self).text_view() == old(self).text_view(),
            final(self).history_view() == old(self).history_view(),
            final(self).version_view() == old(self).version_view(),
    {
        self.selections.remove(&view.0);
        assert forall|k: usize| #[trigger] self.selection_map().contains_key(k) implies self.selection_map()[k].wf() by {
            assert(old(self).selection_map().contains_key(k));
        }
    }

    /// The number of lines of the text.
    pub fn len_lines(&self) -> (r: usize)
        ensures
            r == line_count(self.text_view()),
    {
        rope_len_lines(&self.rope)
    }

    /// The file name of the path, or `untitled` without one.
    pub fn name(&self) -> (r: String)
        ensures
            ({
                let fallback = "untitled"@;
                match self.path {
                    Some(p) => match file_name_of(p@) {
                        Some(n) => r@ == n,
                        None => r@ == fallback,
                    },
                    None => r@ == fallback,
                }
            }),
    {
        let named = match &self.path {
            Some(p) => path_file_name(p.as_str()),
            None => None,
        };
        match named {
            Some(n) => n,
            None => "untitled".to_owned(),
        }
    }

    /// The name, marked with ` *` while there are unsaved changes.
    pub fn title(&self) -> (r: String)
        ensures
            ({
                let n = if self.path is Some && file_name_of(self.path->0@) is Some {
                    file_name_of(self.path->0@)->0
                } else {
                    "untitled"@
                };
                r@ == if self.modified { n + " *"@ } else { n }
            }),
    {
        let name = self.name();
        if self.modified {
            name.concat(" *")
        } else {
            name
        }
    }

    /// Gives the document a path, and the language found from it.
    pub fn set_path(&mut self, path: &str)
        requires
            old(self).wf(),
        ensures
            final(self).wf(),
            final(self).path matches Some(p) && p@ == path@,
            match extension_of(path@) {
                Some(e) => match final(self).language {
                    Some(l) => language_of_extension(e) == Some(l@),
                    None => language_of_extension(e) is None,
                },
                None => final(self).language is None,
            },
            final(self).text_view() == old(self).text_view(),
            final(self).selection_map() == old(self).selection_map(),
            final(self).history_view() == old(self).history_view(),
            final(self).version_view() == old(self).version_view(),
            final(self).modified == old(self).modified,
    {
        self.path = Some(path.to_owned());
        self.language = detect_language(path);
        assert forall|k: usize| #[trigger] self.selection_map().contains_key(k) implies self.selection_map()[k].wf() by {
            assert(old(self).selection_map().contains_key(k));
        }
    }

    /// Records that the text as it is now was saved.
    pub fn mark_saved(&mut self)
        requires
            old(self).wf(),
        ensures
            final(self).wf(),
            !final(self).modified,
            final(self).saved_version_view() == old(self).version_view(),
            final(self).version_view() == old(self).version_view(),
            final(self).text_view() == old(self).text_view(),
            final(self).selection_map() == old(self).selection_map(),
            final(self).history_view() == old(self).history_view(),
    {
        self.modified = false;
        self.last_saved_version = self.version;
        assert forall|k: usize| #[trigger] self.selection_map().contains_key(k) implies self.selection_map()[k].wf() by {
            assert(old(self).selection_map().contains_key(k));
        }
    }
    proof fn lemma_selections_kept(old_map: Map<usize, Selection>, new_map: Map<usize, Selection>, k: usize, s: Selection)
        requires
            forall|j: usize| #[trigger] old_map.contains_key(j) ==> old_map[j].wf(),
            new_map == old_map.insert(k, s),
            s.wf(),
        ensures
            forall|j: usize| #[trigger] new_map.contains_key(j) ==> new_map[j].wf(),
    {
        assert forall|j: usize| #[trigger] new_map.contains_key(j) implies new_map[j].wf() by {
            if j != k {
                assert(old_map.contains_key(j));
            }
        }
    }

    /// Applies `tx` for `view`. A transaction of retains alone changes nothing
    /// and gives `false`. Otherwise the text changes, the view gets the
    /// transaction's selection or its own mapped through the changes, the
    /// inverse goes onto the undo stack (clearing redo), the version goes up,
    /// and the result is `true`.
    pub fn apply(&mut self, tx: &Transaction, view: ViewId) -> (r: bool)
        requires
            old(self).wf(),
            tx.wf(),
            tx.changes.doc_len == old(self).text_view().len(),
            old(self).version < usize::MAX,
        ensures
            final(self).wf(),
            r == !(forall|i: int|
                0 <= i < tx.changes.edits().len() ==> (#[trigger] tx.changes.edits()[i]) is Retain),
            !r ==> *final(self) == *old(self),
            r ==> {
                let e = tx.changes.edits();
                let text = old(self).text_view();
                let undo = final(self).history_view().undo_entries();
                let new_sel = final(self).selection_map()[view.index()];
                &&& final(self).text_view() == apply_ops(e, text)
                &&& final(self).version_view() == old(self).version_view() + 1
                &&& final(self).saved_version_view() == old(self).saved_version_view()
                &&& final(self).history_view().redo_entries().len() == 0
                &&& undo.len() > 0
                &&& undoes(undo.last(), e, text, old(self).view_ranges(view), old(self).view_primary(view))
                &&& undo.drop_last() == pushed_bounded(old(self).history_view().undo_entries(), undo.last()).drop_last()
                &&& final(self).selection_map().dom() == old(self).selection_map().dom().insert(view.index())
                &&& forall|k: usize| k != view.index() && #[trigger] old(self).selection_map().contains_key(k)
                    ==> final(self).selection_map()[k] == old(self).selection_map()[k]
                &&& tx.selection is Some ==> new_sel@ == tx.selection->0@
                    && new_sel.primary_index() == tx.selection->0.primary_index()
                &&& tx.selection is None ==> normal_form(
                    old(self).view_ranges(view).map_values(|x: Range| map_range(e, x)),
                    new_sel@,
                )
            },
    {
        if tx.is_empty() {
            return false;
        }
        let ghost e = tx.changes.edits();
        let ghost text = self.text_view();
        let ghost old_map = self.selection_map();
        let old_selection = self.selection(view);
        let inverse = tx.invert(&self.rope, &old_selection);
        tx.apply(&mut self.rope);
        match &tx.selection {
            Some(sel) => {
                let s = sel.clone();
                self.selections.insert(view.0, s);
            },
            None => {
                let changes = &tx.changes;
                let map_both = (|x: &Range| -> (y: Range)
                    requires
                        changes.wf(),
                    ensures
                        (y == map_range(changes.edits(), *x)),
                    { Range::new(changes.map_pos(x.anchor), changes.map_pos(x.head)) });
                let new_sel = old_selection.transform(map_both);
                proof {
                    let mapped = choose|mapped: Seq<Range>| {
                        &&& mapped.len() == old_selection@.len()
                        &&& forall|i: int| 0 <= i < old_selection@.len() ==> #[trigger] mapped[i] == map_range(e, old_selection@[i])
                        &&& normal_form(mapped, new_sel@)
                    };
                    assert(mapped =~= old_selection@.map_values(|x: Range| map_range(e, x)));
                }
                self.selections.insert(view.0, new_sel);
            },
        }
        let ghost old_undo = self.history.undo_entries();
        proof {
            lemma_invert_round_trip(e, text);
            lemma_apply_len(e, text);
            lemma_chain_push(old_undo, text, inverse, self.text_view());
            Self::lemma_selections_kept(old_map, self.selection_map(), view.0, self.selection_map()[view.0]);
        }
        self.history.push(inverse);
        proof {
            if old_undo.len() == MAX_HISTORY_SIZE {
                lemma_chain_drop_first(old_undo.push(inverse), self.text_view());
            }
            assert(self.history.undo_entries().last() == inverse);
            assert(self.history.undo_entries().drop_last() =~= pushed_bounded(old_undo, inverse).drop_last());
        }
        self.version = self.version + 1;
        self.modified = self.version != self.last_saved_version;
        true
    }

    /// Undoes the newest edit for `view`: `false` with nothing changed when
    /// there is none. Otherwise the entry is applied, the view gets the
    /// selection it carries, its inverse against the text as it was goes onto
    /// the redo stack, and the version goes up.
    pub fn undo(&mut self, view: ViewId) -> (r: bool)
        requires
            old(self).wf(),
            old(self).version < usize::MAX,
        ensures
            final(self).wf(),
            r == (old(self).history_view().undo_entries().len() > 0),
            !r ==> *final(self) == *old(self),
            r ==> {
                let tx = old(self).history_view().undo_entries().last();
                let e = tx.changes.edits();
                let text = old(self).text_view();
                let redo = final(self).history_view().redo_entries();
                &&& final(self).text_view() == apply_ops(e, text)
                &&& final(self).version_view() == old(self).version_view() + 1
                &&& final(self).saved_version_view() == old(self).saved_version_view()
                &&& final(self).history_view().undo_entries() == old(self).history_view().undo_entries().drop_last()
                &&& redo.len() == old(self).history_view().redo_entries().len() + 1
                &&& redo.drop_last() == old(self).history_view().redo_entries()
                &&& undoes(redo.last(), e, text, old(self).view_ranges(view), old(self).view_primary(view))
                &&& tx.selection is Some ==> final(self).selection_map().dom() == old(self).selection_map().dom().insert(view.index())
                    && final(self).selection_map()[view.index()]@ == tx.selection->0@
                    && final(self).selection_map()[view.index()].primary_index() == tx.selection->0.primary_index()
                    && forall|k: usize| k != view.index() && #[trigger] old(self).selection_map().contains_key(k)
                        ==> final(self).selection_map()[k] == old(self).selection_map()[k]
                &&& tx.selection is None ==> final(self).selection_map() == old(self).selection_map()
            },
    {
        if !self.history.can_undo() {
            return false;
        }
        let ghost text = self.text_view();
        let ghost old_map = self.selection_map();
        let ghost old_redo = self.history.redo_entries();
        let old_selection = self.selection(view);
        let tx = match self.history.undo() {
            Some(tx) => tx,
            None => {
                return false;
            },
        };
        let ghost e = tx.changes.edits();
        let inverse = tx.invert(&self.rope, &old_selection);
        tx.apply(&mut self.rope);
        if let Some(sel) = &tx.selection {
            let s = sel.clone();
            self.selections.insert(view.0, s);
            proof {
                Self::lemma_selections_kept(old_map, self.selection_map(), view.0, self.selection_map()[view.0]);
            }
        }
        proof {
            lemma_invert_round_trip(e, text);
            lemma_apply_len(e, text);
            lemma_chain_push(old_redo, text, inverse, self.text_view());
        }
        self.history.push_redo(inverse);
        self.version = self.version + 1;
        self.modified = self.version != self.last_saved_version;
        true
    }

    /// Redoes the newest undone edit for `view`: `false` with nothing changed
    /// when there is none. Otherwise the entry is applied, the view gets the
    /// selection it carries, its inverse goes back onto the undo stack, and the
    /// version goes up.
    pub fn redo(&mut self, view: ViewId) -> (r: bool)
        requires
            old(self).wf(),
            old(self).version < usize::MAX,
        ensures
            final(self).wf(),
            r == (old(self).history_view().redo_entries().len() > 0),
            !r ==> *final(self) == *old(self),
            r ==> {
                let tx = old(self).history_view().redo_entries().last();
                let e = tx.changes.edits();
                let text = old(self).text_view();
                let undo = final(self).history_view().undo_entries();
                &&& final(self).text_view() == apply_ops(e, text)
                &&& final(self).version_view() == old(self).version_view() + 1
                &&& final(self).saved_version_view() == old(self).saved_version_view()
                &&& final(self).history_view().redo_entries() == old(self).history_view().redo_entries().drop_last()
                &&& undo.len() > 0
                &&& undoes(undo.last(), e, text, old(self).view_ranges(view), old(self).view_primary(view))
                &&& undo.drop_last() == pushed_bounded(old(self).history_view().undo_entries(), undo.last()).drop_last()
                &&& tx.selection is Some ==> final(self).selection_map().dom() == old(self).selection_map().dom().insert(view.index())
                    && final(self).selection_map()[view.index()]@ == tx.selection->0@
                    && final(self).selection_map()[view.index()].primary_index() == tx.selection->0.primary_index()
                    && forall|k: usize| k != view.index() && #[trigger] old(self).selection_map().contains_key(k)
                        ==> final(self).selection_map()[k] == old(self).selection_map()[k]
                &&& tx.selection is None ==> final(self).selection_map() == old(self).selection_map()
            },
    {
        if !self.history.can_redo() {
            return false;
        }
        let ghost text = self.text_view();
        let ghost old_map = self.selection_map();
        let ghost old_undo = self.history.undo_entries();
        let old_selection = self.selection(view);
        let tx = match self.history.redo() {
            Some(tx) => tx,
            None => {
                return false;
            },
        };
        let ghost e = tx.changes.edits();
        let inverse = tx.invert(&self.rope, &old_selection);
        tx.apply(&mut self.rope);
        if let Some(sel) = &tx.selection {
            let s = sel.clone();
            self.selections.insert(view.0, s);
            proof {
                Self::lemma_selections_kept(old_map, self.selection_map(), view.0, self.selection_map()[view.0]);
            }
        }
        proof {
            lemma_invert_round_trip(e, text);
            lemma_apply_len(e, text);
            lemma_chain_push(old_undo, text, inverse, self.text_view());
        }
        self.history.push_undo(inverse);
        proof {
            if old_undo.len() == MAX_HISTORY_SIZE {
                lemma_chain_drop_first(old_undo.push(inverse), self.text_view());
            }
            assert(self.history.undo_entries().last() == inverse);
            assert(self.history.undo_entries().drop_last() =~= pushed_bounded(old_undo, inverse).drop_last());
        }
        self.version = self.version + 1;
        self.modified = self.version != self.last_saved_version;
        true
    }
}

} // verus!
