//! Editing commands, as functions from the text and the selection to the
//! transaction that carries the edit out. A cursor past the end of the text
//! counts as the end.
use crate::config::IndentStyle;
use crate::document::LineEnding;
use crate::motion::at_most;
use crate::position::line_content_len;
use crate::rope_ext::RopeExt;
use crate::selection::{Range, Selection};
use crate::text::{
    lemma_line_bounds, lemma_line_ordered, line_count, line_end, line_of, line_start, rope_char,
    rope_char_to_line, rope_chars, rope_len_chars, rope_len_lines, rope_line_to_char,
    rope_substring,
};
use crate::transaction::{change_ops, Transaction};
use ropey::Rope;
use vstd::prelude::*;

verus! {

/// The primary cursor, held to the end of the text.
pub open spec fn cursor_at(s: Seq<char>, sel: Selection) -> int {
    at_most(sel.primary_range().head as int, s.len() as int)
}

/// The line that holds the primary cursor.
pub open spec fn cursor_line(s: Seq<char>, sel: Selection) -> nat {
    line_of(s, cursor_at(s, sel))
}

/// `tx` replaces the chars `start .. end` of a text of `len` chars by `text`
/// and leaves the selection it carries, if any.
pub open spec fn edits_as(tx: Transaction, len: nat, start: int, end: int, text: Seq<char>) -> bool {
    &&& tx.wf()
    &&& tx.changes.doc_len == len
    &&& tx.changes.edits() == change_ops(len, start as nat, end as nat, text)
}

/// `tx` carries a single cursor at `pos`.
pub open spec fn leaves_cursor(tx: Transaction, pos: int) -> bool {
    &&& tx.selection is Some
    &&& tx.selection->0@ == seq![Range { anchor: pos as usize, head: pos as usize }]
}

fn clamped_cursor(rope: &Rope, selection: &Selection) -> (r: usize)
    requires
        selection.wf(),
    ensures
        r == cursor_at(rope_chars(*rope), *selection),
{
    let len = rope_len_chars(rope);
    let c = selection.cursor();
    if c <= len {
        c
    } else {
        len
    }
}

fn spaces(n: usize) -> (r: String)
    ensures
        r@ == Seq::new(n as nat, |i: int| ' '),
{
    let mut s = String::new();
    let mut i: usize = 0;
    while i < n
        invariant
            i <= n,
            s@ == Seq::new(i as nat, |j: int| ' '),
        decreases n - i,
    {
        s.append(" ");
        proof { reveal_strlit(" "); }
        i = i + 1;
        assert(s@ =~= Seq::new(i as nat, |j: int| ' '));
    }
    s
}

/// What typing `c` inserts: a tab becomes `tab_width` spaces where the
/// indent style is spaces.
pub open spec fn typed_text(c: char, style: IndentStyle, tab_width: usize) -> Seq<char> {
    if c == '\t' && style == IndentStyle::Spaces {
        Seq::new(tab_width as nat, |i: int| ' ')
    } else {
        seq![c]
    }
}

/// Types `c` at the primary cursor, which then stands after it.
pub fn insert_char(rope: &Rope, selection: &Selection, c: char, style: IndentStyle, tab_width: usize) -> (r: Transaction)
    requires
        selection.wf(),
        rope_chars(*rope).len() + tab_width + 1 <= usize::MAX,
    ensures
        ({
            let s = rope_chars(*rope);
            let at = cursor_at(s, *selection);
            let text = typed_text(c, style, tab_width);
            &&& edits_as(r, s.len(), at, at, text)
            &&& leaves_cursor(r, at + text.len())
        }),
{
    let len = rope_len_chars(rope);
    let cursor = clamped_cursor(rope, selection);
    let text = if c == '\t' && style == IndentStyle::Spaces {
        spaces(tab_width)
    } else {
        char_text(c)
    };
    let n = text.unicode_len();
    let tx = Transaction::insert(len, cursor, text.as_str());
    tx.with_selection(Selection::point(cursor + n))
}

/// Relies on `From<char> for String`: the text of the one char `c`.
#[verifier::external_body]
fn char_text(c: char) -> (r: String)
    ensures
        r@ == seq![c],
{
    String::from(c)
}

/// Inserts the document's line ending at the primary cursor, which then
/// stands after it.
pub fn insert_newline(rope: &Rope, selection: &Selection, line_ending: LineEnding) -> (r: Transaction)
    requires
        selection.wf(),
        rope_chars(*rope).len() + 2 <= usize::MAX,
    ensures
        ({
            let s = rope_chars(*rope);
            let at = cursor_at(s, *selection);
            &&& edits_as(r, s.len(), at, at, line_ending.chars())
            &&& leaves_cursor(r, at + line_ending.chars().len())
        }),
{
    let len = rope_len_chars(rope);
    let cursor = clamped_cursor(rope, selection);
    let le = line_ending.as_str();
    let n = le.unicode_len();
    Transaction::insert(len, cursor, le).with_selection(Selection::point(cursor + n))
}

/// Opens a line below the cursor's line: the line ending goes in at the end
/// of its content, and the cursor after it.
pub fn insert_newline_below(rope: &Rope, selection: &Selection, line_ending: LineEnding) -> (r: Transaction)
    requires
        selection.wf(),
        rope_chars(*rope).len() + 2 <= usize::MAX,
    ensures
        ({
            let s = rope_chars(*rope);
            let l = cursor_line(s, *selection);
            let at = line_start(s, l) + line_content_len(s, l);
            &&& edits_as(r, s.len(), at, at, line_ending.chars())
            &&& leaves_cursor(r, at + line_ending.chars().len())
        }),
{
    let len = rope_len_chars(rope);
    let cursor = clamped_cursor(rope, selection);
    let line = rope_char_to_line(rope, cursor);
    proof { lemma_line_bounds(rope_chars(*rope), cursor as int); }
    let at = rope.position_to_char(crate::position::Position::new(line, rope.line_len_chars(line)));
    let le = line_ending.as_str();
    let n = le.unicode_len();
    Transaction::insert(len, at, le).with_selection(Selection::point(at + n))
}

/// Opens a line above the cursor's line: the line ending goes in at its
/// start, and the cursor stays at that start.
pub fn insert_newline_above(rope: &Rope, selection: &Selection, line_ending: LineEnding) -> (r: Transaction)
    requires
        selection.wf(),
        rope_chars(*rope).len() + 2 <= usize::MAX,
    ensures
        ({
            let s = rope_chars(*rope);
            let at = line_start(s, cursor_line(s, *selection));
            &&& edits_as(r, s.len(), at, at, line_ending.chars())
            &&& leaves_cursor(r, at)
        }),
{
    let len = rope_len_chars(rope);
    let cursor = clamped_cursor(rope, selection);
    let line = rope_char_to_line(rope, cursor);
    proof { lemma_line_bounds(rope_chars(*rope), cursor as int); }
    let at = rope_line_to_char(rope, line);
    Transaction::insert(len, at, line_ending.as_str()).with_selection(Selection::point(at))
}

/// Whether some range of the selection is more than a point.
pub open spec fn has_span(sel: Selection) -> bool {
    exists|i: int| 0 <= i < sel@.len() && (#[trigger] sel@[i]).anchor != sel@[i].head
}

/// Deletes the primary range where some range is more than a point, else the
/// char before the cursor; nothing at the start of the text.
pub fn delete_backward(rope: &Rope, selection: &Selection) -> (r: Option<Transaction>)
    requires
        selection.wf(),
    ensures
        ({
            let s = rope_chars(*rope);
            let p = selection.primary_range();
            let at = cursor_at(s, *selection);
            if has_span(*selection) && p.hi() <= s.len() {
                r matches Some(tx) && edits_as(tx, s.len(), p.lo(), p.hi(), Seq::empty()) && leaves_cursor(tx, p.lo())
            } else if !has_span(*selection) && at > 0 {
                r matches Some(tx) && edits_as(tx, s.len(), at - 1, at, Seq::empty()) && leaves_cursor(tx, at - 1)
            } else {
                r is None
            }
        }),
{
    delete_either(rope, selection, false)
}

/// Deletes the primary range where some range is more than a point, else the
/// char after the cursor; nothing at the end of the text.
pub fn delete_forward(rope: &Rope, selection: &Selection) -> (r: Option<Transaction>)
    requires
        selection.wf(),
    ensures
        ({
            let s = rope_chars(*rope);
            let p = selection.primary_range();
            let at = cursor_at(s, *selection);
            if has_span(*selection) && p.hi() <= s.len() {
                r matches Some(tx) && edits_as(tx, s.len(), p.lo(), p.hi(), Seq::empty()) && leaves_cursor(tx, p.lo())
            } else if !has_span(*selection) && at < s.len() {
                r matches Some(tx) && edits_as(tx, s.len(), at, at + 1, Seq::empty()) && leaves_cursor(tx, at)
            } else {
                r is None
            }
        }),
{
    delete_either(rope, selection, true)
}

fn delete_either(rope: &Rope, selection: &Selection, forward: bool) -> (r: Option<Transaction>)
    requires
        selection.wf(),
    ensures
        ({
            let s = rope_chars(*rope);
            let p = selection.primary_range();
            let at = cursor_at(s, *selection);
            if has_span(*selection) && p.hi() <= s.len() {
                r matches Some(tx) && edits_as(tx, s.len(), p.lo(), p.hi(), Seq::empty()) && leaves_cursor(tx, p.lo())
            } else if !has_span(*selection) && !forward && at > 0 {
                r matches Some(tx) && edits_as(tx, s.len(), at - 1, at, Seq::empty()) && leaves_cursor(tx, at - 1)
            } else if !has_span(*selection) && forward && at < s.len() {
                r matches Some(tx) && edits_as(tx, s.len(), at, at + 1, Seq::empty()) && leaves_cursor(tx, at)
            } else {
                r is None
            }
        }),
{
    let len = rope_len_chars(rope);
    if selection.has_selection() {
        let range = selection.primary();
        if range.end() > len {
            return None;
        }
        let tx = Transaction::delete(len, range.start(), range.end());
        return Some(tx.with_selection(Selection::point(range.start())));
    }
    let cursor = clamped_cursor(rope, selection);
    if forward {
        if cursor < len {
            Some(Transaction::delete(len, cursor, cursor + 1).with_selection(Selection::point(cursor)))
        } else {
            None
        }
    } else if cursor > 0 {
        Some(Transaction::delete(len, cursor - 1, cursor).with_selection(Selection::point(cursor - 1)))
    } else {
        None
    }
}

/// Deletes the cursor's line with its line break; nothing on an empty last line.
pub fn delete_line(rope: &Rope, selection: &Selection) -> (r: Option<Transaction>)
    requires
        selection.wf(),
    ensures
        ({
            let s = rope_chars(*rope);
            let l = cursor_line(s, *selection);
            let a = line_start(s, l);
            let b = line_end(s, l);
            if a < b {
                r matches Some(tx) && edits_as(tx, s.len(), a, b, Seq::empty()) && leaves_cursor(tx, a)
            } else {
                r is None
            }
        }),
{
    let len = rope_len_chars(rope);
    let cursor = clamped_cursor(rope, selection);
    let line = rope_char_to_line(rope, cursor);
    proof {
        lemma_line_bounds(rope_chars(*rope), cursor as int);
        lemma_line_ordered(rope_chars(*rope), line as nat);
    }
    let start = rope_line_to_char(rope, line);
    let lines = rope_len_lines(rope);
    assert(line < lines);
    let end = rope_line_to_char(rope, line + 1);
    if start < end {
        Some(Transaction::delete(len, start, end).with_selection(Selection::point(start)))
    } else {
        None
    }
}

/// What indenting inserts: a tab, or `tab_width` spaces.
pub open spec fn indent_text(style: IndentStyle, tab_width: usize) -> Seq<char> {
    if style == IndentStyle::Spaces {
        Seq::new(tab_width as nat, |i: int| ' ')
    } else {
        seq!['\t']
    }
}

/// Indents the cursor's line at its start.
pub fn indent(rope: &Rope, selection: &Selection, style: IndentStyle, tab_width: usize) -> (r: Transaction)
    requires
        selection.wf(),
        rope_chars(*rope).len() + tab_width + 1 <= usize::MAX,
    ensures
        ({
            let s = rope_chars(*rope);
            let at = line_start(s, cursor_line(s, *selection));
            edits_as(r, s.len(), at, at, indent_text(style, tab_width)) && r.selection is None
        }),
{
    let len = rope_len_chars(rope);
    let cursor = clamped_cursor(rope, selection);
    let line = rope_char_to_line(rope, cursor);
    proof { lemma_line_bounds(rope_chars(*rope), cursor as int); }
    let at = rope_line_to_char(rope, line);
    let text = if style == IndentStyle::Spaces {
        spaces(tab_width)
    } else {
        char_text('\t')
    };
    assert(text@ == indent_text(style, tab_width));
    Transaction::insert(len, at, text.as_str())
}

/// How many leading chars unindenting removes from `t`: one tab, or up to
/// `tab_width` spaces.
pub open spec fn unindent_count(t: Seq<char>, tab_width: usize) -> int {
    if t.len() > 0 && t[0] == '\t' {
        1
    } else {
        choose|n: int| #[trigger] space_run(t, tab_width, n)
    }
}

/// `t` starts with `n` spaces, and `n` stops at `tab_width`, at the end of
/// `t`, or before a char that is not a space.
pub open spec fn space_run(t: Seq<char>, tab_width: usize, n: int) -> bool {
    &&& 0 <= n <= tab_width
    &&& n <= t.len()
    &&& forall|j: int| 0 <= j < n ==> #[trigger] t[j] == ' '
    &&& n == tab_width || n == t.len() || t[n] != ' '
}

/// Removes one level of indentation from the start of the cursor's line;
/// nothing where the line does not start with a tab or a space.
pub fn unindent(rope: &Rope, selection: &Selection, tab_width: usize) -> (r: Option<Transaction>)
    requires
        selection.wf(),
    ensures
        ({
            let s = rope_chars(*rope);
            let l = cursor_line(s, *selection);
            let a = line_start(s, l);
            let n = unindent_count(s.subrange(a, line_end(s, l)), tab_width);
            if n > 0 {
                r matches Some(tx) && edits_as(tx, s.len(), a, a + n, Seq::empty()) && tx.selection is None
            } else {
                r is None
            }
        }),
{
    let len = rope_len_chars(rope);
    let cursor = clamped_cursor(rope, selection);
    let line = rope_char_to_line(rope, cursor);
    let ghost s = rope_chars(*rope);
    proof {
        lemma_line_bounds(s, cursor as int);
        lemma_line_ordered(s, line as nat);
    }
    let start = rope_line_to_char(rope, line);
    let lines = rope_len_lines(rope);
    assert(line < lines);
    let end = rope_line_to_char(rope, line + 1);
    let ghost t = s.subrange(start as int, end as int);
    let count = if start < end && rope_char(rope, start) == '\t' {
        1
    } else {
        let mut n: usize = 0;
        while n < tab_width && start + n < end && rope_char(rope, start + n) == ' '
            invariant
                n <= tab_width,
                start + n <= end,
                end <= s.len(),
                s == rope_chars(*rope),
                t == s.subrange(start as int, end as int),
                forall|j: int| 0 <= j < n ==> #[trigger] t[j] == ' ',
            decreases tab_width - n,
        {
            n = n + 1;
        }
        proof {
            assert(space_run(t, tab_width, n as int));
            let c = choose|m: int| #[trigger] space_run(t, tab_width, m);
            if c < n {
                assert(t[c] == ' ');
            } else if n < c {
                assert(t[n as int] == ' ');
            }
        }
        n
    };
    if count > 0 {
        Some(Transaction::delete(len, start, start + count))
    } else {
        None
    }
}

/// What copying takes: the primary range, or the cursor's whole line with
/// its line break.
pub fn copy_text(rope: &Rope, selection: &Selection) -> (r: String)
    requires
        selection.wf(),
    ensures
        ({
            let s = rope_chars(*rope);
            let p = selection.primary_range();
            if p.anchor == p.head {
                r@ == crate::position::line_text(s, cursor_line(s, *selection))
            } else if p.hi() <= s.len() {
                r@ == s.subrange(p.lo(), p.hi())
            } else {
                r@ == Seq::<char>::empty()
            }
        }),
{
    let range = selection.primary();
    if range.is_point() {
        let cursor = clamped_cursor(rope, selection);
        let line = rope_char_to_line(rope, cursor);
        proof {
            lemma_line_bounds(rope_chars(*rope), cursor as int);
            lemma_line_ordered(rope_chars(*rope), line as nat);
        }
        let start = rope_line_to_char(rope, line);
        let lines = rope_len_lines(rope);
    assert(line < lines);
    let end = rope_line_to_char(rope, line + 1);
        rope_substring(rope, start, end)
    } else if range.end() <= rope_len_chars(rope) {
        rope_substring(rope, range.start(), range.end())
    } else {
        String::new()
    }
}

/// Replaces the primary range (or inserts at a primary cursor) with `text`,
/// leaving the cursor after it; nothing for empty text.
pub fn paste(rope: &Rope, selection: &Selection, text: &str) -> (r: Option<Transaction>)
    requires
        selection.wf(),
        rope_chars(*rope).len() + text@.len() <= usize::MAX,
    ensures
        ({
            let s = rope_chars(*rope);
            let p = selection.primary_range();
            let (a, b) = if p.anchor == p.head {
                (cursor_at(s, *selection), cursor_at(s, *selection))
            } else {
                (p.lo(), p.hi())
            };
            if text@.len() == 0 || b > s.len() {
                r is None
            } else {
                r matches Some(tx) && edits_as(tx, s.len(), a, b, text@) && leaves_cursor(tx, a + text@.len())
            }
        }),
{
    let n = text.unicode_len();
    if n == 0 {
        return None;
    }
    let len = rope_len_chars(rope);
    let range = selection.primary();
    let (start, end) = if range.is_point() {
        let c = clamped_cursor(rope, selection);
        (c, c)
    } else {
        (range.start(), range.end())
    };
    if end > len {
        return None;
    }
    Some(Transaction::replace(len, start, end, text).with_selection(Selection::point(start + n)))
}

/// The text of the cursor's line, ending in a line break, inserted at the end
/// of that line's content.
pub open spec fn duplicated_text(t: Seq<char>) -> Seq<char> {
    if t.len() > 0 && t.last() == '\n' {
        t
    } else {
        t + seq!['\n']
    }
}

/// Inserts a copy of the cursor's line (its text with a line break) where
/// the line's content ends.
pub fn duplicate_line(rope: &Rope, selection: &Selection) -> (r: Transaction)
    requires
        selection.wf(),
        2 * rope_chars(*rope).len() + 1 <= usize::MAX,
    ensures
        ({
            let s = rope_chars(*rope);
            let l = cursor_line(s, *selection);
            let at = line_start(s, l) + line_content_len(s, l);
            edits_as(r, s.len(), at, at, duplicated_text(crate::position::line_text(s, l))) && r.selection is None
        }),
{
    let len = rope_len_chars(rope);
    let cursor = clamped_cursor(rope, selection);
    let line = rope_char_to_line(rope, cursor);
    let ghost s = rope_chars(*rope);
    proof {
        lemma_line_bounds(s, cursor as int);
        lemma_line_ordered(s, line as nat);
        assert(crate::position::line_text(s, line as nat).len() == line_end(s, line as nat) - line_start(s, line as nat));
    }
    let start = rope_line_to_char(rope, line);
    let lines = rope_len_lines(rope);
    assert(line < lines);
    let end = rope_line_to_char(rope, line + 1);
    let text = rope_substring(rope, start, end);
    let content = rope.line_len_chars(line);
    let at = start + content;
    let n = text.unicode_len();
    let copy = if n > 0 && text.get_char(n - 1) == '\n' {
        text
    } else {
        proof { reveal_strlit("\n"); }
        text.concat("\n")
    };
    proof {
        assert(copy@ =~= duplicated_text(crate::position::line_text(s, line as nat)));
    }
    Transaction::insert(len, at, copy.as_str())
}

/// Swaps the cursor's line with the one above (up) or below (down); nothing
/// at the first or last line, or for a horizontal direction.
pub fn move_line(rope: &Rope, selection: &Selection, direction: crate::motion::Direction) -> (r: Option<Transaction>)
    requires
        selection.wf(),
    ensures
        ({
            let s = rope_chars(*rope);
            let l = cursor_line(s, *selection);
            if direction == crate::motion::Direction::Up && l > 0 {
                let p = line_start(s, (l - 1) as nat);
                let a = line_start(s, l);
                let b = line_end(s, l);
                r matches Some(tx) && edits_as(tx, s.len(), p, b, s.subrange(a, b) + s.subrange(p, a)) && tx.selection is None
            } else if direction == crate::motion::Direction::Down && l + 1 < line_count(s) {
                let a = line_start(s, l);
                let b = line_start(s, l + 1);
                let c = line_end(s, l + 1);
                r matches Some(tx) && edits_as(tx, s.len(), a, c, s.subrange(b, c) + s.subrange(a, b)) && tx.selection is None
            } else {
                r is None
            }
        }),
{
    let len = rope_len_chars(rope);
    let cursor = clamped_cursor(rope, selection);
    let line = rope_char_to_line(rope, cursor);
    let lines = rope_len_lines(rope);
    let ghost s = rope_chars(*rope);
    proof { lemma_line_bounds(s, cursor as int); }
    if direction == crate::motion::Direction::Up && line > 0 {
        proof {
            lemma_line_ordered(s, (line - 1) as nat);
            lemma_line_ordered(s, line as nat);
        }
        let prev_start = rope_line_to_char(rope, line - 1);
        let this_start = rope_line_to_char(rope, line);
        let this_end = rope_line_to_char(rope, line + 1);
        let this_text = rope_substring(rope, this_start, this_end);
        let prev_text = rope_substring(rope, prev_start, this_start);
        let swapped = this_text.concat(prev_text.as_str());
        Some(Transaction::replace(len, prev_start, this_end, swapped.as_str()))
    } else if direction == crate::motion::Direction::Down && line + 1 < lines {
        proof {
            lemma_line_ordered(s, line as nat);
            lemma_line_ordered(s, (line + 1) as nat);
        }
        let this_start = rope_line_to_char(rope, line);
        let next_start = rope_line_to_char(rope, line + 1);
        let next_end = rope_line_to_char(rope, line + 2);
        let this_text = rope_substring(rope, this_start, next_start);
        let next_text = rope_substring(rope, next_start, next_end);
        let swapped = next_text.concat(this_text.as_str());
        Some(Transaction::replace(len, this_start, next_end, swapped.as_str()))
    } else {
        None
    }
}

/// Whether `c` has Unicode's White_Space property.
pub open spec fn is_white_space(c: char) -> bool {
    let u = c as u32;
    (0x09 <= u && u <= 0x0d) || u == 0x20 || u == 0x85 || u == 0xa0 || u == 0x1680 || (0x2000 <= u
        && u <= 0x200a) || u == 0x2028 || u == 0x2029 || u == 0x202f || u == 0x205f || u == 0x3000
}

fn white_space(c: char) -> (r: bool)
    ensures
        r == is_white_space(c),
{
    let u = c as u32;
    (0x09 <= u && u <= 0x0d) || u == 0x20 || u == 0x85 || u == 0xa0 || u == 0x1680 || (0x2000 <= u
        && u <= 0x200a) || u == 0x2028 || u == 0x2029 || u == 0x202f || u == 0x205f || u == 0x3000
}

/// The number of leading white-space chars of `t`.
pub open spec fn leading_space(t: Seq<char>, n: int) -> bool {
    &&& 0 <= n <= t.len()
    &&& forall|j: int| 0 <= j < n ==> is_white_space(#[trigger] t[j])
    &&& n == t.len() || !is_white_space(t[n])
}

/// Whether `t` holds `// ` at `n`.
pub open spec fn comment_at(t: Seq<char>, n: int) -> bool {
    n + 3 <= t.len() && t[n] == '/' && t[n + 1] == '/' && t[n + 2] == ' '
}

/// Comments the cursor's line out with `// ` after its leading white space,
/// or takes that marker away where the line has it there.
pub fn toggle_comment(rope: &Rope, selection: &Selection) -> (r: Transaction)
    requires
        selection.wf(),
        rope_chars(*rope).len() + 3 <= usize::MAX,
    ensures
        ({
            let s = rope_chars(*rope);
            let l = cursor_line(s, *selection);
            let a = line_start(s, l);
            let t = crate::position::line_text(s, l);
            exists|n: int| {
                &&& #[trigger] leading_space(t, n)
                &&& comment_at(t, n) ==> edits_as(r, s.len(), a + n, a + n + 3, Seq::empty())
                &&& !comment_at(t, n) ==> edits_as(r, s.len(), a + n, a + n, seq!['/', '/', ' '])
                &&& r.selection is None
            }
        }),
{
    let len = rope_len_chars(rope);
    let cursor = clamped_cursor(rope, selection);
    let line = rope_char_to_line(rope, cursor);
    let ghost s = rope_chars(*rope);
    proof {
        lemma_line_bounds(s, cursor as int);
        lemma_line_ordered(s, line as nat);
    }
    let start = rope_line_to_char(rope, line);
    let lines = rope_len_lines(rope);
    assert(line < lines);
    let end = rope_line_to_char(rope, line + 1);
    let ghost t = s.subrange(start as int, end as int);
    let mut n: usize = 0;
    while start + n < end && white_space(rope_char(rope, start + n))
        invariant
            start + n <= end,
            end <= s.len(),
            s == rope_chars(*rope),
            t == s.subrange(start as int, end as int),
            forall|j: int| 0 <= j < n ==> is_white_space(#[trigger] t[j]),
        decreases end - start - n,
    {
        n = n + 1;
    }
    assert(leading_space(t, n as int));
    let at = start + n;
    let commented = at + 3 <= end && rope_char(rope, at) == '/' && rope_char(rope, at + 1) == '/'
        && rope_char(rope, at + 2) == ' ';
    assert(commented == comment_at(t, n as int));
    assert(t == crate::position::line_text(s, line as nat));
    assert(leading_space(crate::position::line_text(s, line as nat), n as int));
    let r = if commented {
        Transaction::delete(len, at, at + 3)
    } else {
        proof { reveal_strlit("// "); }
        let marker = "// ";
        assert(marker@ =~= seq!['/', '/', ' ']);
        Transaction::insert(len, at, marker)
    };
    proof {
        let l = cursor_line(s, *selection);
        assert(l == line);
        let tl = crate::position::line_text(s, l);
        assert(leading_space(tl, n as int));
        assert(comment_at(tl, n as int) ==> edits_as(r, s.len(), start + n, start + n + 3, Seq::empty()));
        assert(!comment_at(tl, n as int) ==> edits_as(r, s.len(), start + n, start + n, seq!['/', '/', ' ']));
    }
    r
}

} // verus!
