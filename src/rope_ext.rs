//! Line, position and word queries on the text buffer.
use crate::position::{line_content_len, line_text, trim_line_end, Position};
use crate::text::{
    lemma_line_bounds, lemma_line_ordered, line_count, line_end, line_of, line_start, rope_char,
    rope_char_to_line, rope_chars, rope_len_chars, rope_len_lines, rope_line_to_char,
    rope_substring, rope_len_bytes, rope_char_to_byte, utf8_len, lemma_utf8_len_range,
};
use ropey::Rope;
use vstd::prelude::*;

verus! {

/// Whether `c` is alphabetic or numeric in Unicode's sense.
pub uninterp spec fn alphanumeric(c: char) -> bool;

/// Relies on `char::is_alphanumeric`: Unicode alphabetic or numeric; ASCII
/// letters and digits are, the space is not.
#[verifier::external_body]
fn char_is_alphanumeric(c: char) -> (r: bool)
    ensures
        r == alphanumeric(c),
        ('a' <= c <= 'z' || 'A' <= c <= 'Z' || '0' <= c <= '9') ==> r,
        c == ' ' ==> !r,
{
    c.is_alphanumeric()
}

/// A char that words are made of: alphanumeric, or the underscore.
pub open spec fn word_char(c: char) -> bool {
    alphanumeric(c) || c == '_'
}

/// Queries on a text buffer.
pub trait RopeExt {
    /// The chars of the buffer.
    spec fn chars_view(&self) -> Seq<char>;

    /// Line `line_idx` with its line break, if there is such a line.
    fn get_line(&self, line_idx: usize) -> (r: Option<String>)
        ensures
            line_idx < line_count(self.chars_view()) ==> (r matches Some(t) && t@ == line_text(
                self.chars_view(),
                line_idx as nat,
            )),
            line_idx >= line_count(self.chars_view()) ==> r is None,
    ;

    /// The number of lines to display.
    fn len_lines_display(&self) -> (r: usize)
        ensures
            r == line_count(self.chars_view()),
    ;

    /// The byte offset where a line starts; the byte length past the last line.
    fn line_to_byte_start(&self, line_idx: usize) -> (r: usize)
        ensures
            line_idx >= line_count(self.chars_view()) ==> r == utf8_len(self.chars_view()),
            line_idx < line_count(self.chars_view()) ==> r == utf8_len(
                self.chars_view().take(line_start(self.chars_view(), line_idx as nat)),
            ),
    ;

    /// The byte offset where a line's content ends, before its line ending;
    /// the byte length past the last line.
    fn line_to_byte_end(&self, line_idx: usize) -> (r: usize)
        ensures
            line_idx >= line_count(self.chars_view()) ==> r == utf8_len(self.chars_view()),
            line_idx < line_count(self.chars_view()) ==> r == utf8_len(
                self.chars_view().take(
                    line_start(self.chars_view(), line_idx as nat) + line_content_len(
                        self.chars_view(),
                        line_idx as nat,
                    ),
                ),
            ),
    ;

    /// The number of bytes of a line before its line ending; `0` past the
    /// last line.
    fn line_len_bytes(&self, line_idx: usize) -> (r: usize)
        ensures
            line_idx >= line_count(self.chars_view()) ==> r == 0,
            line_idx < line_count(self.chars_view()) ==> r == utf8_len(
                line_text(self.chars_view(), line_idx as nat).take(
                    line_content_len(self.chars_view(), line_idx as nat),
                ),
            ),
    ;

    /// Whether the last char is LF or CR.
    fn ends_with_newline(&self) -> (r: bool)
        ensures
            r == (self.chars_view().len() > 0 && (self.chars_view().last() == '\n'
                || self.chars_view().last() == '\r')),
    ;

    /// The number of chars of a line before its line ending; `0` past the
    /// last line.
    fn line_len_chars(&self, line_idx: usize) -> (r: usize)
        ensures
            line_idx >= line_count(self.chars_view()) ==> r == 0,
            line_idx < line_count(self.chars_view()) ==> r == line_content_len(
                self.chars_view(),
                line_idx as nat,
            ),
    ;

    /// The position of char offset `char_idx`, held to the end of the text.
    fn char_to_position(&self, char_idx: usize) -> (r: Position)
        ensures
            ({
                let s = self.chars_view();
                let o = if char_idx <= s.len() { char_idx as int } else { s.len() as int };
                &&& r.line == line_of(s, o)
                &&& r.col == o - line_start(s, r.line as nat)
            }),
    ;

    /// The char offset of `pos`: past the last line the end of the text, and
    /// the column held to the line's content.
    fn position_to_char(&self, pos: Position) -> (r: usize)
        ensures
            ({
                let s = self.chars_view();
                &&& pos.line >= line_count(s) ==> r == s.len()
                &&& pos.line < line_count(s) ==> r == line_start(s, pos.line as nat) + (if pos.col
                    <= line_content_len(s, pos.line as nat) {
                    pos.col as int
                } else {
                    line_content_len(s, pos.line as nat)
                })
            }),
    ;

    /// The run of word chars around `char_idx` (held to the last char), as
    /// `(start, end)`.
    fn word_at(&self, char_idx: usize) -> (r: (usize, usize))
        ensures
            ({
                let s = self.chars_view();
                let i = if s.len() == 0 {
                    0
                } else if char_idx < s.len() {
                    char_idx as int
                } else {
                    s.len() - 1
                };
                &&& r.0 <= i <= r.1 <= s.len()
                &&& forall|j: int| r.0 <= j < r.1 ==> word_char(#[trigger] s[j])
                &&& r.0 == 0 || !word_char(s[r.0 - 1])
                &&& r.1 == s.len() || !word_char(s[r.1 as int])
            }),
    ;

    /// Whether there is a char at `char_idx` and it is a word char.
    fn is_word_char(&self, char_idx: usize) -> (r: bool)
        ensures
            r == (char_idx < self.chars_view().len() && word_char(self.chars_view()[char_idx as int])),
    ;
}

impl RopeExt for Rope {
    open spec fn chars_view(&self) -> Seq<char> {
        rope_chars(*self)
    }

    fn get_line(&self, line_idx: usize) -> (r: Option<String>) {
        if line_idx < rope_len_lines(self) {
            let start = rope_line_to_char(self, line_idx);
            let end = rope_line_to_char(self, line_idx + 1);
            proof { lemma_line_ordered(rope_chars(*self), line_idx as nat); }
            Some(rope_substring(self, start, end))
        } else {
            None
        }
    }

    fn len_lines_display(&self) -> (r: usize) {
        let lines = rope_len_lines(self);
        if lines > 0 && self.ends_with_newline() {
            lines
        } else if lines >= 1 {
            lines
        } else {
            1
        }
    }

    fn line_to_byte_start(&self, line_idx: usize) -> (r: usize) {
        if line_idx >= rope_len_lines(self) {
            return rope_len_bytes(self);
        }
        let start = rope_line_to_char(self, line_idx);
        proof { lemma_line_ordered(rope_chars(*self), line_idx as nat); }
        rope_char_to_byte(self, start)
    }

    fn line_to_byte_end(&self, line_idx: usize) -> (r: usize) {
        if line_idx >= rope_len_lines(self) {
            return rope_len_bytes(self);
        }
        let start = rope_line_to_char(self, line_idx);
        let next = rope_line_to_char(self, line_idx + 1);
        let len = self.line_len_chars(line_idx);
        proof {
            let s = rope_chars(*self);
            lemma_line_ordered(s, line_idx as nat);
            assert(line_text(s, line_idx as nat).len() == line_end(s, line_idx as nat) - line_start(s, line_idx as nat));
        }
        assert(start + len <= next);
        rope_char_to_byte(self, start + len)
    }

    fn line_len_bytes(&self, line_idx: usize) -> (r: usize) {
        if line_idx >= rope_len_lines(self) {
            return 0;
        }
        let start = rope_line_to_char(self, line_idx);
        let next = rope_line_to_char(self, line_idx + 1);
        let len = self.line_len_chars(line_idx);
        let ghost s = rope_chars(*self);
        proof {
            lemma_line_ordered(s, line_idx as nat);
            assert(line_text(s, line_idx as nat).len() == line_end(s, line_idx as nat) - line_start(s, line_idx as nat));
        }
        assert(start + len <= next);
        let b0 = rope_char_to_byte(self, start);
        let b1 = rope_char_to_byte(self, start + len);
        proof {
            lemma_utf8_len_range(s, start as int, start + len);
            assert(line_text(s, line_idx as nat).take(len as int) =~= s.subrange(start as int, start + len));
        }
        b1 - b0
    }

    fn ends_with_newline(&self) -> (r: bool) {
        let n = rope_len_chars(self);
        if n == 0 {
            return false;
        }
        let last = rope_char(self, n - 1);
        last == '\n' || last == '\r'
    }

    fn line_len_chars(&self, line_idx: usize) -> (r: usize) {
        if line_idx >= rope_len_lines(self) {
            return 0;
        }
        let ghost s = rope_chars(*self);
        let start = rope_line_to_char(self, line_idx);
        let end = rope_line_to_char(self, line_idx + 1);
        proof { lemma_line_ordered(s, line_idx as nat); }
        let ghost t = s.subrange(start as int, end as int);
        let mut e = end;
        if e > start && rope_char(self, e - 1) == '\n' {
            e = e - 1;
        }
        if e > start && rope_char(self, e - 1) == '\r' {
            e = e - 1;
        }
        proof {
            assert(t == line_text(s, line_idx as nat));
            assert(e - start == trim_line_end(t));
        }
        e - start
    }

    fn char_to_position(&self, char_idx: usize) -> (r: Position) {
        let n = rope_len_chars(self);
        let idx = if char_idx <= n {
            char_idx
        } else {
            n
        };
        let line = rope_char_to_line(self, idx);
        proof { lemma_line_bounds(rope_chars(*self), idx as int); }
        let line_start = rope_line_to_char(self, line);
        Position { line, col: idx - line_start }
    }

    fn position_to_char(&self, pos: Position) -> (r: usize) {
        if pos.line >= rope_len_lines(self) {
            return rope_len_chars(self);
        }
        let start = rope_line_to_char(self, pos.line);
        let next = rope_line_to_char(self, pos.line + 1);
        let len = self.line_len_chars(pos.line);
        proof {
            let s = rope_chars(*self);
            lemma_line_ordered(s, pos.line as nat);
            assert(line_text(s, pos.line as nat).len() == line_end(s, pos.line as nat) - line_start(s, pos.line as nat));
        }
        let col = if pos.col <= len {
            pos.col
        } else {
            len
        };
        assert(start + col <= next);
        start + col
    }

    fn word_at(&self, char_idx: usize) -> (r: (usize, usize)) {
        let n = rope_len_chars(self);
        let idx = if n == 0 {
            0
        } else if char_idx < n {
            char_idx
        } else {
            n - 1
        };
        let mut start = idx;
        while start > 0 && self.is_word_char(start - 1)
            invariant
                start <= idx <= n,
                n == rope_chars(*self).len(),
                forall|j: int| start <= j < idx ==> word_char(#[trigger] rope_chars(*self)[j]),
            decreases start,
        {
            start = start - 1;
        }
        let mut end = idx;
        while end < n && self.is_word_char(end)
            invariant
                idx <= end <= n,
                n == rope_chars(*self).len(),
                forall|j: int| idx <= j < end ==> word_char(#[trigger] rope_chars(*self)[j]),
            decreases n - end,
        {
            end = end + 1;
        }
        (start, end)
    }

    fn is_word_char(&self, char_idx: usize) -> (r: bool) {
        if char_idx >= rope_len_chars(self) {
            return false;
        }
        let c = rope_char(self, char_idx);
        char_is_alphanumeric(c) || c == '_'
    }
}

} // verus!
