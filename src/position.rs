//! Line and column positions, and their conversion to char offsets.
//!
//! Columns count chars, like every other offset of the editing core. The last
//! valid column of a line is the end of its content, before a trailing LF,
//! CR or CR LF; every conversion holds to that one rule.
use crate::rope_ext::RopeExt;
use crate::text::{line_count, line_end, line_of, line_start, rope_chars, rope_len_lines};
use ropey::Rope;
use vstd::prelude::*;

verus! {

/// The length of `t` without one trailing LF and then one trailing CR.
pub open spec fn trim_line_end(t: Seq<char>) -> int {
    let n1 = if t.len() > 0 && t[t.len() - 1] == '\n' {
        t.len() - 1
    } else {
        t.len() as int
    };
    if n1 > 0 && t[n1 - 1] == '\r' {
        n1 - 1
    } else {
        n1
    }
}

/// The chars of line `l`, with its line break.
pub open spec fn line_text(s: Seq<char>, l: nat) -> Seq<char> {
    s.subrange(line_start(s, l), line_end(s, l))
}

/// The number of chars of line `l` before its line ending.
pub open spec fn line_content_len(s: Seq<char>, l: nat) -> int {
    trim_line_end(line_text(s, l))
}

/// A line and a column, both from zero; ordered by line, then column.
#[derive(Debug, Clone, Copy, PartialEq, Eq, PartialOrd, Ord, Hash, Default, Structural)]
pub struct Position {
    pub line: usize,
    pub col: usize,
}

impl Position {
    pub fn new(line: usize, col: usize) -> (r: Position)
        ensures
            r == (Position { line, col }),
    {
        Position { line, col }
    }

    /// The position of char offset `offset`, held to the end of the text.
    pub fn from_offset(rope: &Rope, offset: usize) -> (r: Position)
        ensures
            ({
                let s = rope_chars(*rope);
                let o = if offset <= s.len() { offset as int } else { s.len() as int };
                &&& r.line == line_of(s, o)
                &&& r.col == o - line_start(s, r.line as nat)
            }),
    {
        rope.char_to_position(offset)
    }

    /// The char offset of this position: past the last line it is the end of
    /// the text, and the column is held to the line's content.
    pub fn to_offset(&self, rope: &Rope) -> (r: usize)
        ensures
            ({
                let s = rope_chars(*rope);
                &&& self.line >= line_count(s) ==> r == s.len()
                &&& self.line < line_count(s) ==> r == line_start(s, self.line as nat) + (if self.col
                    <= line_content_len(s, self.line as nat) {
                    self.col as int
                } else {
                    line_content_len(s, self.line as nat)
                })
            }),
    {
        rope.position_to_char(*self)
    }

    /// The same as `to_offset`: columns already count chars.
    pub fn to_char_offset(&self, rope: &Rope) -> (r: usize)
        ensures
            ({
                let s = rope_chars(*rope);
                &&& self.line >= line_count(s) ==> r == s.len()
                &&& self.line < line_count(s) ==> r == line_start(s, self.line as nat) + (if self.col
                    <= line_content_len(s, self.line as nat) {
                    self.col as int
                } else {
                    line_content_len(s, self.line as nat)
                })
            }),
    {
        self.to_offset(rope)
    }

    /// Whether the line exists and the column is within its content.
    pub fn is_valid(&self, rope: &Rope) -> (r: bool)
        ensures
            r == (self.line < line_count(rope_chars(*rope)) && self.col <= line_content_len(
                rope_chars(*rope),
                self.line as nat,
            )),
    {
        if self.line >= rope_len_lines(rope) {
            return false;
        }
        self.col <= rope.line_len_chars(self.line)
    }

    /// The nearest valid position: the last line at most, and a column within
    /// that line's content.
    pub fn clamp(&self, rope: &Rope) -> (r: Position)
        ensures
            ({
                let s = rope_chars(*rope);
                let l = if self.line < line_count(s) { self.line as int } else { line_count(s) - 1 };
                &&& r.line == l
                &&& r.col == if self.col <= line_content_len(s, l as nat) {
                    self.col as int
                } else {
                    line_content_len(s, l as nat)
                }
            }),
    {
        let count = rope_len_lines(rope);
        let line = if self.line < count {
            self.line
        } else {
            count - 1
        };
        let max_col = rope.line_len_chars(line);
        Position {
            line,
            col: if self.col <= max_col {
                self.col
            } else {
                max_col
            },
        }
    }
}

} // verus!
