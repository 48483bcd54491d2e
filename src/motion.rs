//! Cursor motions and selection commands, as functions from the text and a
//! range or selection to a new one.
use crate::position::{line_content_len, Position};
use crate::rope_ext::{word_char, RopeExt};
use crate::selection::{normal_form, primary_after, Range, Selection};
use crate::text::{lemma_line_bounds, line_count, line_of, line_start, rope_char, rope_chars, rope_len_chars, rope_len_lines};
use ropey::Rope;
use vstd::prelude::*;

verus! {

/// Which way a motion goes.
#[derive(Debug, Clone, Copy, PartialEq, Eq, Structural)]
pub enum Direction {
    Up,
    Down,
    Left,
    Right,
}

/// `x` held to at most `hi`.
pub open spec fn at_most(x: int, hi: int) -> int {
    if x <= hi {
        x
    } else {
        hi
    }
}

/// The char offset on line `target` at the column that offset `head` has on
/// its own line, held to the target line's content.
pub open spec fn same_column_on(s: Seq<char>, head: int, target: nat) -> int {
    let h = at_most(head, s.len() as int);
    let col = h - line_start(s, line_of(s, h));
    line_start(s, target) + at_most(col, line_content_len(s, target))
}

/// The line `count` lines up or down from the one holding `head`, held to the
/// first and last lines.
pub open spec fn line_moved(s: Seq<char>, head: int, up: bool, count: nat) -> nat {
    let l = line_of(s, at_most(head, s.len() as int));
    if up {
        if l >= count {
            (l - count) as nat
        } else {
            0
        }
    } else {
        at_most((l + count) as int, line_count(s) - 1) as nat
    }
}

/// Moves the head of `range` by `count` chars or lines, collapsing it to a
/// point; vertical moves keep the column where the target line is long enough.
pub fn move_range(rope: &Rope, range: &Range, direction: Direction, count: usize) -> (r: Range)
    ensures
        r.anchor == r.head,
        ({
            let s = rope_chars(*rope);
            match direction {
                Direction::Left => r.head == if range.head >= count { range.head - count } else { 0 },
                Direction::Right => r.head == at_most(range.head + count, s.len() as int),
                Direction::Up => r.head == same_column_on(s, range.head as int, line_moved(s, range.head as int, true, count as nat)),
                Direction::Down => r.head == same_column_on(s, range.head as int, line_moved(s, range.head as int, false, count as nat)),
            }
        }),
{
    let len = rope_len_chars(rope);
    match direction {
        Direction::Left => Range::point(range.head.saturating_sub(count)),
        Direction::Right => {
            let target = range.head.saturating_add(count);
            Range::point(
                if target <= len {
                    target
                } else {
                    len
                },
            )
        },
        _ => {
            let pos = rope.char_to_position(range.head);
            let lines = rope_len_lines(rope);
            proof {
                let s = rope_chars(*rope);
                lemma_line_bounds(s, at_most(range.head as int, s.len() as int));
            }
            let line = if direction == Direction::Up {
                pos.line.saturating_sub(count)
            } else {
                let down = pos.line.saturating_add(count);
                if down <= lines - 1 {
                    down
                } else {
                    lines - 1
                }
            };
            let line_len = rope.line_len_chars(line);
            let col = if pos.col <= line_len {
                pos.col
            } else {
                line_len
            };
            Range::point(rope.position_to_char(Position::new(line, col)))
        },
    }
}

/// From `h`, the word chars run to `q`, then the other chars run to `p`,
/// where a word starts or the text ends.
pub open spec fn word_step_right(s: Seq<char>, h: int, q: int, p: int) -> bool {
    &&& h <= q <= p <= s.len()
    &&& forall|j: int| h <= j < q ==> word_char(#[trigger] s[j])
    &&& q == s.len() || !word_char(s[q])
    &&& forall|j: int| q <= j < p ==> !word_char(#[trigger] s[j])
    &&& p == s.len() || word_char(s[p])
}

/// Back from `h`, the other chars run down to `q`, then the word chars run
/// down to `p`, where a word starts.
pub open spec fn word_step_left(s: Seq<char>, h: int, q: int, p: int) -> bool {
    &&& 0 <= p <= q <= h
    &&& forall|j: int| q <= j < h ==> !word_char(#[trigger] s[j])
    &&& q == 0 || word_char(s[q - 1])
    &&& forall|j: int| p <= j < q ==> word_char(#[trigger] s[j])
    &&& p == 0 || !word_char(s[p - 1])
}

/// `(a, b)` is the run of word chars around offset `i`.
pub open spec fn word_run(s: Seq<char>, i: int, a: int, b: int) -> bool {
    &&& 0 <= a <= i <= b <= s.len()
    &&& forall|j: int| a <= j < b ==> word_char(#[trigger] s[j])
    &&& a == 0 || !word_char(s[a - 1])
    &&& b == s.len() || !word_char(s[b])
}

/// Where a word is looked up for offset `h`: `h` held to the last char.
pub open spec fn word_probe(s: Seq<char>, h: int) -> int {
    if s.len() == 0 {
        0
    } else if h < s.len() {
        h
    } else {
        s.len() - 1
    }
}

proof fn lemma_word_run_unique(s: Seq<char>, i: int, a: int, b: int, a2: int, b2: int)
    requires
        word_run(s, i, a, b),
        word_run(s, i, a2, b2),
    ensures
        a == a2,
        b == b2,
{
    if a < a2 {
        assert(word_char(s[a2 - 1]));
    }
    if a2 < a {
        assert(word_char(s[a - 1]));
    }
    if b < b2 {
        assert(word_char(s[b]));
    }
    if b2 < b {
        assert(word_char(s[b2]));
    }
}

/// What to look for next: the span of the primary range, or the word under
/// a primary cursor.
pub open spec fn search_pair(s: Seq<char>, p: Range) -> (int, int) {
    if p.anchor == p.head {
        choose|a: int, b: int| #[trigger] word_run(s, word_probe(s, p.head as int), a, b)
    } else {
        (p.lo(), p.hi())
    }
}

/// Moves the head to the start of the previous word (left) or the next word
/// (right), collapsing it to a point; up and down leave the head in place.
pub fn move_word(rope: &Rope, range: &Range, direction: Direction) -> (r: Range)
    ensures
        r.anchor == r.head,
        (direction == Direction::Up || direction == Direction::Down) ==> r.head == range.head,
        direction == Direction::Right && range.head >= rope_chars(*rope).len() ==> r.head == range.head,
        direction == Direction::Right && range.head < rope_chars(*rope).len() ==> exists|q: int|
            #[trigger] word_step_right(rope_chars(*rope), range.head as int, q, r.head as int),
        direction == Direction::Left ==> exists|q: int|
            #[trigger] word_step_left(
                rope_chars(*rope),
                at_most(range.head as int, rope_chars(*rope).len() as int),
                q,
                r.head as int,
            ),
{
    match direction {
        Direction::Left => Range::point(word_left(rope, range.head)),
        Direction::Right => Range::point(word_right(rope, range.head)),
        _ => Range::point(range.head),
    }
}

fn word_left(rope: &Rope, head: usize) -> (r: usize)
    ensures
        exists|q: int|
            #[trigger] word_step_left(
                rope_chars(*rope),
                at_most(head as int, rope_chars(*rope).len() as int),
                q,
                r as int,
            ),
{
    let len = rope_len_chars(rope);
    let start = if head > len {
        len
    } else {
        head
    };
    let mut pos = start;
    while pos > 0 && !rope.is_word_char(pos - 1)
        invariant
            pos <= start <= len,
            len == rope_chars(*rope).len(),
            forall|j: int| pos <= j < start ==> !word_char(#[trigger] rope_chars(*rope)[j]),
        decreases pos,
    {
        pos = pos - 1;
    }
    let q = pos;
    while pos > 0 && rope.is_word_char(pos - 1)
        invariant
            pos <= q <= start <= len,
            len == rope_chars(*rope).len(),
            q == 0 || word_char(rope_chars(*rope)[q - 1]),
            forall|j: int| q <= j < start ==> !word_char(#[trigger] rope_chars(*rope)[j]),
            forall|j: int| pos <= j < q ==> word_char(#[trigger] rope_chars(*rope)[j]),
        decreases pos,
    {
        pos = pos - 1;
    }
    assert(start == at_most(head as int, rope_chars(*rope).len() as int));
    assert(word_step_left(rope_chars(*rope), start as int, q as int, pos as int));
    pos
}

fn word_right(rope: &Rope, head: usize) -> (r: usize)
    ensures
        head >= rope_chars(*rope).len() ==> r == head,
        head < rope_chars(*rope).len() ==> exists|q: int|
            #[trigger] word_step_right(rope_chars(*rope), head as int, q, r as int),
{
    let len = rope_len_chars(rope);
    if head >= len {
        return head;
    }
    let mut pos = head;
    while pos < len && rope.is_word_char(pos)
        invariant
            head <= pos <= len,
            len == rope_chars(*rope).len(),
            forall|j: int| head <= j < pos ==> word_char(#[trigger] rope_chars(*rope)[j]),
        decreases len - pos,
    {
        pos = pos + 1;
    }
    let q = pos;
    while pos < len && !rope.is_word_char(pos)
        invariant
            head <= q <= pos <= len,
            len == rope_chars(*rope).len(),
            q == len || !word_char(rope_chars(*rope)[q as int]),
            forall|j: int| head <= j < q ==> word_char(#[trigger] rope_chars(*rope)[j]),
            forall|j: int| q <= j < pos ==> !word_char(#[trigger] rope_chars(*rope)[j]),
        decreases len - pos,
    {
        pos = pos + 1;
    }
    assert(word_step_right(rope_chars(*rope), head as int, q as int, pos as int));
    pos
}

/// Where the line that holds `head` starts; a head past the end counts as
/// the end.
pub fn line_start_of(rope: &Rope, head: usize) -> (r: usize)
    ensures
        r == line_start(rope_chars(*rope), line_of(rope_chars(*rope), at_most(head as int, rope_chars(*rope).len() as int))),
{
    let pos = rope.char_to_position(head);
    proof {
        let s = rope_chars(*rope);
        lemma_line_bounds(s, at_most(head as int, s.len() as int));
    }
    let len = rope_len_chars(rope);
    let h = if head <= len {
        head
    } else {
        len
    };
    h - pos.col
}

/// Where the content of the line that holds `head` ends, before its line
/// ending.
pub fn line_end_of(rope: &Rope, head: usize) -> (r: usize)
    ensures
        ({
            let s = rope_chars(*rope);
            let l = line_of(s, at_most(head as int, s.len() as int));
            r == line_start(s, l) + line_content_len(s, l)
        }),
{
    let pos = rope.char_to_position(head);
    proof {
        let s = rope_chars(*rope);
        lemma_line_bounds(s, at_most(head as int, s.len() as int));
    }
    let len = rope.line_len_chars(pos.line);
    rope.position_to_char(Position::new(pos.line, len))
}

/// Whether the `m` chars at `p` are the `m` chars at `a`.
pub open spec fn occurs_at(s: Seq<char>, p: int, a: int, m: int) -> bool {
    &&& 0 <= p
    &&& p + m <= s.len()
    &&& forall|k: int| 0 <= k < m ==> #[trigger] s[p + k] == s[a + k]
}

fn matches_at(rope: &Rope, p: usize, a: usize, m: usize) -> (r: bool)
    requires
        rope_chars(*rope).len() <= usize::MAX,
        p + m <= rope_chars(*rope).len(),
        a + m <= rope_chars(*rope).len(),
    ensures
        r == occurs_at(rope_chars(*rope), p as int, a as int, m as int),
{
    let mut k: usize = 0;
    while k < m
        invariant
            k <= m,
            rope_chars(*rope).len() <= usize::MAX,
            p + m <= rope_chars(*rope).len(),
            a + m <= rope_chars(*rope).len(),
            forall|j: int| 0 <= j < k ==> #[trigger] rope_chars(*rope)[p + j] == rope_chars(*rope)[a + j],
        decreases m - k,
    {
        if rope_char(rope, p + k) != rope_char(rope, a + k) {
            return false;
        }
        k = k + 1;
    }
    true
}

/// Adds to the selection the first occurrence of the primary range's text
/// (or of the word under a primary cursor) that starts at or after the primary
/// range's end. The search is case-sensitive, goes forward only and does not
/// wrap; without a match, or with nothing to look for, the selection stays.
pub fn select_next_occurrence(rope: &Rope, selection: &Selection) -> (r: Selection)
    requires
        selection.wf(),
    ensures
        r.wf(),
        ({
            let s = rope_chars(*rope);
            let p = selection.primary_range();
            let (a, b) = search_pair(s, p);
            let from = p.hi();
            let found = a < b && exists|q: int| from <= q && #[trigger] occurs_at(s, q, a, b - a);
            &&& !found ==> r@ == selection@ && r.primary_index() == selection.primary_index()
            &&& found ==> exists|q: int| {
                &&& from <= q
                &&& #[trigger] occurs_at(s, q, a, b - a)
                &&& forall|q2: int| from <= q2 < q ==> !#[trigger] occurs_at(s, q2, a, b - a)
                &&& normal_form(selection@.push(Range { anchor: q as usize, head: (q + b - a) as usize }), r@)
                &&& primary_after(r@, p, r.primary_index())
            }
        }),
{
    let len = rope_len_chars(rope);
    let primary = selection.primary();
    if primary.end() > len {
        return selection.clone();
    }
    let (a, b) = if primary.is_point() {
        rope.word_at(primary.head)
    } else {
        (primary.start(), primary.end())
    };
    proof {
        let s = rope_chars(*rope);
        if primary.anchor == primary.head {
            let i = word_probe(s, primary.head as int);
            assert(word_run(s, i, a as int, b as int));
            let (a2, b2) = choose|a2: int, b2: int| #[trigger] word_run(s, i, a2, b2);
            lemma_word_run_unique(s, i, a as int, b as int, a2, b2);
        }
        assert(search_pair(s, primary) == (a as int, b as int));
    }
    if a == b {
        return selection.clone();
    }
    let m = b - a;
    let from = primary.end();
    match find_from(rope, from, a, m) {
        Some(q) => {
            proof {
                let s = rope_chars(*rope);
                assert(occurs_at(s, q as int, a as int, (b - a) as int));
            }
            let mut next = selection.clone();
            next.add_range(Range::new(q, q + m));
            next
        },
        None => selection.clone(),
    }
}

/// The first offset at or after `from` where the `m` chars at `a` occur again.
fn find_from(rope: &Rope, from: usize, a: usize, m: usize) -> (r: Option<usize>)
    requires
        a + m <= rope_chars(*rope).len(),
    ensures
        r matches Some(q) ==> from <= q && q + m <= rope_chars(*rope).len() && occurs_at(rope_chars(*rope), q as int, a as int, m as int)
            && forall|q2: int| from <= q2 < q ==> !#[trigger] occurs_at(rope_chars(*rope), q2, a as int, m as int),
        r is None ==> forall|q2: int| from <= q2 ==> !#[trigger] occurs_at(rope_chars(*rope), q2, a as int, m as int),
{
    let len = rope_len_chars(rope);
    let mut q = from;
    while q <= len - m
        invariant
            from <= q,
            len == rope_chars(*rope).len(),
            a + m <= len,
            forall|q2: int| from <= q2 < q ==> !#[trigger] occurs_at(rope_chars(*rope), q2, a as int, m as int),
        decreases len - q,
    {
        if matches_at(rope, q, a, m) {
            return Some(q);
        }
        q = q + 1;
    }
    proof {
        let s = rope_chars(*rope);
        assert forall|q2: int| from <= q2 implies !#[trigger] occurs_at(s, q2, a as int, m as int) by {
            if q2 >= q {
                assert(q2 + m > s.len());
            }
        }
    }
    None
}

/// The whole text as one range.
pub fn select_all(rope: &Rope) -> (r: Selection)
    ensures
        r.wf(),
        r@ == seq![Range { anchor: 0, head: rope_chars(*rope).len() as usize }],
{
    Selection::single(Range::new(0, rope_len_chars(rope)))
}

/// The content of the line that holds the primary cursor, as one range.
pub fn select_line(rope: &Rope, selection: &Selection) -> (r: Selection)
    requires
        selection.wf(),
    ensures
        r.wf(),
        ({
            let s = rope_chars(*rope);
            let l = line_of(s, at_most(selection.primary_range().head as int, s.len() as int));
            r@ == seq![Range { anchor: line_start(s, l) as usize, head: (line_start(s, l) + line_content_len(s, l)) as usize }]
        }),
{
    let cursor = selection.cursor();
    Selection::single(Range::new(line_start_of(rope, cursor), line_end_of(rope, cursor)))
}

/// The word under the primary cursor, as one range.
pub fn select_word(rope: &Rope, selection: &Selection) -> (r: Selection)
    requires
        selection.wf(),
    ensures
        r.wf(),
        r@.len() == 1,
        ({
            let s = rope_chars(*rope);
            let w = r@[0];
            let h = selection.primary_range().head as int;
            let i = if s.len() == 0 { 0 } else if h < s.len() { h } else { s.len() - 1 };
            &&& w.anchor <= i <= w.head <= s.len()
            &&& forall|j: int| w.anchor <= j < w.head ==> word_char(#[trigger] s[j])
            &&& w.anchor == 0 || !word_char(s[w.anchor - 1])
            &&& w.head == s.len() || !word_char(s[w.head as int])
        }),
{
    let (start, end) = rope.word_at(selection.cursor());
    Selection::single(Range::new(start, end))
}

/// Adds a cursor on the line above or below the primary cursor, at its
/// column held to that line's content; nothing changes at the first or last
/// line, or for a horizontal direction.
pub fn add_cursor(rope: &Rope, selection: &Selection, direction: Direction) -> (r: Selection)
    requires
        selection.wf(),
    ensures
        r.wf(),
        ({
            let s = rope_chars(*rope);
            let h = selection.primary_range().head as int;
            let l = line_of(s, at_most(h, s.len() as int));
            let up = direction == Direction::Up;
            let target = line_moved(s, h, up, 1);
            if (direction == Direction::Up || direction == Direction::Down) && target != l {
                &&& normal_form(selection@.push(Range { anchor: same_column_on(s, h, target) as usize, head: same_column_on(s, h, target) as usize }), r@)
                &&& primary_after(r@, selection.primary_range(), r.primary_index())
            } else {
                r@ == selection@ && r.primary_index() == selection.primary_index()
            }
        }),
{
    if direction != Direction::Up && direction != Direction::Down {
        return selection.clone();
    }
    let head = selection.cursor();
    let pos = rope.char_to_position(head);
    let moved = move_range(rope, &Range::point(head), direction, 1);
    proof {
        let s = rope_chars(*rope);
        lemma_line_bounds(s, at_most(head as int, s.len() as int));
    }
    let lines = rope_len_lines(rope);
    let target = if direction == Direction::Up {
        pos.line.saturating_sub(1)
    } else if pos.line + 1 <= lines - 1 {
        pos.line + 1
    } else {
        lines - 1
    };
    if target == pos.line {
        return selection.clone();
    }
    let mut next = selection.clone();
    next.add_cursor(moved.head);
    next
}

/// Only the primary range, collapsed to its head.
pub fn clear_selection(selection: &Selection) -> (r: Selection)
    requires
        selection.wf(),
    ensures
        r.wf(),
        r@ == seq![Range { anchor: selection.primary_range().head, head: selection.primary_range().head }],
{
    let single = selection.into_single();
    let r = single.collapse();
    proof {
        reveal(normal_form);
        let mapped = choose|mapped: Seq<Range>| {
            &&& mapped.len() == single@.len()
            &&& forall|i: int| 0 <= i < single@.len() ==> #[trigger] mapped[i] == (Range { anchor: single@[i].head, head: single@[i].head })
            &&& normal_form(mapped, r@)
        };
        assert(mapped =~= seq![Range { anchor: selection.primary_range().head, head: selection.primary_range().head }]);
        assert(crate::selection::separated(mapped));
    }
    r
}

} // verus!
