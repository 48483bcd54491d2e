//! Views: identifiers and the scroll state of a window onto a document.
use crate::document::DocumentId;
use vstd::prelude::*;

verus! {

/// Hands out identifiers, counting up from one. One generator belongs to the
/// editing session and is passed to whatever creates documents and views.
#[derive(Debug)]
pub struct IdGenerator {
    next: usize,
}

impl IdGenerator {
    /// The identifier that the next call hands out.
    pub closed spec fn upcoming(&self) -> nat {
        self.next as nat
    }

    pub fn new() -> (r: IdGenerator)
        ensures
            r.upcoming() == 1,
    {
        IdGenerator { next: 1 }
    }

    /// Whether another identifier can be handed out.
    pub fn can_issue(&self) -> (r: bool)
        ensures
            r == (self.upcoming() < usize::MAX),
    {
        self.next < usize::MAX
    }

    /// A fresh identifier: each call returns one more than the last.
    pub fn next_id(&mut self) -> (r: usize)
        requires
            old(self).upcoming() < usize::MAX,
        ensures
            r == old(self).upcoming(),
            final(self).upcoming() == old(self).upcoming() + 1,
    {
        let r = self.next;
        self.next = self.next + 1;
        r
    }
}

/// Identifies a view.
#[derive(Debug, Clone, Copy, PartialEq, Eq, Hash, Structural)]
pub struct ViewId(pub usize);

impl ViewId {
    /// The number behind the identifier.
    pub open spec fn index(self) -> usize {
        self.0
    }

    /// A fresh identifier from the session's generator.
    pub fn next(ids: &mut IdGenerator) -> (r: ViewId)
        requires
            old(ids).upcoming() < usize::MAX,
        ensures
            r.index() == old(ids).upcoming(),
            final(ids).upcoming() == old(ids).upcoming() + 1,
    {
        ViewId(ids.next_id())
    }
}

/// The number of decimal digits of `n` (one for zero).
pub open spec fn decimal_digits(n: nat) -> nat
    decreases n,
{
    if n < 10 {
        1
    } else {
        1 + decimal_digits(n / 10)
    }
}

pub open spec fn pow10(k: nat) -> nat
    decreases k,
{
    if k == 0 {
        1
    } else {
        10 * pow10((k - 1) as nat)
    }
}

proof fn lemma_digits_bound(n: nat, k: nat)
    requires
        k >= 1,
        n < pow10(k),
    ensures
        decimal_digits(n) <= k,
    decreases k,
{
    if n >= 10 {
        let p = pow10((k - 1) as nat);
        assert(n / 10 < p) by (nonlinear_arith)
            requires n < 10 * p;
        if k == 1 {
            assert(pow10(0) == 1);
        } else {
            lemma_digits_bound(n / 10, (k - 1) as nat);
        }
    }
}

/// `a - b`, or `0` where `b` is larger.
pub open spec fn sub_floor(a: int, b: int) -> int {
    if a >= b {
        a - b
    } else {
        0
    }
}

/// A window onto a document, with its scroll offsets and size.
#[derive(Debug)]
pub struct View {
    pub id: ViewId,
    pub doc_id: DocumentId,
    /// First visible line.
    pub scroll_y: usize,
    /// First visible column.
    pub scroll_x: usize,
    pub width: u16,
    pub height: u16,
    /// Columns taken by line numbers and padding.
    pub gutter_width: u16,
}

impl View {
    /// An 80 by 24 view of `doc_id`, scrolled to the top.
    pub fn new(ids: &mut IdGenerator, doc_id: DocumentId) -> (r: View)
        requires
            old(ids).upcoming() < usize::MAX,
        ensures
            r.id.index() == old(ids).upcoming(),
            final(ids).upcoming() == old(ids).upcoming() + 1,
            r.doc_id == doc_id,
            r.scroll_y == 0,
            r.scroll_x == 0,
            r.width == 80,
            r.height == 24,
            r.gutter_width == 4,
    {
        View {
            id: ViewId::next(ids),
            doc_id,
            scroll_y: 0,
            scroll_x: 0,
            width: 80,
            height: 24,
            gutter_width: 4,
        }
    }

    /// The width left for text beside the gutter.
    pub fn text_width(&self) -> (r: u16)
        ensures
            r == sub_floor(self.width as int, self.gutter_width as int),
    {
        self.width.saturating_sub(self.gutter_width)
    }

    pub fn set_size(&mut self, width: u16, height: u16)
        ensures
            *final(self) == (View { width, height, ..*old(self) }),
    {
        self.width = width;
        self.height = height;
    }

    /// Scrolls as little as needed to show the cursor, keeping `scrolloff`
    /// lines (at most half the height) above and below it.
    pub fn ensure_cursor_visible(&mut self, cursor_line: usize, cursor_col: usize, scrolloff: usize)
        requires
            old(self).height > 0,
            cursor_line + old(self).height <= usize::MAX,
            old(self).scroll_y + old(self).height <= usize::MAX,
            cursor_col < usize::MAX,
            cursor_col + old(self).width <= usize::MAX,
            old(self).scroll_x + old(self).width <= usize::MAX,
        ensures
            ({
                let h = old(self).height as int;
                let so = if scrolloff <= h / 2 { scrolloff as int } else { h / 2 };
                let y1 = if cursor_line < old(self).scroll_y + so {
                    sub_floor(cursor_line as int, so)
                } else {
                    old(self).scroll_y as int
                };
                let y2 = if cursor_line > y1 + h - so - 1 {
                    cursor_line + so + 1 - h
                } else {
                    y1
                };
                let tw = sub_floor(old(self).width as int, old(self).gutter_width as int);
                let x1 = if cursor_col < old(self).scroll_x {
                    cursor_col as int
                } else {
                    old(self).scroll_x as int
                };
                let x2 = if cursor_col >= x1 + tw {
                    cursor_col - tw + 1
                } else {
                    x1
                };
                final(self).scroll_y == y2 && final(self).scroll_x == x2
            }),
            final(self).scroll_y <= cursor_line < final(self).scroll_y + old(self).height,
            old(self).width > old(self).gutter_width ==> final(self).scroll_x <= cursor_col
                < final(self).scroll_x + (old(self).width - old(self).gutter_width),
            final(self).width == old(self).width,
            final(self).height == old(self).height,
            final(self).gutter_width == old(self).gutter_width,
            final(self).id == old(self).id,
            final(self).doc_id == old(self).doc_id,
    {
        let height = self.height as usize;
        let scrolloff = if scrolloff <= height / 2 {
            scrolloff
        } else {
            height / 2
        };
        if cursor_line < self.scroll_y + scrolloff {
            self.scroll_y = cursor_line.saturating_sub(scrolloff);
        }
        let bottom_limit = self.scroll_y + height - scrolloff - 1;
        if cursor_line > bottom_limit {
            self.scroll_y = cursor_line + scrolloff + 1 - height;
        }
        let text_width = self.text_width() as usize;
        if cursor_col < self.scroll_x {
            self.scroll_x = cursor_col;
        }
        if cursor_col >= self.scroll_x + text_width {
            self.scroll_x = cursor_col + 1 - text_width;
        }
    }

    /// The lines `scroll_y .. scroll_y + height`.
    pub fn visible_lines(&self) -> (r: std::ops::Range<usize>)
        requires
            self.scroll_y + self.height <= usize::MAX,
        ensures
            r.start == self.scroll_y,
            r.end == self.scroll_y + self.height,
    {
        std::ops::Range { start: self.scroll_y, end: self.scroll_y + self.height as usize }
    }

    pub fn is_line_visible(&self, line: usize) -> (r: bool)
        ensures
            r == (self.scroll_y <= line < self.scroll_y + self.height),
    {
        line >= self.scroll_y && line - self.scroll_y < self.height as usize
    }

    /// Scrolls down by `delta` lines (up where negative), not past the line
    /// `max_lines - 1` going down and not above the top.
    pub fn scroll(&mut self, delta: isize, max_lines: usize)
        ensures
            delta > 0 ==> final(self).scroll_y == ({
                let t = old(self).scroll_y + delta;
                let cap = sub_floor(max_lines as int, 1);
                let t2 = if t > usize::MAX { usize::MAX as int } else { t };
                if t2 <= cap { t2 } else { cap }
            }),
            delta <= 0 ==> final(self).scroll_y == sub_floor(old(self).scroll_y as int, -delta),
            final(self).scroll_x == old(self).scroll_x,
            final(self).height == old(self).height,
            final(self).width == old(self).width,
            final(self).gutter_width == old(self).gutter_width,
            final(self).id == old(self).id,
            final(self).doc_id == old(self).doc_id,
    {
        if delta > 0 {
            let t = self.scroll_y.saturating_add(delta as usize);
            let cap = max_lines.saturating_sub(1);
            self.scroll_y = if t <= cap {
                t
            } else {
                cap
            };
        } else {
            let back: usize = if delta == 0 {
                0
            } else {
                ((-(delta + 1)) as usize) + 1
            };
            self.scroll_y = self.scroll_y.saturating_sub(back);
        }
    }

    /// Scrolls so that `line` is in the middle of the view.
    pub fn center_on_line(&mut self, line: usize)
        ensures
            final(self).scroll_y == sub_floor(line as int, old(self).height as int / 2),
            final(self).scroll_x == old(self).scroll_x,
            final(self).height == old(self).height,
            final(self).width == old(self).width,
            final(self).gutter_width == old(self).gutter_width,
            final(self).id == old(self).id,
            final(self).doc_id == old(self).doc_id,
    {
        self.scroll_y = line.saturating_sub(self.height as usize / 2);
    }

    /// Sizes the gutter for the line numbers of `line_count` lines, with a
    /// space on each side.
    pub fn update_gutter_width(&mut self, line_count: usize)
        ensures
            final(self).gutter_width == decimal_digits(line_count as nat) + 2,
            final(self).scroll_y == old(self).scroll_y,
            final(self).scroll_x == old(self).scroll_x,
            final(self).height == old(self).height,
            final(self).width == old(self).width,
            final(self).id == old(self).id,
            final(self).doc_id == old(self).doc_id,
    {
        let mut digits: u16 = 1;
        let mut rest: usize = line_count;
        proof {
            reveal_with_fuel(pow10, 21);
            assert(pow10(20) == 100000000000000000000nat);
            lemma_digits_bound(line_count as nat, 20);
        }
        while rest >= 10
            invariant
                1 <= digits <= 20,
                digits + decimal_digits(rest as nat) == decimal_digits(line_count as nat) + 1,
                decimal_digits(rest as nat) <= 21 - digits,
            decreases rest,
        {
            assert(decimal_digits((rest / 10) as nat) >= 1);
            rest = rest / 10;
            digits = digits + 1;
        }
        self.gutter_width = digits + 2;
    }
}

} // verus!
