//! The text buffer: a `ropey::Rope`, seen as the sequence of chars it holds.
use ropey::Rope;
use vstd::prelude::*;

verus! {

#[verifier::external_type_specification]
#[verifier::external_body]
pub struct ExRope(Rope);

/// The chars that a rope holds, in order.
pub uninterp spec fn rope_chars(r: Rope) -> Seq<char>;

/// Relies on `Rope::new`: a new rope is empty.
#[verifier::external_body]
pub(crate) fn rope_new() -> (r: Rope)
    ensures
        rope_chars(r) == Seq::<char>::empty(),
{
    Rope::new()
}

/// Relies on `Rope::from_str`: the rope holds the chars of `text`.
#[verifier::external_body]
pub(crate) fn rope_from_str(text: &str) -> (r: Rope)
    ensures
        rope_chars(r) == text@,
{
    Rope::from_str(text)
}

/// Relies on `Rope::len_chars`: the number of chars.
#[verifier::external_body]
pub(crate) fn rope_len_chars(r: &Rope) -> (n: usize)
    ensures
        n == rope_chars(*r).len(),
{
    r.len_chars()
}

/// Relies on `Rope::char`: the char at `idx`, which must be in bounds.
#[verifier::external_body]
pub(crate) fn rope_char(r: &Rope, idx: usize) -> (c: char)
    requires
        idx < rope_chars(*r).len(),
    ensures
        c == rope_chars(*r)[idx as int],
{
    r.char(idx)
}

/// Relies on `Rope::insert`: `text` goes in at char `idx`, which must not be
/// past the end.
#[verifier::external_body]
pub(crate) fn rope_insert(r: &mut Rope, idx: usize, text: &str)
    requires
        idx <= rope_chars(*old(r)).len(),
    ensures
        rope_chars(*final(r)) == rope_chars(*old(r)).take(idx as int) + text@ + rope_chars(
            *old(r),
        ).skip(idx as int),
{
    r.insert(idx, text)
}

/// Relies on `Rope::remove`: the chars `start .. end` go, which must be in bounds.
#[verifier::external_body]
pub(crate) fn rope_remove(r: &mut Rope, start: usize, end: usize)
    requires
        start <= end <= rope_chars(*old(r)).len(),
    ensures
        rope_chars(*final(r)) == rope_chars(*old(r)).take(start as int) + rope_chars(*old(r)).skip(
            end as int,
        ),
{
    r.remove(start..end)
}

/// Relies on `Rope::slice` and `RopeSlice::to_string`: the chars `start .. end`.
#[verifier::external_body]
pub(crate) fn rope_substring(r: &Rope, start: usize, end: usize) -> (s: String)
    requires
        start <= end <= rope_chars(*r).len(),
    ensures
        s@ == rope_chars(*r).subrange(start as int, end as int),
{
    r.slice(start..end).to_string()
}

/// Relies on `Rope::to_string`: all chars of the rope.
#[verifier::external_body]
pub(crate) fn rope_to_string(r: &Rope) -> (s: String)
    ensures
        s@ == rope_chars(*r),
{
    r.to_string()
}

/// The chars that end a line: LF, VT, FF, CR, NEL, LS and PS.
pub open spec fn is_line_break(c: char) -> bool {
    c == '\n' || c == '\u{0B}' || c == '\u{0C}' || c == '\r' || c == '\u{85}' || c == '\u{2028}'
        || c == '\u{2029}'
}

/// Whether a line ends with the char at `i`; a CR followed by LF ends its
/// line at the LF.
pub open spec fn ends_line_at(s: Seq<char>, i: int) -> bool {
    &&& 0 <= i < s.len()
    &&& is_line_break(s[i])
    &&& !(s[i] == '\r' && i + 1 < s.len() && s[i + 1] == '\n')
}

/// How many lines end before char offset `c`: the line that holds `c`.
pub open spec fn line_of(s: Seq<char>, c: int) -> nat
    decreases c,
{
    if c <= 0 {
        0
    } else {
        line_of(s, c - 1) + if ends_line_at(s, c - 1) {
            1nat
        } else {
            0nat
        }
    }
}

/// The number of lines: one more than the number of line ends.
pub open spec fn line_count(s: Seq<char>) -> nat {
    line_of(s, s.len() as int) + 1
}

/// Whether a line starts at char offset `c`.
pub open spec fn starts_line(s: Seq<char>, c: int) -> bool {
    c == 0 || ends_line_at(s, c - 1)
}

/// The char offset where line `l` starts, or the length for `l` at or past
/// the line count.
pub open spec fn line_start(s: Seq<char>, l: nat) -> int {
    if l < line_count(s) {
        choose|c: int| 0 <= c <= s.len() && line_of(s, c) == l && starts_line(s, c)
    } else {
        s.len() as int
    }
}

/// The char offset where the line after line `l` starts, or the length.
pub open spec fn line_end(s: Seq<char>, l: nat) -> int {
    line_start(s, l + 1)
}

pub proof fn lemma_line_of_monotone(s: Seq<char>, a: int, b: int)
    requires
        0 <= a <= b,
    ensures
        line_of(s, a) <= line_of(s, b),
        a < b && ends_line_at(s, b - 1) ==> line_of(s, a) < line_of(s, b),
    decreases b - a,
{
    if a < b {
        lemma_line_of_monotone(s, a, b - 1);
    }
}

proof fn lemma_line_exists(s: Seq<char>, l: nat, c: int)
    requires
        0 <= c <= s.len(),
        l <= line_of(s, c),
    ensures
        exists|d: int| 0 <= d <= c && line_of(s, d) == l && starts_line(s, d),
    decreases c,
{
    if c == 0 {
        assert(line_of(s, 0) == 0);
        assert(starts_line(s, 0));
    } else if l == line_of(s, c) && ends_line_at(s, c - 1) {
        assert(starts_line(s, c));
    } else if l == line_of(s, c) {
        lemma_line_exists(s, l, c - 1);
    } else {
        lemma_line_exists(s, l, c - 1);
    }
}

proof fn lemma_line_start_unique(s: Seq<char>, c: int, d: int)
    requires
        0 <= c <= s.len(),
        0 <= d <= s.len(),
        line_of(s, c) == line_of(s, d),
        starts_line(s, c),
        starts_line(s, d),
    ensures
        c == d,
{
    if c < d {
        lemma_line_of_monotone(s, c, d);
    } else if d < c {
        lemma_line_of_monotone(s, d, c);
    }
}

/// Line `l` starts at `line_start`: a start of a line with `l` line ends
/// before it, and the first such offset.
pub proof fn lemma_line_start(s: Seq<char>, l: nat)
    requires
        l < line_count(s),
    ensures
        0 <= line_start(s, l) <= s.len(),
        line_of(s, line_start(s, l)) == l,
        starts_line(s, line_start(s, l)),
        forall|c: int| 0 <= c <= s.len() && line_of(s, c) == l && starts_line(s, c) ==> c == line_start(s, l),
{
    lemma_line_exists(s, l, s.len() as int);
    let c = line_start(s, l);
    assert forall|d: int| 0 <= d <= s.len() && line_of(s, d) == l && starts_line(s, d) implies d == c by {
        lemma_line_start_unique(s, c, d);
    }
}

/// The line that holds offset `c` starts at or before it, and the next line
/// starts after it.
pub proof fn lemma_line_bounds(s: Seq<char>, c: int)
    requires
        0 <= c <= s.len(),
    ensures
        line_of(s, c) < line_count(s),
        0 <= line_start(s, line_of(s, c)) <= c,
        line_of(s, c) + 1 < line_count(s) ==> c < line_start(s, line_of(s, c) + 1),
        line_start(s, line_of(s, c)) <= line_end(s, line_of(s, c)) <= s.len(),
{
    let l = line_of(s, c);
    lemma_line_of_monotone(s, c, s.len() as int);
    lemma_line_start(s, l);
    let st = line_start(s, l);
    if st > c {
        lemma_line_of_monotone(s, c, st);
    }
    if l + 1 < line_count(s) {
        lemma_line_start(s, l + 1);
        let nx = line_start(s, l + 1);
        if nx <= c {
            lemma_line_of_monotone(s, nx, c);
        }
    }
}

/// Line `l` (below the line count) ends at or after it starts.
pub proof fn lemma_line_ordered(s: Seq<char>, l: nat)
    requires
        l < line_count(s),
    ensures
        0 <= line_start(s, l) <= line_end(s, l) <= s.len(),
{
    lemma_line_start(s, l);
    lemma_line_bounds(s, line_start(s, l));
}

/// Relies on `Rope::len_lines`: one more than the number of line breaks.
#[verifier::external_body]
pub(crate) fn rope_len_lines(r: &Rope) -> (n: usize)
    ensures
        n == line_count(rope_chars(*r)),
{
    r.len_lines()
}

/// Relies on `Rope::char_to_line`: the number of line breaks before `idx`,
/// which must not be past the end.
#[verifier::external_body]
pub(crate) fn rope_char_to_line(r: &Rope, idx: usize) -> (l: usize)
    requires
        idx <= rope_chars(*r).len(),
    ensures
        l == line_of(rope_chars(*r), idx as int),
{
    r.char_to_line(idx)
}

/// Relies on `Rope::line_to_char`: where line `l` starts, or the length for
/// `l` equal to the line count; `l` must not be past that.
#[verifier::external_body]
pub(crate) fn rope_line_to_char(r: &Rope, l: usize) -> (c: usize)
    requires
        l <= line_count(rope_chars(*r)),
    ensures
        c == line_start(rope_chars(*r), l as nat),
{
    r.line_to_char(l)
}

/// The number of bytes that UTF-8 takes for `c`.
pub open spec fn utf8_width(c: char) -> nat {
    if (c as u32) < 0x80 {
        1
    } else if (c as u32) < 0x800 {
        2
    } else if (c as u32) < 0x10000 {
        3
    } else {
        4
    }
}

/// The number of bytes that UTF-8 takes for `s`.
pub open spec fn utf8_len(s: Seq<char>) -> nat
    decreases s.len(),
{
    if s.len() == 0 {
        0
    } else {
        utf8_len(s.drop_last()) + utf8_width(s.last())
    }
}

pub proof fn lemma_utf8_len_concat(x: Seq<char>, y: Seq<char>)
    ensures
        utf8_len(x + y) == utf8_len(x) + utf8_len(y),
    decreases y.len(),
{
    if y.len() == 0 {
        assert(x + y =~= x);
    } else {
        assert((x + y).drop_last() =~= x + y.drop_last());
        assert((x + y).last() == y.last());
        lemma_utf8_len_concat(x, y.drop_last());
    }
}

/// The bytes of chars `a .. b` are the difference of the bytes before each.
pub proof fn lemma_utf8_len_range(s: Seq<char>, a: int, b: int)
    requires
        0 <= a <= b <= s.len(),
    ensures
        utf8_len(s.take(b)) == utf8_len(s.take(a)) + utf8_len(s.subrange(a, b)),
{
    assert(s.take(b) =~= s.take(a) + s.subrange(a, b));
    lemma_utf8_len_concat(s.take(a), s.subrange(a, b));
}

/// Relies on `Rope::len_bytes`: the length of the text in UTF-8.
#[verifier::external_body]
pub(crate) fn rope_len_bytes(r: &Rope) -> (n: usize)
    ensures
        n == utf8_len(rope_chars(*r)),
{
    r.len_bytes()
}

/// Relies on `Rope::char_to_byte`: the UTF-8 length of the chars before
/// `idx`, which must not be past the end.
#[verifier::external_body]
pub(crate) fn rope_char_to_byte(r: &Rope, idx: usize) -> (b: usize)
    requires
        idx <= rope_chars(*r).len(),
    ensures
        b == utf8_len(rope_chars(*r).take(idx as int)),
{
    r.char_to_byte(idx)
}

} // verus!
