//! Grapheme clusters: their boundaries in a text and their display width.
use unicode_segmentation::{GraphemeCursor, UnicodeSegmentation};
use unicode_width::UnicodeWidthStr;
use vstd::prelude::*;
use vstd::string::StringSliceAdditionalSpecFns;
use vstd::utf8::is_char_boundary;

verus! {

/// The display width of a text in monospace cells, east-asian aware.
pub uninterp spec fn display_width(s: Seq<char>) -> nat;

/// Relies on `UnicodeWidthStr::width`: the display width of the text.
#[verifier::external_body]
fn str_width(s: &str) -> (r: usize)
    ensures
        r == display_width(s@),
{
    UnicodeWidthStr::width(s)
}

/// Whether `c` is a control char (general category Cc).
pub open spec fn is_control(c: char) -> bool {
    (c as u32) < 0x20 || (0x7f <= (c as u32) && (c as u32) <= 0x9f)
}

/// The cells a grapheme takes: one for a tab (expanding it is for the
/// renderer), none for one holding a control char, else its display width.
pub fn grapheme_width(grapheme: &str) -> (r: usize)
    ensures
        r == (if grapheme@ == seq!['\t'] {
            1
        } else if exists|i: int| 0 <= i < grapheme@.len() && is_control(#[trigger] grapheme@[i]) {
            0
        } else {
            display_width(grapheme@) as int
        }),
{
    let n = grapheme.unicode_len();
    if n == 1 && grapheme.get_char(0) == '\t' {
        assert(grapheme@ =~= seq!['\t']);
        return 1;
    }
    assert(grapheme@ != seq!['\t']);
    let mut i: usize = 0;
    while i < n
        invariant
            i <= n,
            n == grapheme@.len(),
            grapheme@ != seq!['\t'],
            forall|j: int| 0 <= j < i ==> !is_control(#[trigger] grapheme@[j]),
        decreases n - i,
    {
        let c = grapheme.get_char(i);
        let u = c as u32;
        if u < 0x20 || (0x7f <= u && u <= 0x9f) {
            assert(is_control(grapheme@[i as int]));
            return 0;
        }
        i = i + 1;
    }
    str_width(grapheme)
}

/// Where the extended grapheme cluster that starts at byte `pos` of `text` ends.
pub uninterp spec fn cluster_end(text: Seq<u8>, pos: int) -> int;

/// Where the extended grapheme cluster that ends at byte `pos` of `text` starts.
pub uninterp spec fn cluster_start(text: Seq<u8>, pos: int) -> int;

/// Relies on `GraphemeCursor::next_boundary`, given the whole text as one
/// chunk: the next boundary after `pos`, which lies past it and within the text.
#[verifier::external_body]
fn next_cluster_end(text: &str, pos: usize) -> (r: usize)
    requires
        pos < text.spec_bytes().len(),
        is_char_boundary(text.spec_bytes(), pos as int),
    ensures
        r == cluster_end(text.spec_bytes(), pos as int),
        pos < r <= text.spec_bytes().len(),
{
    let mut cursor = GraphemeCursor::new(pos, text.len(), true);
    match cursor.next_boundary(text, 0) {
        Ok(Some(p)) => p,
        _ => text.len(),
    }
}

/// Relies on `GraphemeCursor::prev_boundary`, given the whole text as one
/// chunk: the previous boundary before `pos`, which lies before it.
#[verifier::external_body]
fn prev_cluster_start(text: &str, pos: usize) -> (r: usize)
    requires
        0 < pos <= text.spec_bytes().len(),
        is_char_boundary(text.spec_bytes(), pos as int),
    ensures
        r == cluster_start(text.spec_bytes(), pos as int),
        r < pos,
{
    let mut cursor = GraphemeCursor::new(pos, text.len(), true);
    match cursor.prev_boundary(text, 0) {
        Ok(Some(p)) => p,
        _ => 0,
    }
}

/// The next grapheme boundary after byte `pos`: the end of the text from the
/// end on, and where `pos` splits a char.
pub open spec fn next_boundary(text: Seq<u8>, pos: int) -> int {
    if pos >= text.len() || !is_char_boundary(text, pos) {
        text.len() as int
    } else {
        cluster_end(text, pos)
    }
}

/// The previous grapheme boundary before byte `pos` (held to the end of the
/// text): `0` at the start, and where the position splits a char.
pub open spec fn prev_boundary(text: Seq<u8>, pos: int) -> int {
    let p = if pos <= text.len() { pos } else { text.len() as int };
    if p <= 0 || !is_char_boundary(text, p) {
        0
    } else {
        cluster_start(text, p)
    }
}

/// The boundary reached after `n` steps forward from byte `pos`.
pub open spec fn boundaries_after(text: Seq<u8>, pos: int, n: nat) -> int
    decreases n,
{
    if n == 0 {
        pos
    } else {
        boundaries_after(text, next_boundary(text, pos), (n - 1) as nat)
    }
}

/// The boundary reached after `n` steps back from byte `pos`.
pub open spec fn boundaries_before(text: Seq<u8>, pos: int, n: nat) -> int
    decreases n,
{
    if n == 0 {
        pos
    } else {
        boundaries_before(text, prev_boundary(text, pos), (n - 1) as nat)
    }
}

fn next_grapheme_boundary(text: &str, byte_pos: usize) -> (r: usize)
    ensures
        r == next_boundary(text.spec_bytes(), byte_pos as int),
{
    let len = text.as_bytes().len();
    if byte_pos >= len || !text.is_char_boundary(byte_pos) {
        return len;
    }
    next_cluster_end(text, byte_pos)
}

fn prev_grapheme_boundary(text: &str, byte_pos: usize) -> (r: usize)
    ensures
        r == prev_boundary(text.spec_bytes(), byte_pos as int),
{
    let len = text.as_bytes().len();
    let pos = if byte_pos <= len {
        byte_pos
    } else {
        len
    };
    if pos == 0 || !text.is_char_boundary(pos) {
        return 0;
    }
    prev_cluster_start(text, pos)
}

/// The boundary `n` grapheme clusters after byte `byte_pos`.
pub fn nth_next_grapheme(text: &str, byte_pos: usize, n: usize) -> (r: usize)
    ensures
        r == boundaries_after(text.spec_bytes(), byte_pos as int, n as nat),
{
    let mut pos = byte_pos;
    let mut i: usize = 0;
    while i < n
        invariant
            i <= n,
            boundaries_after(text.spec_bytes(), byte_pos as int, n as nat) == boundaries_after(
                text.spec_bytes(),
                pos as int,
                (n - i) as nat,
            ),
        decreases n - i,
    {
        pos = next_grapheme_boundary(text, pos);
        i = i + 1;
    }
    pos
}

/// The boundary `n` grapheme clusters before byte `byte_pos`.
pub fn nth_prev_grapheme(text: &str, byte_pos: usize, n: usize) -> (r: usize)
    ensures
        r == boundaries_before(text.spec_bytes(), byte_pos as int, n as nat),
{
    let mut pos = byte_pos;
    let mut i: usize = 0;
    while i < n
        invariant
            i <= n,
            boundaries_before(text.spec_bytes(), byte_pos as int, n as nat) == boundaries_before(
                text.spec_bytes(),
                pos as int,
                (n - i) as nat,
            ),
        decreases n - i,
    {
        pos = prev_grapheme_boundary(text, pos);
        i = i + 1;
    }
    pos
}

/// The extended grapheme clusters of a text, in order.
pub uninterp spec fn clusters_of(text: Seq<char>) -> Seq<Seq<char>>;

/// Relies on `UnicodeSegmentation::graphemes` (extended): the clusters in order.
#[verifier::external_body]
fn split_clusters(text: &str) -> (r: Vec<String>)
    ensures
        r@.map_values(|g: String| g@) == clusters_of(text@),
{
    text.graphemes(true).map(String::from).collect()
}

/// The grapheme clusters of a text, handed out one at a time.
pub struct RopeGraphemes {
    clusters: Vec<String>,
    next_idx: usize,
}

impl RopeGraphemes {
    /// The clusters not handed out yet.
    pub closed spec fn remaining(&self) -> Seq<Seq<char>> {
        self.clusters@.map_values(|g: String| g@).skip(self.next_idx as int)
    }

    pub closed spec fn wf(&self) -> bool {
        self.next_idx <= self.clusters@.len()
    }

    pub fn new(text: &str) -> (r: RopeGraphemes)
        ensures
            r.wf(),
            r.remaining() == clusters_of(text@),
    {
        let clusters = split_clusters(text);
        let r = RopeGraphemes { clusters, next_idx: 0 };
        assert(r.clusters@.map_values(|g: String| g@).skip(0) =~= r.clusters@.map_values(|g: String| g@));
        r
    }

    /// The next cluster, or `None` once all were handed out.
    pub fn next(&mut self) -> (r: Option<String>)
        requires
            old(self).wf(),
        ensures
            final(self).wf(),
            old(self).remaining().len() == 0 ==> r is None && final(self).remaining().len() == 0,
            old(self).remaining().len() > 0 ==> (r matches Some(g) && g@ == old(self).remaining()[0])
                && final(self).remaining() == old(self).remaining().drop_first(),
    {
        if self.next_idx < self.clusters.len() {
            let g = self.clusters[self.next_idx].clone();
            let ghost before = self.remaining();
            self.next_idx = self.next_idx + 1;
            assert(self.remaining() =~= before.drop_first());
            Some(g)
        } else {
            None
        }
    }
}

} // verus!
