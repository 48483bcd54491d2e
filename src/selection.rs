//! Ranges and multi-cursor selections.
use smallvec::SmallVec;
use vstd::prelude::*;

verus! {

/// A range of the text given by a fixed anchor and a moving head (the cursor).
/// Both ends are char offsets; the range covers `[start, end)`.
#[derive(Clone, Copy, PartialEq, Eq, Debug, Structural)]
pub struct Range {
    pub anchor: usize,
    pub head: usize,
}

impl Range {
    /// The smaller end of the range.
    pub open spec fn lo(self) -> int {
        if self.anchor <= self.head {
            self.anchor as int
        } else {
            self.head as int
        }
    }

    /// The larger end of the range.
    pub open spec fn hi(self) -> int {
        if self.anchor <= self.head {
            self.head as int
        } else {
            self.anchor as int
        }
    }

    /// Whether the half-open span of the range holds `pos`.
    pub open spec fn holds(self, pos: int) -> bool {
        self.lo() <= pos < self.hi()
    }

    /// Whether two ranges overlap or touch, so that they merge into one.
    pub open spec fn meets(self, other: Range) -> bool {
        self.hi() >= other.lo() && other.hi() >= self.lo()
    }

    pub fn point(pos: usize) -> (r: Range)
        ensures
            r == (Range { anchor: pos, head: pos }),
    {
        Range { anchor: pos, head: pos }
    }

    pub fn new(anchor: usize, head: usize) -> (r: Range)
        ensures
            r == (Range { anchor, head }),
    {
        Range { anchor, head }
    }

    pub fn start(&self) -> (r: usize)
        ensures
            r == self.lo(),
    {
        if self.anchor <= self.head {
            self.anchor
        } else {
            self.head
        }
    }

    pub fn end(&self) -> (r: usize)
        ensures
            r == self.hi(),
    {
        if self.anchor <= self.head {
            self.head
        } else {
            self.anchor
        }
    }

    pub fn is_point(&self) -> (r: bool)
        ensures
            r == (self.anchor == self.head),
    {
        self.anchor == self.head
    }

    pub fn len(&self) -> (r: usize)
        ensures
            r == self.hi() - self.lo(),
    {
        self.end() - self.start()
    }

    pub fn is_empty(&self) -> (r: bool)
        ensures
            r == (self.lo() == self.hi()),
    {
        self.len() == 0
    }

    /// Whether `pos` lies in `[start, end)`.
    pub fn contains(&self, pos: usize) -> (r: bool)
        ensures
            r == self.holds(pos as int),
    {
        pos >= self.start() && pos < self.end()
    }

    /// Whether the half-open spans of the two ranges share an offset.
    pub fn overlaps(&self, other: &Range) -> (r: bool)
        ensures
            r == (self.lo() < other.hi() && other.lo() < self.hi()),
    {
        self.start() < other.end() && other.start() < self.end()
    }

    /// The forward range spanning both, where the two overlap or touch.
    pub fn merge(&self, other: &Range) -> (r: Option<Range>)
        ensures
            self.meets(*other) ==> r == Some(
                Range {
                    anchor: (if self.lo() <= other.lo() { self.lo() } else { other.lo() }) as usize,
                    head: (if self.hi() >= other.hi() { self.hi() } else { other.hi() }) as usize,
                },
            ),
            !self.meets(*other) ==> r.is_none(),
    {
        if self.end() >= other.start() && other.end() >= self.start() {
            let s = if self.start() <= other.start() {
                self.start()
            } else {
                other.start()
            };
            let e = if self.end() >= other.end() {
                self.end()
            } else {
                other.end()
            };
            Some(Range::new(s, e))
        } else {
            None
        }
    }

    /// Moves both ends by `offset`, saturating at `0` and at `usize::MAX`.
    pub fn translate(&self, offset: isize) -> (r: Range)
        ensures
            r.anchor == shift_saturating(self.anchor, offset),
            r.head == shift_saturating(self.head, offset),
    {
        Range { anchor: shift_by(self.anchor, offset), head: shift_by(self.head, offset) }
    }

    /// Keeps the anchor and moves the head to `pos`.
    pub fn extend_to(&self, pos: usize) -> (r: Range)
        ensures
            r == (Range { anchor: self.anchor, head: pos }),
    {
        Range { anchor: self.anchor, head: pos }
    }

    /// `-1` for a backward range, `0` for a point, `1` for a forward range.
    pub fn direction(&self) -> (r: i8)
        ensures
            r == (if self.head < self.anchor {
                -1
            } else if self.head == self.anchor {
                0
            } else {
                1
            }),
    {
        if self.head < self.anchor {
            -1
        } else if self.head == self.anchor {
            0
        } else {
            1
        }
    }

    /// Swaps anchor and head.
    pub fn flip(&self) -> (r: Range)
        ensures
            r == (Range { anchor: self.head, head: self.anchor }),
    {
        Range { anchor: self.head, head: self.anchor }
    }

    /// A point at the head.
    pub fn collapse(&self) -> (r: Range)
        ensures
            r == (Range { anchor: self.head, head: self.head }),
    {
        Range::point(self.head)
    }
}

impl Default for Range {
    fn default() -> (r: Range)
        ensures
            r == (Range { anchor: 0, head: 0 }),
    {
        Range::point(0)
    }
}

/// `pos + offset`, held within `0 ..= usize::MAX`.
pub open spec fn shift_saturating(pos: usize, offset: isize) -> usize {
    let t = pos + offset;
    if t < 0 {
        0
    } else if t > usize::MAX {
        usize::MAX
    } else {
        t as usize
    }
}

fn shift_by(pos: usize, offset: isize) -> (r: usize)
    ensures
        r == shift_saturating(pos, offset),
{
    if offset >= 0 {
        pos.saturating_add(offset as usize)
    } else {
        let back: usize = ((-(offset + 1)) as usize) + 1;
        pos.saturating_sub(back)
    }
}

/// Ordered by start, then by end.
pub open spec fn key_le(a: Range, b: Range) -> bool {
    a.lo() < b.lo() || (a.lo() == b.lo() && a.hi() <= b.hi())
}

pub open spec fn sorted_by_bounds(s: Seq<Range>) -> bool {
    forall|i: int, j: int| 0 <= i < j < s.len() ==> key_le(#[trigger] s[i], #[trigger] s[j])
}

/// Each range ends strictly before the next one starts: no two overlap or touch.
pub open spec fn separated(s: Seq<Range>) -> bool {
    forall|i: int, j: int| 0 <= i < j < s.len() ==> (#[trigger] s[i]).hi() < (#[trigger] s[j]).lo()
}

/// Whether `k` lies in the closed span `[2 * start, 2 * end]` of some range of `s`.
///
/// Doubling keeps ranges that merely touch joined while separating ranges with
/// a gap of one offset, so the merged form of `s` is given by this set alone.
pub open spec fn hull_covers(s: Seq<Range>, k: int) -> bool {
    exists|i: int| 0 <= i < s.len() && 2 * (#[trigger] s[i]).lo() <= k <= 2 * s[i].hi()
}

/// Whether offset `x` lies in the half-open span of some range of `s`.
pub open spec fn covers(s: Seq<Range>, x: int) -> bool {
    exists|i: int| 0 <= i < s.len() && (#[trigger] s[i]).holds(x)
}

/// Range `k` of `s` meets no other range of `s`, so normalisation leaves it as it is.
pub open spec fn isolated(s: Seq<Range>, k: int) -> bool {
    &&& 0 <= k < s.len()
    &&& forall|j: int| 0 <= j < s.len() && j != k ==> !(#[trigger] s[j]).meets(s[k])
}

/// Range `j` of `v`, one of its first `n`, meets none of the others among them.
pub open spec fn alone_before(v: Seq<Range>, j: int, n: int) -> bool {
    &&& 0 <= j < n
    &&& forall|t: int| 0 <= t < n && t != j ==> !(#[trigger] v[t]).meets(v[j])
}

/// `out` is the normal form of `input`: sorted, with overlapping and touching
/// ranges merged, a point at `0` when `input` is empty.
#[verifier::opaque]
pub open spec fn normal_form(input: Seq<Range>, out: Seq<Range>) -> bool {
    &&& out.len() > 0
    &&& separated(out)
    &&& input.len() == 0 ==> out == seq![Range { anchor: 0, head: 0 }]
    &&& input.len() > 0 ==> forall|k: int| hull_covers(out, k) == hull_covers(input, k)
    &&& forall|i: int|
        0 <= i < out.len() && (#[trigger] out[i]).anchor > out[i].head ==> exists|k: int|
            #[trigger] isolated(input, k) && input[k] == out[i]
    &&& forall|k: int| #[trigger] isolated(input, k) ==> out.contains(input[k])
    &&& input.len() > 0 && separated(input) ==> out == input
}

/// The primary range after normalisation is the one that holds the head of the
/// previous primary `p`, or equals it.
pub open spec fn picks_primary(p: Range, r: Range) -> bool {
    r.holds(p.head as int) || r == p
}

/// `idx` is the first index of `out` picked by `p`, or `0` if none is.
pub open spec fn primary_after(out: Seq<Range>, p: Range, idx: int) -> bool {
    &&& 0 <= idx < out.len()
    &&& (exists|j: int| 0 <= j < out.len() && picks_primary(p, #[trigger] out[j])) ==> {
        &&& picks_primary(p, out[idx])
        &&& forall|j: int| 0 <= j < idx ==> !picks_primary(p, #[trigger] out[j])
    }
    &&& !(exists|j: int| 0 <= j < out.len() && picks_primary(p, #[trigger] out[j])) ==> idx == 0
}

/// The ranges of a selection, stored inline while there is only one.
#[verifier::external_body]
#[derive(PartialEq, Eq, Debug)]
pub struct RangeList {
    items: SmallVec<[Range; 1]>,
}

/// The ranges that a range list holds, in order.
pub uninterp spec fn small_items(v: RangeList) -> Seq<Range>;

/// Relies on `SmallVec::from_vec`: the small vector holds the vector's items in order.
#[verifier::external_body]
fn small_from_vec(v: Vec<Range>) -> (r: RangeList)
    ensures
        small_items(r) == v@,
{
    RangeList { items: SmallVec::from_vec(v) }
}

/// Relies on `SmallVec::as_slice`: the slice shows the items in order.
#[verifier::external_body]
fn small_as_slice(v: &RangeList) -> (r: &[Range])
    ensures
        r@ == small_items(*v),
{
    v.items.as_slice()
}

/// Relies on `Clone for SmallVec`: each item is cloned in order, and a `Range`
/// is `Copy`.
#[verifier::external_body]
fn small_clone(v: &RangeList) -> (r: RangeList)
    ensures
        small_items(r) == small_items(*v),
{
    RangeList { items: v.items.clone() }
}

/// Relies on `slice::sort_by_key`: the items are permuted into order by (start, end).
#[verifier::external_body]
fn sort_by_bounds(v: &mut Vec<Range>)
    ensures
        final(v)@.to_multiset() == old(v)@.to_multiset(),
        sorted_by_bounds(final(v)@),
{
    v.sort_by_key(|r| (r.start(), r.end()));
}

/// Whether the vector's ranges are pairwise separated.
fn is_separated(v: &Vec<Range>) -> (b: bool)
    ensures
        b == separated(v@),
{
    let mut i: usize = 1;
    if v.len() == 0 {
        return true;
    }
    while i < v.len()
        invariant
            1 <= i <= v.len(),
            separated(v@.take(i as int)),
        decreases v.len() - i,
    {
        if v[i - 1].end() >= v[i].start() {
            assert(!separated(v@)) by {
                assert(v@[i - 1].hi() >= v@[i as int].lo());
            }
            return false;
        }
        assert(separated(v@.take(i + 1))) by {
            assert forall|a: int, b: int| 0 <= a < b < i + 1 implies (#[trigger] v@.take(
                i + 1,
            )[a]).hi() < (#[trigger] v@.take(i + 1)[b]).lo() by {
                if b == i {
                    if a < i - 1 {
                        assert(v@.take(i as int)[a].hi() < v@.take(i as int)[i - 1].lo());
                    }
                }
                else {
                    assert(v@.take(i as int)[a].hi() < v@.take(i as int)[b].lo());
                }
            }
        }
        i += 1;
    }
    assert(v@.take(v.len() as int) == v@);
    true
}

/// Merges the overlapping and touching ranges of a sorted vector.
#[verifier::rlimit(60)]
fn merge_sorted(v: &Vec<Range>) -> (m: Vec<Range>)
    requires
        v@.len() > 0,
        sorted_by_bounds(v@),
    ensures
        m@.len() > 0,
        separated(m@),
        forall|k: int| hull_covers(m@, k) == hull_covers(v@, k),
        forall|q: int|
            0 <= q < m@.len() && (#[trigger] m@[q]).anchor > m@[q].head ==> exists|j: int|
                #[trigger] isolated(v@, j) && v@[j] == m@[q],
        forall|k: int| #[trigger] isolated(v@, k) ==> m@.contains(v@[k]),
{
    let mut m: Vec<Range> = Vec::new();
    m.push(v[0]);
    let mut i: usize = 1;
    assert(forall|k: int| hull_covers(m@, k) == hull_covers(v@.take(1), k)) by {
        assert(m@ == v@.take(1));
    }
    assert(v@[0].hi() == m@.last().hi());
    assert(m@[0].anchor > m@[0].head ==> alone_before(v@, 0, 1) && v@[0] == m@[0]);
    assert(isolated(v@, 0) ==> m@.contains(v@[0])) by { assert(m@[0] == v@[0]); }
    while i < v.len()
        invariant
            1 <= i <= v.len(),
            m@.len() >= 1,
            sorted_by_bounds(v@),
            separated(m@),
            forall|k: int| hull_covers(m@, k) == hull_covers(v@.take(i as int), k),
            forall|j: int| i <= j < v@.len() ==> m@.last().lo() <= (#[trigger] v@[j]).lo(),
            forall|q: int|
                0 <= q < m@.len() && (#[trigger] m@[q]).anchor > m@[q].head ==> exists|j: int|
                    #[trigger] alone_before(v@, j, i as int) && v@[j] == m@[q],
            forall|t: int| 0 <= t < i ==> (#[trigger] v@[t]).hi() <= m@.last().hi(),
            exists|j: int| 0 <= j < i && (#[trigger] v@[j]).hi() == m@.last().hi(),
            forall|k: int| 0 <= k < i && #[trigger] isolated(v@, k) ==> m@.contains(v@[k]),
        decreases v.len() - i,
    {
        let r = v[i];
        let last_idx = m.len() - 1;
        let last = m[last_idx];
        let ghost old_m = m@;
        let ghost vi = v@.take(i as int);
        let ghost vn = v@.take(i + 1);
        assert(vn == vi.push(r));
        match last.merge(&r) {
            Some(u) => {
                m.set(last_idx, u);
                assert forall|k: int| hull_covers(m@, k) == hull_covers(vn, k) by {
                    if hull_covers(m@, k) {
                        let q = choose|q: int| 0 <= q < m@.len() && 2 * (#[trigger] m@[q]).lo() <= k <= 2 * m@[q].hi();
                        if q == last_idx {
                            if k <= 2 * last.hi() {
                                assert(hull_covers(old_m, k));
                            } else {
                                assert(vn[i as int] == r);
                            }
                        } else {
                            assert(old_m[q] == m@[q]);
                            assert(hull_covers(old_m, k));
                        }
                    }
                    if hull_covers(vn, k) {
                        let q = choose|q: int| 0 <= q < vn.len() && 2 * (#[trigger] vn[q]).lo() <= k <= 2 * vn[q].hi();
                        if q == i {
                            assert(2 * m@[last_idx as int].lo() <= k <= 2 * m@[last_idx as int].hi());
                        } else {
                            assert(vi[q] == vn[q]);
                            assert(hull_covers(vi, k));
                            assert(hull_covers(old_m, k));
                            let q2 = choose|q2: int| 0 <= q2 < old_m.len() && 2 * (#[trigger] old_m[q2]).lo() <= k <= 2 * old_m[q2].hi();
                            if q2 == last_idx {
                                assert(2 * m@[last_idx as int].lo() <= k <= 2 * m@[last_idx as int].hi());
                            } else {
                                assert(m@[q2] == old_m[q2]);
                            }
                        }
                    }
                }
                assert forall|a: int, b: int| 0 <= a < b < m@.len() implies (#[trigger] m@[a]).hi() < (#[trigger] m@[b]).lo() by {
                    assert(old_m[a].hi() < old_m[b].lo());
                }
                proof {
                    let w = choose|j: int| 0 <= j < i && (#[trigger] v@[j]).hi() == old_m.last().hi();
                    assert(v@[w].meets(r)) by {
                        assert(key_le(v@[w], v@[i as int]));
                    }
                    if r.hi() >= last.hi() {
                        assert(v@[i as int].hi() == m@.last().hi());
                    } else {
                        assert(v@[w].hi() == m@.last().hi());
                    }
                    assert forall|k: int| 0 <= k < i + 1 && #[trigger] isolated(v@, k) implies m@.contains(v@[k]) by {
                        if k == i {
                            assert(v@[w].meets(v@[k]));
                        } else {
                            let q = choose|q: int| 0 <= q < old_m.len() && old_m[q] == v@[k];
                            if q == last_idx {
                                assert(v@[i as int].meets(v@[k]));
                            } else {
                                assert(m@[q] == v@[k]);
                            }
                        }
                    }
                    lemma_backward_kept(v@, old_m, m@, i as int);
                }
            }
            None => {
                m.push(r);
                assert forall|k: int| hull_covers(m@, k) == hull_covers(vn, k) by {
                    if hull_covers(m@, k) {
                        let q = choose|q: int| 0 <= q < m@.len() && 2 * (#[trigger] m@[q]).lo() <= k <= 2 * m@[q].hi();
                        if q == old_m.len() {
                            assert(vn[i as int] == r);
                        } else {
                            assert(old_m[q] == m@[q]);
                            assert(hull_covers(old_m, k));
                            assert(hull_covers(vi, k));
                            let q2 = choose|q2: int| 0 <= q2 < vi.len() && 2 * (#[trigger] vi[q2]).lo() <= k <= 2 * vi[q2].hi();
                            assert(vn[q2] == vi[q2]);
                        }
                    }
                    if hull_covers(vn, k) {
                        let q = choose|q: int| 0 <= q < vn.len() && 2 * (#[trigger] vn[q]).lo() <= k <= 2 * vn[q].hi();
                        if q == i {
                            assert(m@[old_m.len() as int] == r);
                        } else {
                            assert(vi[q] == vn[q]);
                            assert(hull_covers(vi, k));
                            assert(hull_covers(old_m, k));
                            let q2 = choose|q2: int| 0 <= q2 < old_m.len() && 2 * (#[trigger] old_m[q2]).lo() <= k <= 2 * old_m[q2].hi();
                            assert(m@[q2] == old_m[q2]);
                        }
                    }
                }
                assert forall|a: int, b: int| 0 <= a < b < m@.len() implies (#[trigger] m@[a]).hi() < (#[trigger] m@[b]).lo() by {
                    if b == old_m.len() {
                        if a < last_idx {
                            assert(old_m[a].hi() < old_m[last_idx as int].lo());
                        }
                    } else {
                        assert(old_m[a].hi() < old_m[b].lo());
                    }
                }
                assert(v@[i as int].hi() == m@.last().hi());
                proof { lemma_backward_pushed(v@, old_m, m@, i as int); }
                assert forall|k: int| 0 <= k < i + 1 && #[trigger] isolated(v@, k) implies m@.contains(v@[k]) by {
                    if k == i {
                        assert(m@[old_m.len() as int] == v@[k]);
                    } else {
                        let q = choose|q: int| 0 <= q < old_m.len() && old_m[q] == v@[k];
                        assert(m@[q] == v@[k]);
                    }
                }
            }
        }
        assert forall|j: int| i + 1 <= j < v@.len() implies m@.last().lo() <= (#[trigger] v@[j]).lo() by {
            assert(key_le(v@[i as int], v@[j]));
        }
        i += 1;
    }
    assert(v@.take(v.len() as int) == v@);
    assert forall|q: int| 0 <= q < m@.len() && (#[trigger] m@[q]).anchor > m@[q].head implies exists|j: int|
        #[trigger] isolated(v@, j) && v@[j] == m@[q] by {
        let j = choose|j: int| #[trigger] alone_before(v@, j, v@.len() as int) && v@[j] == m@[q];
        assert(isolated(v@, j));
    }
    m
}

/// After a merge into the last range, each backward range is still a range of
/// `v` that meets no other of the first `i + 1`.
proof fn lemma_backward_kept(v: Seq<Range>, old_m: Seq<Range>, m: Seq<Range>, i: int)
    requires
        0 < i < v.len(),
        old_m.len() >= 1,
        separated(old_m),
        m.len() == old_m.len(),
        m.last().anchor <= m.last().head,
        forall|q: int| 0 <= q < old_m.len() - 1 ==> #[trigger] m[q] == old_m[q],
        old_m.last().lo() <= v[i].lo(),
        forall|q: int|
            0 <= q < old_m.len() && (#[trigger] old_m[q]).anchor > old_m[q].head ==> exists|j: int|
                #[trigger] alone_before(v, j, i) && v[j] == old_m[q],
    ensures
        forall|q: int|
            0 <= q < m.len() && (#[trigger] m[q]).anchor > m[q].head ==> exists|j: int|
                #[trigger] alone_before(v, j, i + 1) && v[j] == m[q],
{
    assert forall|q: int| 0 <= q < m.len() && (#[trigger] m[q]).anchor > m[q].head implies exists|j: int|
        #[trigger] alone_before(v, j, i + 1) && v[j] == m[q] by {
        let last = old_m.len() - 1;
        assert(q < last);
        assert(old_m[q] == m[q]);
        let j = choose|j: int| #[trigger] alone_before(v, j, i) && v[j] == old_m[q];
        assert(old_m[q].hi() < old_m[last].lo());
        assert(!v[i].meets(v[j]));
        assert(alone_before(v, j, i + 1));
    }
}

/// After pushing `v[i]` as a new range, which met nothing before it, each
/// backward range is a range of `v` that meets no other of the first `i + 1`.
proof fn lemma_backward_pushed(v: Seq<Range>, old_m: Seq<Range>, m: Seq<Range>, i: int)
    requires
        0 < i < v.len(),
        old_m.len() >= 1,
        separated(old_m),
        m == old_m.push(v[i]),
        old_m.last().hi() < v[i].lo(),
        forall|t: int| 0 <= t < i ==> (#[trigger] v[t]).hi() <= old_m.last().hi(),
        forall|q: int|
            0 <= q < old_m.len() && (#[trigger] old_m[q]).anchor > old_m[q].head ==> exists|j: int|
                #[trigger] alone_before(v, j, i) && v[j] == old_m[q],
    ensures
        forall|q: int|
            0 <= q < m.len() && (#[trigger] m[q]).anchor > m[q].head ==> exists|j: int|
                #[trigger] alone_before(v, j, i + 1) && v[j] == m[q],
{
    assert forall|q: int| 0 <= q < m.len() && (#[trigger] m[q]).anchor > m[q].head implies exists|j: int|
        #[trigger] alone_before(v, j, i + 1) && v[j] == m[q] by {
        let last = old_m.len() - 1;
        if q == old_m.len() {
            assert forall|t: int| 0 <= t < i + 1 && t != i implies !(#[trigger] v[t]).meets(v[i]) by {
                assert(v[t].hi() <= old_m.last().hi());
            }
            assert(alone_before(v, i, i + 1));
        } else {
            assert(old_m[q] == m[q]);
            let j = choose|j: int| #[trigger] alone_before(v, j, i) && v[j] == old_m[q];
            if q < last {
                assert(old_m[q].hi() < old_m[last].lo());
            }
            assert(!v[i].meets(v[j]));
            assert(alone_before(v, j, i + 1));
        }
    }
}

/// The first index whose range is picked by the previous primary `p`, or `0`.
fn find_primary(m: &Vec<Range>, p: Range) -> (idx: usize)
    requires
        m@.len() > 0,
    ensures
        primary_after(m@, p, idx as int),
{
    let mut i: usize = 0;
    while i < m.len()
        invariant
            i <= m.len(),
            forall|j: int| 0 <= j < i ==> !picks_primary(p, #[trigger] m@[j]),
        decreases m.len() - i,
    {
        if m[i].contains(p.head) || m[i] == p {
            return i;
        }
        i += 1;
    }
    0
}

proof fn lemma_isolated_permuted(orig: Seq<Range>, w: Seq<Range>, k: int)
    requires
        orig.to_multiset() == w.to_multiset(),
        isolated(orig, k),
    ensures
        exists|k2: int| #[trigger] isolated(w, k2) && w[k2] == orig[k],
{
    broadcast use vstd::seq_lib::group_to_multiset_ensures;
    let x = orig[k];
    assert(orig.contains(x));
    assert(orig.to_multiset().count(x) > 0);
    assert(w.contains(x));
    let k2 = choose|k2: int| 0 <= k2 < w.len() && w[k2] == x;
    assert forall|j: int| 0 <= j < w.len() && j != k2 implies !(#[trigger] w[j]).meets(w[k2]) by {
        if w[j].meets(x) {
            assert(w.contains(w[j]));
            assert(w.to_multiset().count(w[j]) > 0);
            assert(orig.to_multiset().count(w[j]) > 0);
            assert(orig.contains(w[j]));
            let j2 = choose|j2: int| 0 <= j2 < orig.len() && orig[j2] == w[j];
            if j2 != k {
                assert(orig[j2].meets(orig[k]));
            } else {
                let w2 = w.remove(j);
                assert(w2.to_multiset() == w.to_multiset().remove(x));
                let t = if k2 < j { k2 } else { k2 - 1 };
                assert(w2[t] == x);
                assert(w2.contains(x));
                assert(w2.to_multiset().count(x) > 0);
                assert(orig.to_multiset().count(x) >= 2);
                let o2 = orig.remove(k);
                assert(o2.to_multiset() == orig.to_multiset().remove(x));
                assert(o2.to_multiset().count(x) > 0);
                assert(o2.contains(x));
                let t2 = choose|t2: int| 0 <= t2 < o2.len() && o2[t2] == x;
                let t3 = if t2 < k { t2 } else { t2 + 1 };
                assert(orig[t3] == x);
                assert(orig[t3].meets(orig[k]));
            }
        }
    }
    assert(isolated(w, k2));
}

/// The normal form of `v`, with the index of the range that the previous primary `p` picks.
fn normalize_ranges(v: Vec<Range>, p: Range) -> (r: (Vec<Range>, usize))
    ensures
        normal_form(v@, r.0@),
        r.0@.len() > 0,
        separated(r.0@),
        primary_after(r.0@, p, r.1 as int),
{
    if v.len() == 0 {
        let mut out: Vec<Range> = Vec::new();
        out.push(Range::point(0));
        assert(out@ == seq![Range { anchor: 0, head: 0 }]);
        let idx = find_primary(&out, p);
        proof { reveal(normal_form); }
        return (out, idx);
    }
    if is_separated(&v) {
        let idx = find_primary(&v, p);
        proof {
            reveal(normal_form);
            assert forall|q: int| 0 <= q < v@.len() && (#[trigger] v@[q]).anchor > v@[q].head implies exists|k: int|
                #[trigger] isolated(v@, k) && v@[k] == v@[q] by {
                assert forall|t: int| 0 <= t < v@.len() && t != q implies !(#[trigger] v@[t]).meets(v@[q]) by {
                    if t < q {
                        assert(v@[t].hi() < v@[q].lo());
                    } else {
                        assert(v@[q].hi() < v@[t].lo());
                    }
                }
                assert(isolated(v@, q));
            }
            assert forall|k: int| #[trigger] isolated(v@, k) implies v@.contains(v@[k]) by {}
        }
        return (v, idx);
    }
    let ghost orig = v@;
    let mut w = v;
    sort_by_bounds(&mut w);
    proof {
        broadcast use vstd::seq_lib::group_to_multiset_ensures;
        assert forall|x: Range| w@.contains(x) <==> orig.contains(x) by {
            assert(w@.to_multiset().count(x) == orig.to_multiset().count(x));
        }
        assert(w@.len() == orig.len()) by {
            assert(w@.to_multiset().len() == orig.to_multiset().len());
        }
    }
    let m = merge_sorted(&w);
    proof {
        assert forall|k: int| hull_covers(w@, k) == hull_covers(orig, k) by {
            if hull_covers(w@, k) {
                let q = choose|q: int| 0 <= q < w@.len() && 2 * (#[trigger] w@[q]).lo() <= k <= 2 * w@[q].hi();
                assert(w@.contains(w@[q]));
                assert(orig.contains(w@[q]));
                let q2 = choose|q2: int| 0 <= q2 < orig.len() && orig[q2] == w@[q];
                assert(2 * orig[q2].lo() <= k <= 2 * orig[q2].hi());
            }
            if hull_covers(orig, k) {
                let q = choose|q: int| 0 <= q < orig.len() && 2 * (#[trigger] orig[q]).lo() <= k <= 2 * orig[q].hi();
                assert(orig.contains(orig[q]));
                assert(w@.contains(orig[q]));
                let q2 = choose|q2: int| 0 <= q2 < w@.len() && w@[q2] == orig[q];
                assert(2 * w@[q2].lo() <= k <= 2 * w@[q2].hi());
            }
        }
    }
    proof {
        reveal(normal_form);
        assert forall|k: int| #[trigger] isolated(orig, k) implies m@.contains(orig[k]) by {
            lemma_isolated_permuted(orig, w@, k);
            let k2 = choose|k2: int| #[trigger] isolated(w@, k2) && w@[k2] == orig[k];
        }
        assert forall|q: int| 0 <= q < m@.len() && (#[trigger] m@[q]).anchor > m@[q].head implies exists|k: int|
            #[trigger] isolated(orig, k) && orig[k] == m@[q] by {
            let j = choose|j: int| #[trigger] isolated(w@, j) && w@[j] == m@[q];
            lemma_isolated_permuted(w@, orig, j);
        }
    }
    let idx = find_primary(&m, p);
    (m, idx)
}

/// A non-empty set of ranges, sorted and pairwise separated, one of them primary.
#[derive(PartialEq, Eq, Debug)]
pub struct Selection {
    ranges: RangeList,
    primary_idx: usize,
}

impl View for Selection {
    type V = Seq<Range>;

    closed spec fn view(&self) -> Seq<Range> {
        small_items(self.ranges)
    }
}

impl Clone for Selection {
    fn clone(&self) -> (r: Selection)
        ensures
            r@ == self@,
            r.primary_index() == self.primary_index(),
    {
        Selection { ranges: small_clone(&self.ranges), primary_idx: self.primary_idx }
    }
}

impl Default for Selection {
    fn default() -> (r: Selection)
        ensures
            r.wf(),
            r@ == seq![Range { anchor: 0, head: 0 }],
            r.primary_index() == 0,
    {
        Selection::point(0)
    }
}

impl Selection {
    /// The index of the primary range.
    pub closed spec fn primary_index(&self) -> int {
        self.primary_idx as int
    }

    /// Non-empty, pairwise separated, with the primary index in bounds.
    pub open spec fn wf(&self) -> bool {
        &&& self@.len() > 0
        &&& separated(self@)
        &&& 0 <= self.primary_index() < self@.len()
    }

    /// The primary range.
    pub open spec fn primary_range(&self) -> Range {
        self@[self.primary_index()]
    }

    fn from_vec(v: Vec<Range>, primary_idx: usize) -> (r: Selection)
        ensures
            r@ == v@,
            r.primary_index() == primary_idx,
    {
        Selection { ranges: small_from_vec(v), primary_idx }
    }

    fn to_vec(&self) -> (v: Vec<Range>)
        ensures
            v@ == self@,
    {
        let s = small_as_slice(&self.ranges);
        let mut v: Vec<Range> = Vec::new();
        let mut i: usize = 0;
        while i < s.len()
            invariant
                i <= s@.len(),
                s@ == self@,
                v@ == s@.take(i as int),
            decreases s@.len() - i,
        {
            v.push(s[i]);
            i += 1;
            assert(v@ == s@.take(i as int));
        }
        assert(s@.take(s@.len() as int) == s@);
        v
    }

    /// A single cursor at `pos`.
    pub fn point(pos: usize) -> (r: Selection)
        ensures
            r.wf(),
            r@ == seq![Range { anchor: pos, head: pos }],
            r.primary_index() == 0,
    {
        Selection::single(Range::point(pos))
    }

    /// A selection of one range.
    pub fn single(range: Range) -> (r: Selection)
        ensures
            r.wf(),
            r@ == seq![range],
            r.primary_index() == 0,
    {
        let mut v: Vec<Range> = Vec::new();
        v.push(range);
        assert(v@ == seq![range]);
        Selection::from_vec(v, 0)
    }

    /// The normal form of `ranges`, with the primary index held below the
    /// number of ranges.
    pub fn new(ranges: Vec<Range>, primary_idx: usize) -> (r: Selection)
        ensures
            r.wf(),
            normal_form(ranges@, r@),
            r.primary_index() == (if primary_idx < r@.len() { primary_idx as int } else { r@.len() - 1 }),
    {
        Selection::from_normalized(ranges, Range::point(0), primary_idx)
    }

    fn from_normalized(v: Vec<Range>, p: Range, primary_idx: usize) -> (r: Selection)
        ensures
            r.wf(),
            normal_form(v@, r@),
            r.primary_index() == (if primary_idx < r@.len() { primary_idx as int } else { r@.len() - 1 }),
    {
        let (out, _) = normalize_ranges(v, p);
        let n = out.len();
        let idx = if primary_idx < n { primary_idx } else { n - 1 };
        Selection::from_vec(out, idx)
    }

    /// All ranges, in order.
    pub fn ranges(&self) -> (r: &[Range])
        ensures
            r@ == self@,
    {
        small_as_slice(&self.ranges)
    }

    pub fn len(&self) -> (r: usize)
        ensures
            r == self@.len(),
    {
        small_as_slice(&self.ranges).len()
    }

    /// Never true of a well-formed selection.
    pub fn is_empty(&self) -> (r: bool)
        ensures
            r == (self@.len() == 0),
    {
        self.len() == 0
    }

    pub fn primary(&self) -> (r: Range)
        requires
            self.wf(),
        ensures
            r == self.primary_range(),
    {
        small_as_slice(&self.ranges)[self.primary_idx]
    }

    /// The head of the primary range.
    pub fn cursor(&self) -> (r: usize)
        requires
            self.wf(),
        ensures
            r == self.primary_range().head,
    {
        self.primary().head
    }

    pub fn primary_idx(&self) -> (r: usize)
        ensures
            r == self.primary_index(),
    {
        self.primary_idx
    }

    /// Makes range `idx` primary, held below the number of ranges.
    pub fn set_primary_idx(&mut self, idx: usize)
        requires
            old(self).wf(),
        ensures
            final(self).wf(),
            final(self)@ == old(self)@,
            final(self).primary_index() == (if idx < old(self)@.len() { idx as int } else { old(self)@.len() - 1 }),
    {
        let n = self.len();
        self.primary_idx = if idx < n { idx } else { n - 1 };
    }

    /// Whether some range is more than a point.
    pub fn has_selection(&self) -> (r: bool)
        ensures
            r == (exists|i: int| 0 <= i < self@.len() && (#[trigger] self@[i]).anchor != self@[i].head),
    {
        let s = small_as_slice(&self.ranges);
        let mut i: usize = 0;
        while i < s.len()
            invariant
                i <= s@.len(),
                s@ == self@,
                forall|j: int| 0 <= j < i ==> (#[trigger] s@[j]).anchor == s@[j].head,
            decreases s@.len() - i,
        {
            if !s[i].is_point() {
                return true;
            }
            i += 1;
        }
        false
    }

    /// Maps every range through `f`, then normalizes; the primary index stays,
    /// held below the new number of ranges.
    pub fn transform<F: Fn(&Range) -> Range>(&self, f: F) -> (r: Selection)
        requires
            forall|x: &Range| #[trigger] f.requires((x,)),
        ensures
            r.wf(),
            exists|mapped: Seq<Range>| {
                &&& mapped.len() == self@.len()
                &&& forall|i: int| 0 <= i < self@.len() ==> f.ensures((&self@[i],), #[trigger] mapped[i])
                &&& normal_form(mapped, r@)
            },
            r.primary_index() == (if self.primary_index() < r@.len() { self.primary_index() } else { r@.len() - 1 }),
    {
        let s = small_as_slice(&self.ranges);
        let mut v: Vec<Range> = Vec::new();
        let mut i: usize = 0;
        while i < s.len()
            invariant
                i <= s@.len(),
                s@ == self@,
                v@.len() == i,
                forall|x: &Range| #[trigger] f.requires((x,)),
                forall|j: int| 0 <= j < i ==> f.ensures((&self@[j],), #[trigger] v@[j]),
            decreases s@.len() - i,
        {
            let m = f(&s[i]);
            v.push(m);
            i += 1;
        }
        let ghost mapped = v@;
        Selection::from_normalized(v, Range::point(0), self.primary_idx)
    }

    /// Adds a cursor at `pos` and normalizes, which may merge it into an existing range.
    pub fn add_cursor(&mut self, pos: usize)
        requires
            old(self).wf(),
        ensures
            final(self).wf(),
            normal_form(old(self)@.push(Range { anchor: pos, head: pos }), final(self)@),
            primary_after(final(self)@, old(self).primary_range(), final(self).primary_index()),
    {
        self.add_range(Range::point(pos));
    }

    /// Adds `range` and normalizes.
    pub fn add_range(&mut self, range: Range)
        requires
            old(self).wf(),
        ensures
            final(self).wf(),
            normal_form(old(self)@.push(range), final(self)@),
            primary_after(final(self)@, old(self).primary_range(), final(self).primary_index()),
    {
        let p = self.primary();
        let mut v = self.to_vec();
        v.push(range);
        let (out, idx) = normalize_ranges(v, p);
        *self = Selection::from_vec(out, idx);
    }

    /// The primary range alone.
    pub fn into_single(&self) -> (r: Selection)
        requires
            self.wf(),
        ensures
            r.wf(),
            r@ == seq![self.primary_range()],
            r.primary_index() == 0,
    {
        Selection::single(self.primary())
    }

    /// Every range collapsed to a point at its head.
    pub fn collapse(&self) -> (r: Selection)
        ensures
            r.wf(),
            exists|mapped: Seq<Range>| {
                &&& mapped.len() == self@.len()
                &&& forall|i: int| 0 <= i < self@.len() ==> #[trigger] mapped[i] == (Range { anchor: self@[i].head, head: self@[i].head })
                &&& normal_form(mapped, r@)
            },
            r.primary_index() == (if self.primary_index() < r@.len() { self.primary_index() } else { r@.len() - 1 }),
    {
        self.transform(|x: &Range| -> (y: Range)
            ensures
                y == (Range { anchor: x.head, head: x.head }),
            { x.collapse() })
    }

    /// Sorts the ranges, merges those that overlap or touch, and picks as
    /// primary the first range that holds the previous primary's head or equals
    /// it. A selection is always kept in this form, so this changes nothing.
    pub fn normalize(&mut self)
        requires
            old(self).wf(),
        ensures
            final(self)@ == old(self)@,
            final(self).primary_index() == old(self).primary_index(),
    {
        let p = self.primary();
        let v = self.to_vec();
        let (out, idx) = normalize_ranges(v, p);
        proof {
            reveal(normal_form);
            let s = old(self)@;
            let pi = old(self).primary_index();
            assert(out@ == s);
            assert(picks_primary(p, s[pi]));
            assert forall|j: int| 0 <= j < pi implies !picks_primary(p, #[trigger] s[j]) by {
                assert(s[j].hi() < s[pi].lo());
            }
        }
        *self = Selection::from_vec(out, idx);
    }

    /// Replaces all ranges by the normal form of `ranges`.
    pub fn replace(&mut self, ranges: Vec<Range>)
        requires
            old(self).wf(),
        ensures
            final(self).wf(),
            normal_form(ranges@, final(self)@),
            primary_after(final(self)@, old(self).primary_range(), final(self).primary_index()),
    {
        let p = self.primary();
        let (out, idx) = normalize_ranges(ranges, p);
        *self = Selection::from_vec(out, idx);
    }
}

/// Normalisation is idempotent: the normal form of a normal form is itself.
pub proof fn lemma_normal_form_idempotent(input: Seq<Range>, out: Seq<Range>, again: Seq<Range>)
    requires
        normal_form(input, out),
        normal_form(out, again),
    ensures
        again == out,
{
    reveal(normal_form);
}

proof fn lemma_covers_as_hull(s: Seq<Range>, x: int)
    ensures
        covers(s, x) == hull_covers(s, 2 * x + 1),
{
    if covers(s, x) {
        let i = choose|i: int| 0 <= i < s.len() && (#[trigger] s[i]).holds(x);
        assert(2 * s[i].lo() <= 2 * x + 1 <= 2 * s[i].hi());
    }
    if hull_covers(s, 2 * x + 1) {
        let i = choose|i: int| 0 <= i < s.len() && 2 * (#[trigger] s[i]).lo() <= 2 * x + 1 <= 2 * s[i].hi();
        assert(s[i].holds(x));
    }
}

/// Normalisation keeps the covered offsets: an offset lies in some range of
/// the normal form exactly when it lies in some range of the input, and no two
/// ranges of the normal form overlap or touch.
pub proof fn lemma_normal_form_keeps_coverage(input: Seq<Range>, out: Seq<Range>)
    requires
        input.len() > 0,
        normal_form(input, out),
    ensures
        forall|x: int| covers(out, x) == covers(input, x),
        forall|i: int, j: int| 0 <= i < j < out.len() ==> (#[trigger] out[i]).hi() < (#[trigger] out[j]).lo(),
{
    reveal(normal_form);
    assert forall|x: int| covers(out, x) == covers(input, x) by {
        lemma_covers_as_hull(out, x);
        lemma_covers_as_hull(input, x);
    }
}

} // verus!
