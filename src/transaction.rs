//! The edit algebra: operations, change sets and transactions.
use crate::selection::Selection;
use crate::text::{rope_chars, rope_insert, rope_len_chars, rope_remove, rope_substring};
use ropey::Rope;
use vstd::prelude::*;

verus! {

/// An operation over mathematical values.
pub enum OpView {
    Retain(nat),
    Insert(Seq<char>),
    Delete(nat),
}

/// One step of a change set, read left to right over the document.
#[derive(Debug, PartialEq, Eq)]
pub enum Operation {
    /// Keep the next `n` chars.
    Retain(usize),
    /// Insert text at the cursor.
    Insert(String),
    /// Remove the next `n` chars.
    Delete(usize),
}

impl View for Operation {
    type V = OpView;

    open spec fn view(&self) -> OpView {
        match self {
            Operation::Retain(n) => OpView::Retain(*n as nat),
            Operation::Insert(s) => OpView::Insert(s@),
            Operation::Delete(n) => OpView::Delete(*n as nat),
        }
    }
}

impl Clone for Operation {
    fn clone(&self) -> (r: Operation)
        ensures
            r == *self,
    {
        match self {
            Operation::Retain(n) => Operation::Retain(*n),
            Operation::Insert(s) => Operation::Insert(s.clone()),
            Operation::Delete(n) => Operation::Delete(*n),
        }
    }
}

/// How many chars of the old document an operation reads.
pub open spec fn src_of(op: OpView) -> nat {
    match op {
        OpView::Retain(n) => n,
        OpView::Insert(_) => 0,
        OpView::Delete(n) => n,
    }
}

/// How many chars of the new document an operation writes.
pub open spec fn dst_of(op: OpView) -> nat {
    match op {
        OpView::Retain(n) => n,
        OpView::Insert(s) => s.len(),
        OpView::Delete(_) => 0,
    }
}

/// The length of the document that `ops` reads.
pub open spec fn src_len(ops: Seq<OpView>) -> nat
    decreases ops.len(),
{
    if ops.len() == 0 {
        0
    } else {
        src_of(ops[0]) + src_len(ops.drop_first())
    }
}

/// The length of the document that `ops` writes.
pub open spec fn dst_len(ops: Seq<OpView>) -> nat
    decreases ops.len(),
{
    if ops.len() == 0 {
        0
    } else {
        dst_of(ops[0]) + dst_len(ops.drop_first())
    }
}

/// The text that `ops` makes of `t`; what the operations do not reach is kept.
pub open spec fn apply_ops(ops: Seq<OpView>, t: Seq<char>) -> Seq<char>
    decreases ops.len(),
{
    if ops.len() == 0 {
        t
    } else {
        let rest = ops.drop_first();
        match ops[0] {
            OpView::Retain(n) => t.take(n as int) + apply_ops(rest, t.skip(n as int)),
            OpView::Insert(s) => s + apply_ops(rest, t),
            OpView::Delete(n) => apply_ops(rest, t.skip(n as int)),
        }
    }
}

/// The operations that undo `ops` on the text `t` they were made for: a retain
/// stays, an insert becomes a delete of its length, and a delete becomes an
/// insert of the chars it removed.
pub open spec fn invert_ops(ops: Seq<OpView>, t: Seq<char>) -> Seq<OpView>
    decreases ops.len(),
{
    if ops.len() == 0 {
        Seq::empty()
    } else {
        let rest = ops.drop_first();
        match ops[0] {
            OpView::Retain(n) => seq![OpView::Retain(n)] + invert_ops(rest, t.skip(n as int)),
            OpView::Insert(s) => seq![OpView::Delete(s.len())] + invert_ops(rest, t),
            OpView::Delete(n) => seq![OpView::Insert(t.take(n as int))] + invert_ops(
                rest,
                t.skip(n as int),
            ),
        }
    }
}

/// Where offset `pos` of the old document lands in the new one, with `old_at`
/// and `new_at` the offsets that the operations before `ops` reached. An
/// insertion at or before `pos` pushes it right, a deletion before it pulls it
/// left, and a position inside a deleted span goes to the span's start.
pub open spec fn map_through(ops: Seq<OpView>, old_at: int, new_at: int, pos: int) -> int
    decreases ops.len(),
{
    if ops.len() == 0 {
        new_at
    } else {
        let rest = ops.drop_first();
        match ops[0] {
            OpView::Retain(n) => if pos < old_at + n {
                new_at + (pos - old_at)
            } else {
                map_through(rest, old_at + n, new_at + n, pos)
            },
            OpView::Insert(s) => map_through(rest, old_at, new_at + s.len(), pos),
            OpView::Delete(n) => if pos < old_at + n {
                new_at
            } else {
                map_through(rest, old_at + n, new_at, pos)
            },
        }
    }
}

pub open spec fn ops_view(ops: Seq<Operation>) -> Seq<OpView> {
    ops.map_values(|o: Operation| o@)
}

proof fn lemma_skip_unfold(ops: Seq<OpView>, i: int)
    requires
        0 <= i < ops.len(),
    ensures
        ops.skip(i).len() > 0,
        ops.skip(i)[0] == ops[i],
        ops.skip(i).drop_first() == ops.skip(i + 1),
{
    assert(ops.skip(i).drop_first() =~= ops.skip(i + 1));
}

proof fn lemma_push_view(ops: Seq<Operation>, op: Operation)
    ensures
        ops_view(ops.push(op)) == ops_view(ops) + seq![op@],
{
    assert(ops_view(ops.push(op)) =~= ops_view(ops) + seq![op@]);
}

fn op_len(op: &Operation) -> (r: usize)
    ensures
        r == op_size(op@),
{
    match op {
        Operation::Retain(n) => *n,
        Operation::Insert(s) => s.unicode_len(),
        Operation::Delete(n) => *n,
    }
}

/// A change at one place: the chars `start .. end` give way to `insert`.
#[derive(Debug)]
pub struct Change {
    pub start: usize,
    pub end: usize,
    pub insert: String,
}

impl Change {
    /// `text` inserted at `pos`.
    pub fn insert(pos: usize, text: &str) -> (r: Change)
        ensures
            r.start == pos,
            r.end == pos,
            r.insert@ == text@,
    {
        Change { start: pos, end: pos, insert: text.to_owned() }
    }

    /// The chars `start .. end` removed.
    pub fn delete(start: usize, end: usize) -> (r: Change)
        ensures
            r.start == start,
            r.end == end,
            r.insert@ == Seq::<char>::empty(),
    {
        Change { start, end, insert: String::new() }
    }

    /// The chars `start .. end` replaced by `text`.
    pub fn replace(start: usize, end: usize, text: &str) -> (r: Change)
        ensures
            r.start == start,
            r.end == end,
            r.insert@ == text@,
    {
        Change { start, end, insert: text.to_owned() }
    }
}

/// The canonical operations of a single change: retain up to it, delete it,
/// insert its text, retain the rest, each only where it is not empty.
pub open spec fn change_ops(doc_len: nat, start: nat, end: nat, text: Seq<char>) -> Seq<OpView> {
    (if start > 0 { seq![OpView::Retain(start)] } else { Seq::empty() }) + (if end > start {
        seq![OpView::Delete((end - start) as nat)]
    } else {
        Seq::empty()
    }) + (if text.len() > 0 { seq![OpView::Insert(text)] } else { Seq::empty() }) + (if end
        < doc_len {
        seq![OpView::Retain((doc_len - end) as nat)]
    } else {
        Seq::empty()
    })
}

proof fn lemma_change_ops(doc_len: nat, s: nat, e: nat, text: Seq<char>)
    requires
        s <= e <= doc_len,
    ensures
        src_len(change_ops(doc_len, s, e, text)) == doc_len,
        dst_len(change_ops(doc_len, s, e, text)) == s + text.len() + doc_len - e,
        forall|t: Seq<char>| t.len() == doc_len ==> #[trigger] apply_ops(change_ops(doc_len, s, e, text), t)
            == t.take(s as int) + text + t.skip(e as int),
{
    let ops = change_ops(doc_len as nat, s, e, text);
    let p4 = if e < doc_len { seq![OpView::Retain((doc_len - e) as nat)] } else { Seq::empty() };
    let p3 = (if text.len() > 0 { seq![OpView::Insert(text)] } else { Seq::empty() }) + p4;
    let p2 = (if e > s { seq![OpView::Delete((e - s) as nat)] } else { Seq::empty() }) + p3;
    assert(ops =~= (if s > 0 { seq![OpView::Retain(s)] } else { Seq::empty() }) + p2);
    // lengths, from the last part to the first
    assert(src_len(p4) == doc_len - e && dst_len(p4) == doc_len - e) by {
        if e < doc_len {
            assert(p4.drop_first() =~= Seq::<OpView>::empty());
            assert(src_len(p4.drop_first()) == 0);
            assert(dst_len(p4.drop_first()) == 0);
        }
    }
    assert(src_len(p3) == doc_len - e && dst_len(p3) == text.len() + doc_len - e) by {
        if text.len() > 0 {
            assert(p3.drop_first() =~= p4);
        } else {
            assert(p3 =~= p4);
        }
    }
    assert(src_len(p2) == doc_len - s && dst_len(p2) == text.len() + doc_len - e) by {
        if e > s {
            assert(p2.drop_first() =~= p3);
        } else {
            assert(p2 =~= p3);
        }
    }
    assert(src_len(ops) == doc_len && dst_len(ops) == s + text.len() + doc_len - e) by {
        if s > 0 {
            assert(ops.drop_first() =~= p2);
        } else {
            assert(ops =~= p2);
        }
    }
    assert forall|t: Seq<char>| t.len() == doc_len implies #[trigger] apply_ops(ops, t)
        == t.take(s as int) + text + t.skip(e as int) by {
        let u = t.skip(s as int);
        assert(apply_ops(p4, t.skip(e as int)) == t.skip(e as int)) by {
            if e < doc_len {
                assert(p4.drop_first() =~= Seq::<OpView>::empty());
                assert(t.skip(e as int).take((doc_len - e) as int) =~= t.skip(e as int));
                assert(t.skip(e as int).skip((doc_len - e) as int) =~= Seq::<char>::empty());
                assert(t.skip(e as int).take((doc_len - e) as int) + Seq::<char>::empty() =~= t.skip(e as int));
                assert(apply_ops(p4.drop_first(), Seq::<char>::empty()) == Seq::<char>::empty());
            } else {
                assert(p4 =~= Seq::<OpView>::empty());
            }
        }
        assert(apply_ops(p3, t.skip(e as int)) == text + t.skip(e as int)) by {
            if text.len() > 0 {
                assert(p3.drop_first() =~= p4);
            } else {
                assert(p3 =~= p4);
                assert(text + t.skip(e as int) =~= t.skip(e as int));
            }
        }
        assert(apply_ops(p2, u) == text + t.skip(e as int)) by {
            if e > s {
                assert(p2.drop_first() =~= p3);
                assert(u.skip((e - s) as int) =~= t.skip(e as int));
            } else {
                assert(p2 =~= p3);
                assert(u =~= t.skip(e as int));
            }
        }
        if s > 0 {
            assert(ops.drop_first() =~= p2);
            assert(t.take(s as int) + (text + t.skip(e as int)) =~= t.take(s as int) + text + t.skip(e as int));
        } else {
            assert(ops =~= p2);
            assert(u =~= t);
            assert(text + t.skip(e as int) =~= t.take(0) + text + t.skip(e as int));
        }
    }
}

/// A transformation of a document of `doc_len` chars.
#[derive(Debug)]
pub struct ChangeSet {
    pub doc_len: usize,
    pub ops: Vec<Operation>,
}

impl Clone for ChangeSet {
    fn clone(&self) -> (r: ChangeSet)
        ensures
            r.doc_len == self.doc_len,
            r.ops@ == self.ops@,
    {
        let mut ops: Vec<Operation> = Vec::new();
        let mut i: usize = 0;
        while i < self.ops.len()
            invariant
                i <= self.ops@.len(),
                ops@ == self.ops@.take(i as int),
            decreases self.ops@.len() - i,
        {
            ops.push(self.ops[i].clone());
            i += 1;
            assert(ops@ =~= self.ops@.take(i as int));
        }
        assert(self.ops@.take(self.ops@.len() as int) =~= self.ops@);
        ChangeSet { doc_len: self.doc_len, ops }
    }
}

impl ChangeSet {
    /// The operations, over mathematical values.
    pub open spec fn edits(&self) -> Seq<OpView> {
        ops_view(self.ops@)
    }

    /// The operations read exactly the document, and the new length fits.
    pub open spec fn wf(&self) -> bool {
        &&& src_len(self.edits()) == self.doc_len
        &&& dst_len(self.edits()) <= usize::MAX
    }

    /// No operation: a document of `doc_len` chars would be read by none.
    pub fn new(doc_len: usize) -> (r: ChangeSet)
        ensures
            r.doc_len == doc_len,
            r.edits() == Seq::<OpView>::empty(),
    {
        ChangeSet { doc_len, ops: Vec::new() }
    }

    /// The change set of one change, in canonical form.
    pub fn from_change(doc_len: usize, change: &Change) -> (r: ChangeSet)
        requires
            change.start <= change.end <= doc_len,
            doc_len - (change.end - change.start) + change.insert@.len() <= usize::MAX,
        ensures
            r.wf(),
            r.doc_len == doc_len,
            r.edits() == change_ops(
                doc_len as nat,
                change.start as nat,
                change.end as nat,
                change.insert@,
            ),
            dst_len(r.edits()) == doc_len - (change.end - change.start) + change.insert@.len(),
            forall|t: Seq<char>|
                t.len() == doc_len ==> #[trigger] apply_ops(r.edits(), t) == t.take(
                    change.start as int,
                ) + change.insert@ + t.skip(change.end as int),
    {
        let mut cs = ChangeSet::new(doc_len);
        let ghost e0 = cs.edits();
        if change.start > 0 {
            proof { lemma_push_view(cs.ops@, Operation::Retain(change.start)); }
            cs.ops.push(Operation::Retain(change.start));
        }
        let ghost e1 = cs.edits();
        if change.end > change.start {
            let op = Operation::Delete(change.end - change.start);
            proof { lemma_push_view(cs.ops@, op); }
            cs.ops.push(op);
        }
        let ghost e2 = cs.edits();
        if change.insert.unicode_len() > 0 {
            let text = change.insert.clone();
            proof { lemma_push_view(cs.ops@, Operation::Insert(text)); }
            cs.ops.push(Operation::Insert(text));
        }
        let ghost e3 = cs.edits();
        if change.end < doc_len {
            let op = Operation::Retain(doc_len - change.end);
            proof { lemma_push_view(cs.ops@, op); }
            cs.ops.push(op);
        }
        proof {
            let ops = change_ops(doc_len as nat, change.start as nat, change.end as nat, change.insert@);
            assert(cs.edits() =~= ops);
            lemma_change_ops(doc_len as nat, change.start as nat, change.end as nat, change.insert@);
        }
        cs
    }

    /// Whether every operation is a retain, so that applying changes nothing.
    pub fn is_empty(&self) -> (r: bool)
        ensures
            r == (forall|i: int| 0 <= i < self.edits().len() ==> (#[trigger] self.edits()[i]) is Retain),
    {
        let mut i: usize = 0;
        while i < self.ops.len()
            invariant
                i <= self.ops@.len(),
                forall|j: int| 0 <= j < i ==> (#[trigger] self.edits()[j]) is Retain,
            decreases self.ops@.len() - i,
        {
            match &self.ops[i] {
                Operation::Retain(_) => {},
                _ => {
                    assert(!(self.edits()[i as int] is Retain));
                    return false;
                },
            }
            i += 1;
        }
        true
    }

    /// The length of the document after applying.
    pub fn new_len(&self) -> (r: usize)
        requires
            dst_len(self.edits()) <= usize::MAX,
        ensures
            r == dst_len(self.edits()),
    {
        let ghost e = self.edits();
        let mut len: usize = 0;
        let mut i: usize = 0;
        assert(e.skip(0) =~= e);
        while i < self.ops.len()
            invariant
                i <= self.ops@.len(),
                e == self.edits(),
                len + dst_len(e.skip(i as int)) == dst_len(e),
                dst_len(e) <= usize::MAX,
            decreases self.ops@.len() - i,
        {
            proof { lemma_skip_unfold(e, i as int); }
            match &self.ops[i] {
                Operation::Retain(n) => {
                    len = len + *n;
                },
                Operation::Insert(s) => {
                    len = len + s.unicode_len();
                },
                Operation::Delete(_) => {},
            }
            i += 1;
        }
        len
    }

    /// Applies the operations to `rope`, which holds the document they were made for.
    pub fn apply(&self, rope: &mut Rope)
        requires
            self.wf(),
            rope_chars(*old(rope)).len() == self.doc_len,
        ensures
            rope_chars(*final(rope)) == apply_ops(self.edits(), rope_chars(*old(rope))),
    {
        let ghost e = self.edits();
        let ghost t0 = rope_chars(*rope);
        let mut pos: usize = 0;
        let mut i: usize = 0;
        assert(rope_chars(*rope).take(0) + rope_chars(*rope).skip(0) =~= rope_chars(*rope));
        assert(e.skip(0) =~= e);
        while i < self.ops.len()
            invariant
                i <= self.ops@.len(),
                e == self.edits(),
                apply_ops(e, t0) == rope_chars(*rope).take(pos as int) + apply_ops(
                    e.skip(i as int),
                    rope_chars(*rope).skip(pos as int),
                ),
                pos + src_len(e.skip(i as int)) == rope_chars(*rope).len(),
                pos + dst_len(e.skip(i as int)) <= dst_len(e),
                dst_len(e) <= usize::MAX,
            decreases self.ops@.len() - i,
        {
            proof { lemma_skip_unfold(e, i as int); }
            let ghost before = rope_chars(*rope);
            let ghost rest = before.skip(pos as int);
            match &self.ops[i] {
                Operation::Retain(n) => {
                    proof {
                        assert(before.take(pos + *n) =~= before.take(pos as int) + rest.take(*n as int));
                        assert(before.skip(pos + *n) =~= rest.skip(*n as int));
                    }
                    pos = pos + *n;
                },
                Operation::Insert(text) => {
                    rope_insert(rope, pos, text.as_str());
                    proof {
                        let after = rope_chars(*rope);
                        assert(after.take(pos + text@.len()) =~= before.take(pos as int) + text@);
                        assert(after.skip(pos + text@.len()) =~= rest);
                    }
                    pos = pos + text.unicode_len();
                },
                Operation::Delete(n) => {
                    let total = rope_len_chars(rope);
                    rope_remove(rope, pos, pos + *n);
                    proof {
                        let after = rope_chars(*rope);
                        assert(after.take(pos as int) =~= before.take(pos as int));
                        assert(after.skip(pos as int) =~= rest.skip(*n as int));
                    }
                },
            }
            i += 1;
        }
        proof {
            assert(e.skip(i as int) =~= Seq::<OpView>::empty());
            assert(rope_chars(*rope).take(pos as int) + rope_chars(*rope).skip(pos as int) =~= rope_chars(*rope));
        }
    }

    /// The change set that undoes this one, given the document it was made for.
    pub fn invert(&self, original: &Rope) -> (r: ChangeSet)
        requires
            self.wf(),
            rope_chars(*original).len() == self.doc_len,
        ensures
            r.wf(),
            r.doc_len == dst_len(self.edits()),
            r.edits() == invert_ops(self.edits(), rope_chars(*original)),
    {
        let ghost e = self.edits();
        let ghost t = rope_chars(*original);
        let mut inverted = ChangeSet::new(self.new_len());
        let mut pos: usize = 0;
        let mut i: usize = 0;
        assert(e.skip(0) =~= e);
        assert(t.skip(0) =~= t);
        assert(invert_ops(e, t) =~= inverted.edits() + invert_ops(e, t));
        while i < self.ops.len()
            invariant
                i <= self.ops@.len(),
                e == self.edits(),
                t == rope_chars(*original),
                t.len() == self.doc_len,
                inverted.doc_len == dst_len(e),
                invert_ops(e, t) == inverted.edits() + invert_ops(e.skip(i as int), t.skip(pos as int)),
                pos + src_len(e.skip(i as int)) == t.len(),
            decreases self.ops@.len() - i,
        {
            proof { lemma_skip_unfold(e, i as int); }
            let ghost prev = inverted.edits();
            let ghost rest = t.skip(pos as int);
            assert(e[i as int] == self.ops@[i as int]@);
            match &self.ops[i] {
                Operation::Retain(n) => {
                    proof { lemma_push_view(inverted.ops@, Operation::Retain(*n)); }
                    inverted.ops.push(Operation::Retain(*n));
                    proof {
                        assert(rest.skip(*n as int) =~= t.skip(pos + *n));
                    }
                    pos = pos + *n;
                },
                Operation::Insert(text) => {
                    let k = text.unicode_len();
                    proof { lemma_push_view(inverted.ops@, Operation::Delete(k)); }
                    inverted.ops.push(Operation::Delete(k));
                },
                Operation::Delete(n) => {
                    let deleted = rope_substring(original, pos, pos + *n);
                    proof {
                        assert(deleted@ =~= rest.take(*n as int));
                        assert(rest.skip(*n as int) =~= t.skip(pos + *n));
                        lemma_push_view(inverted.ops@, Operation::Insert(deleted));
                    }
                    inverted.ops.push(Operation::Insert(deleted));
                    pos = pos + *n;
                },
            }
            proof {
                let x = inverted.edits().last();
                assert(invert_ops(e.skip(i as int), rest) == seq![x] + invert_ops(e.skip(i + 1), t.skip(pos as int)));
                assert(inverted.edits() == prev + seq![x]);
                assert(prev + (seq![x] + invert_ops(e.skip(i + 1), t.skip(pos as int))) =~= inverted.edits() + invert_ops(e.skip(i + 1), t.skip(pos as int)));
            }
            i += 1;
        }
        proof {
            assert(e.skip(i as int) =~= Seq::<OpView>::empty());
            assert(inverted.edits() + Seq::<OpView>::empty() =~= inverted.edits());
            lemma_invert_lengths(e, t);
        }
        inverted
    }

    /// The change set that does what this one and then `other` do, or `None`
    /// when `other` is not made for the document that this one leaves.
    pub fn compose(&self, other: &ChangeSet) -> (r: Option<ChangeSet>)
        requires
            self.wf(),
            other.wf(),
        ensures
            r is None <==> dst_len(self.edits()) != other.doc_len,
            r matches Some(c) ==> {
                &&& c.wf()
                &&& c.doc_len == self.doc_len
                &&& dst_len(c.edits()) == dst_len(other.edits())
                &&& forall|t: Seq<char>|
                    t.len() == self.doc_len ==> #[trigger] apply_ops(c.edits(), t) == apply_ops(
                        other.edits(),
                        apply_ops(self.edits(), t),
                    )
            },
    {
        if self.new_len() != other.doc_len {
            return None;
        }
        let ghost ea = self.edits();
        let ghost eb = other.edits();
        let na = self.ops.len();
        let nb = other.ops.len();
        let mut out: Vec<Operation> = Vec::new();
        let mut ia: usize = 0;
        let mut ca: usize = 0;
        let mut ib: usize = 0;
        let mut cb: usize = 0;
        let ghost mut k: nat = 0;
        proof {
            lemma_rest_start(ea, 0);
            lemma_rest_start(eb, 0);
            assert(ea.skip(0) =~= ea);
            assert(eb.skip(0) =~= eb);
            assert forall|t: Seq<char>| t.len() == self.doc_len implies #[trigger] apply_ops(eb, apply_ops(ea, t))
                == apply_ops(ops_view(out@), t.take(0)) + apply_ops(rest_of(eb, ib as int, cb as nat), apply_ops(rest_of(ea, ia as int, ca as nat), t.skip(0))) by {
                assert(ops_view(out@) =~= Seq::<OpView>::empty());
                assert(t.skip(0) =~= t);
                assert(t.take(0) =~= Seq::<char>::empty());
                assert(Seq::<char>::empty() + apply_ops(eb, apply_ops(ea, t)) =~= apply_ops(eb, apply_ops(ea, t)));
            }
        }
        loop
            invariant
                na == self.ops@.len(),
                nb == other.ops@.len(),
                ea == self.edits(),
                eb == other.edits(),
                ia <= na,
                ib <= nb,
                ia < na ==> ca <= op_size(ea[ia as int]),
                ia == na ==> ca == 0,
                ib < nb ==> cb <= op_size(eb[ib as int]),
                ib == nb ==> cb == 0,
                ia < na && ea[ia as int] is Delete ==> ca == 0,
                ib < nb && eb[ib as int] is Insert ==> cb == 0,
                k + src_len(rest_of(ea, ia as int, ca as nat)) == self.doc_len,
                dst_len(rest_of(ea, ia as int, ca as nat)) == src_len(rest_of(eb, ib as int, cb as nat)),
                src_len(ops_view(out@)) == k,
                dst_len(ops_view(out@)) + dst_len(rest_of(eb, ib as int, cb as nat)) == dst_len(eb),
                dst_len(eb) <= usize::MAX,
                forall|t: Seq<char>|
                    t.len() == self.doc_len ==> #[trigger] apply_ops(eb, apply_ops(ea, t)) == apply_ops(
                        ops_view(out@),
                        t.take(k as int),
                    ) + apply_ops(
                        rest_of(eb, ib as int, cb as nat),
                        apply_ops(rest_of(ea, ia as int, ca as nat), t.skip(k as int)),
                    ),
            ensures
                ia == na,
                ib == nb,
                k == self.doc_len,
                src_len(ops_view(out@)) == k,
                dst_len(ops_view(out@)) == dst_len(eb),
                forall|t: Seq<char>|
                    t.len() == self.doc_len ==> #[trigger] apply_ops(eb, apply_ops(ea, t)) == apply_ops(
                        ops_view(out@),
                        t.take(k as int),
                    ) + apply_ops(
                        rest_of(eb, ib as int, cb as nat),
                        apply_ops(rest_of(ea, ia as int, ca as nat), t.skip(k as int)),
                    ),
            decreases na - ia + nb - ib, (if ia < na { op_size(ea[ia as int]) - ca } else { 0 }) + (
                if ib < nb { op_size(eb[ib as int]) - cb } else { 0 })
        {
            let ghost ra = rest_of(ea, ia as int, ca as nat);
            let ghost rb = rest_of(eb, ib as int, cb as nat);
            let ghost prev = ops_view(out@);
            if ia < na && ca == op_len(&self.ops[ia]) {
                proof { lemma_rest_exhausted(ea, ia as int, ca as nat); }
                ia = ia + 1;
                ca = 0;
            } else if ib < nb && cb == op_len(&other.ops[ib]) {
                proof { lemma_rest_exhausted(eb, ib as int, cb as nat); }
                ib = ib + 1;
                cb = 0;
            } else if ib < nb && matches!(other.ops[ib], Operation::Insert(_)) {
                let o = other.ops[ib].clone();
                proof {
                    let ins = o@;
                    assert(eb[ib as int] == ins);
                    lemma_lens_push(prev, ins);
                    assert(ops_view(out@.push(o)) =~= prev.push(ins));
                    lemma_drop_head(partial(eb[ib as int], 0), eb.skip(ib + 1));
                    lemma_rest_start(eb, ib + 1);
                    if let OpView::Insert(txt) = ins {
                        assert(txt.skip(0) =~= txt);
                    }
                    lemma_push_view(out@, o);
                    assert forall|t: Seq<char>| t.len() == self.doc_len implies #[trigger] apply_ops(eb, apply_ops(ea, t))
                        == apply_ops(ops_view(out@.push(o)), t.take(k as int)) + apply_ops(
                            rest_of(eb, ib + 1, 0),
                            apply_ops(ra, t.skip(k as int)),
                        ) by {
                        lemma_emit(prev, ins, t, k);
                        assert(t.subrange(k as int, k as int) =~= Seq::<char>::empty());
                        if let OpView::Insert(txt) = ins {
                            let y = apply_ops(ra, t.skip(k as int));
                            assert(apply_ops(rb, y) == txt + apply_ops(rest_of(eb, ib + 1, 0), y));
                            lemma_apply_single(ins, t.subrange(k as int, k as int));
                            assert(apply_ops(seq![ins], t.subrange(k as int, k as int)) == txt);
                            assert(ops_view(out@.push(o)) =~= prev.push(ins));
                            assert(apply_ops(prev, t.take(k as int)) + (txt + apply_ops(rest_of(eb, ib + 1, 0), apply_ops(ra, t.skip(k as int))))
                                =~= (apply_ops(prev, t.take(k as int)) + txt) + apply_ops(rest_of(eb, ib + 1, 0), apply_ops(ra, t.skip(k as int))));
                        }
                    }
                }
                out.push(o);
                ib = ib + 1;
                cb = 0;
            } else if ia < na && matches!(self.ops[ia], Operation::Delete(_)) {
                let o = self.ops[ia].clone();
                proof {
                    let del = o@;
                    let n = src_of(del);
                    assert(ea[ia as int] == del);
                    lemma_lens_push(prev, del);
                    assert(ops_view(out@.push(o)) =~= prev.push(del));
                    lemma_drop_head(partial(ea[ia as int], 0), ea.skip(ia + 1));
                    lemma_rest_start(ea, ia + 1);
                    lemma_push_view(out@, o);
                    assert forall|t: Seq<char>| t.len() == self.doc_len implies #[trigger] apply_ops(eb, apply_ops(ea, t))
                        == apply_ops(ops_view(out@.push(o)), t.take((k + n) as int)) + apply_ops(
                            rb,
                            apply_ops(rest_of(ea, ia + 1, 0), t.skip((k + n) as int)),
                        ) by {
                        lemma_emit(prev, del, t, k);
                        lemma_apply_single(del, t.subrange(k as int, (k + n) as int));
                        let u = t.skip(k as int);
                        assert(u.skip(n as int) =~= t.skip((k + n) as int));
                        assert(apply_ops(prev, t.take(k as int)) + Seq::<char>::empty() =~= apply_ops(prev, t.take(k as int)));
                    }
                    k = k + n;
                }
                out.push(o);
                ia = ia + 1;
                ca = 0;
            } else if ia >= na || ib >= nb {
                proof {
                    if ia < na {
                        lemma_drop_head(partial(ea[ia as int], ca as nat), ea.skip(ia + 1));
                        assert(dst_len(ra) > 0);
                        assert(rb =~= Seq::<OpView>::empty());
                    }
                    if ib < nb {
                        lemma_drop_head(partial(eb[ib as int], cb as nat), eb.skip(ib + 1));
                        assert(src_len(rb) > 0);
                        assert(ra =~= Seq::<OpView>::empty());
                    }
                    assert(ra =~= Seq::<OpView>::empty());
                    assert(rb =~= Seq::<OpView>::empty());
                }
                break;
            } else {
                let la = op_len(&self.ops[ia]) - ca;
                let lb = op_len(&other.ops[ib]) - cb;
                let m = if la <= lb {
                    la
                } else {
                    lb
                };
                let ghost oa = ea[ia as int];
                let ghost ob = eb[ib as int];
                match (&self.ops[ia], &other.ops[ib]) {
                    (Operation::Retain(_), Operation::Retain(_)) => {
                        let o = Operation::Retain(m);
                        proof { lemma_push_view(out@, o); }
                        out.push(o);
                    },
                    (Operation::Retain(_), Operation::Delete(_)) => {
                        let o = Operation::Delete(m);
                        proof { lemma_push_view(out@, o); }
                        out.push(o);
                    },
                    (Operation::Insert(txt), Operation::Retain(_)) => {
                        let piece = txt.as_str().substring_char(ca, ca + m).to_owned();
                        let o = Operation::Insert(piece);
                        proof {
                            assert(piece@ =~= txt@.skip(ca as int).take(m as int));
                            lemma_push_view(out@, o);
                        }
                        out.push(o);
                    },
                    _ => {},
                }
                proof {
                    let mm = m as nat;
                    lemma_compose_step(ea, eb, ia as int, ca as nat, ib as int, cb as nat, mm, prev, k, self.doc_len as nat);
                    assert(ops_view(out@) == prev + step_emit(oa, ob, ca as nat, mm)) by {
                        assert(prev + Seq::<OpView>::empty() =~= prev);
                        assert(prev.push(OpView::Retain(mm)) =~= prev + seq![OpView::Retain(mm)]);
                        assert(prev.push(OpView::Delete(mm)) =~= prev + seq![OpView::Delete(mm)]);
                        if let OpView::Insert(sx) = oa {
                            assert(prev.push(OpView::Insert(sx.skip(ca as int).take(mm as int))) =~= prev + seq![OpView::Insert(sx.skip(ca as int).take(mm as int))]);
                        }
                    }
                    if oa is Retain {
                        k = k + mm;
                    }
                }
                ca = ca + m;
                cb = cb + m;
            }
        }
        proof {
            assert(rest_of(ea, ia as int, ca as nat) =~= Seq::<OpView>::empty());
            assert(rest_of(eb, ib as int, cb as nat) =~= Seq::<OpView>::empty());
            assert forall|t: Seq<char>| t.len() == self.doc_len implies #[trigger] apply_ops(ops_view(out@), t)
                == apply_ops(eb, apply_ops(ea, t)) by {
                assert(t.take(k as int) =~= t);
                assert(t.skip(k as int) =~= Seq::<char>::empty());
                let e = Seq::<OpView>::empty();
                assert(apply_ops(e, Seq::<char>::empty()) == Seq::<char>::empty());
                assert(apply_ops(ops_view(out@), t) + Seq::<char>::empty() =~= apply_ops(ops_view(out@), t));
            }
        }
        Some(ChangeSet { doc_len: self.doc_len, ops: out })
    }

    /// Where char offset `pos` of the old document lands after applying.
    pub fn map_pos(&self, pos: usize) -> (r: usize)
        requires
            self.wf(),
        ensures
            r == map_through(self.edits(), 0, 0, pos as int),
    {
        let ghost e = self.edits();
        let mut old_pos: usize = 0;
        let mut new_pos: usize = 0;
        let mut i: usize = 0;
        assert(e.skip(0) =~= e);
        while i < self.ops.len()
            invariant
                i <= self.ops@.len(),
                e == self.edits(),
                map_through(e, 0, 0, pos as int) == map_through(e.skip(i as int), old_pos as int, new_pos as int, pos as int),
                old_pos <= pos,
                old_pos + src_len(e.skip(i as int)) == self.doc_len,
                new_pos + dst_len(e.skip(i as int)) <= dst_len(e),
                dst_len(e) <= usize::MAX,
            decreases self.ops@.len() - i,
        {
            proof { lemma_skip_unfold(e, i as int); }
            match &self.ops[i] {
                Operation::Retain(n) => {
                    if pos < old_pos + *n {
                        return new_pos + (pos - old_pos);
                    }
                    old_pos = old_pos + *n;
                    new_pos = new_pos + *n;
                },
                Operation::Insert(s) => {
                    new_pos = new_pos + s.unicode_len();
                },
                Operation::Delete(n) => {
                    if pos < old_pos + *n {
                        return new_pos;
                    }
                    old_pos = old_pos + *n;
                },
            }
            i += 1;
        }
        assert(e.skip(i as int) =~= Seq::<OpView>::empty());
        new_pos
    }
}

pub(crate) proof fn lemma_invert_lengths(ops: Seq<OpView>, t: Seq<char>)
    requires
        src_len(ops) <= t.len(),
    ensures
        src_len(invert_ops(ops, t)) == dst_len(ops),
        dst_len(invert_ops(ops, t)) == src_len(ops),
    decreases ops.len(),
{
    if ops.len() > 0 {
        let rest = ops.drop_first();
        match ops[0] {
            OpView::Retain(n) => {
                lemma_invert_lengths(rest, t.skip(n as int));
                assert((seq![OpView::Retain(n)] + invert_ops(rest, t.skip(n as int))).drop_first() =~= invert_ops(rest, t.skip(n as int)));
            },
            OpView::Insert(s) => {
                lemma_invert_lengths(rest, t);
                assert((seq![OpView::Delete(s.len())] + invert_ops(rest, t)).drop_first() =~= invert_ops(rest, t));
            },
            OpView::Delete(n) => {
                lemma_invert_lengths(rest, t.skip(n as int));
                assert((seq![OpView::Insert(t.take(n as int))] + invert_ops(rest, t.skip(n as int))).drop_first() =~= invert_ops(rest, t.skip(n as int)));
            },
        }
    }
}

/// The text that `ops` makes of `t` has the length the operations write, plus
/// what they do not reach.
pub proof fn lemma_apply_len(ops: Seq<OpView>, t: Seq<char>)
    requires
        src_len(ops) <= t.len(),
    ensures
        apply_ops(ops, t).len() == dst_len(ops) + t.len() - src_len(ops),
    decreases ops.len(),
{
    if ops.len() > 0 {
        let rest = ops.drop_first();
        match ops[0] {
            OpView::Retain(n) => lemma_apply_len(rest, t.skip(n as int)),
            OpView::Insert(s) => lemma_apply_len(rest, t),
            OpView::Delete(n) => lemma_apply_len(rest, t.skip(n as int)),
        }
    }
}

/// How much of its own length an operation has.
pub open spec fn op_size(op: OpView) -> nat {
    match op {
        OpView::Retain(n) => n,
        OpView::Insert(s) => s.len(),
        OpView::Delete(n) => n,
    }
}

/// What is left of `op` once `c` of it is used up.
pub open spec fn partial(op: OpView, c: nat) -> OpView {
    match op {
        OpView::Retain(n) => OpView::Retain((n - c) as nat),
        OpView::Insert(s) => OpView::Insert(s.skip(c as int)),
        OpView::Delete(n) => OpView::Delete((n - c) as nat),
    }
}

/// The operations of `ops` left from index `i`, with `c` of that one used up.
pub open spec fn rest_of(ops: Seq<OpView>, i: int, c: nat) -> Seq<OpView> {
    if 0 <= i < ops.len() {
        seq![partial(ops[i], c)] + ops.skip(i + 1)
    } else {
        Seq::empty()
    }
}

proof fn lemma_rest_start(ops: Seq<OpView>, i: int)
    requires
        0 <= i <= ops.len(),
    ensures
        rest_of(ops, i, 0) == ops.skip(i),
{
    if i < ops.len() {
        let op = ops[i];
        assert(partial(op, 0) == op) by {
            if let OpView::Insert(s) = op {
                assert(s.skip(0) =~= s);
            }
        }
        assert(seq![op] + ops.skip(i + 1) =~= ops.skip(i));
    } else {
        assert(ops.skip(i) =~= Seq::<OpView>::empty());
    }
}

proof fn lemma_drop_head(x: OpView, r: Seq<OpView>)
    ensures
        (seq![x] + r).len() > 0,
        (seq![x] + r)[0] == x,
        (seq![x] + r).drop_first() == r,
{
    assert((seq![x] + r).drop_first() =~= r);
}

/// A used-up head can be passed over.
proof fn lemma_rest_exhausted(ops: Seq<OpView>, i: int, c: nat)
    requires
        0 <= i < ops.len(),
        c == op_size(ops[i]),
    ensures
        rest_of(ops, i, c).drop_first() == rest_of(ops, i + 1, 0),
        src_len(rest_of(ops, i, c)) == src_len(rest_of(ops, i + 1, 0)),
        dst_len(rest_of(ops, i, c)) == dst_len(rest_of(ops, i + 1, 0)),
        forall|u: Seq<char>| #[trigger] apply_ops(rest_of(ops, i, c), u) == apply_ops(rest_of(ops, i + 1, 0), u),
{
    let r = ops.skip(i + 1);
    lemma_rest_start(ops, i + 1);
    lemma_drop_head(partial(ops[i], c), r);
    assert forall|u: Seq<char>| #[trigger] apply_ops(rest_of(ops, i, c), u) == apply_ops(rest_of(ops, i + 1, 0), u) by {
        match ops[i] {
            OpView::Retain(n) => {
                assert(u.skip(0) =~= u);
                assert(u.take(0) + apply_ops(r, u) =~= apply_ops(r, u));
            },
            OpView::Insert(s) => {
                assert(s.skip(c as int) =~= Seq::<char>::empty());
                assert(Seq::<char>::empty() + apply_ops(r, u) =~= apply_ops(r, u));
            },
            OpView::Delete(n) => {
                assert(u.skip(0) =~= u);
            },
        }
    }
    match ops[i] {
        OpView::Insert(s) => {
            assert(s.skip(c as int) =~= Seq::<char>::empty());
        },
        _ => {},
    }
}

/// Applying two runs of operations one after the other.
proof fn lemma_apply_concat(p: Seq<OpView>, q: Seq<OpView>, x: Seq<char>)
    requires
        src_len(p) <= x.len(),
    ensures
        apply_ops(p + q, x) == apply_ops(p, x.take(src_len(p) as int)) + apply_ops(q, x.skip(src_len(p) as int)),
        src_len(p + q) == src_len(p) + src_len(q),
        dst_len(p + q) == dst_len(p) + dst_len(q),
    decreases p.len(),
{
    let sp = src_len(p) as int;
    if p.len() == 0 {
        assert(p + q =~= q);
        assert(x.skip(0) =~= x);
        assert(x.take(0) + apply_ops(q, x) =~= apply_ops(q, x));
    } else {
        let p1 = p.drop_first();
        assert((p + q).drop_first() =~= p1 + q);
        assert((p + q)[0] == p[0]);
        match p[0] {
            OpView::Retain(n) => {
                let xn = x.skip(n as int);
                lemma_apply_concat(p1, q, xn);
                let y = x.take(sp);
                assert(y.take(n as int) =~= x.take(n as int));
                assert(y.skip(n as int) =~= xn.take(src_len(p1) as int));
                assert(xn.skip(src_len(p1) as int) =~= x.skip(sp));
                assert(x.take(n as int) + (apply_ops(p1, xn.take(src_len(p1) as int)) + apply_ops(q, x.skip(sp)))
                    =~= (x.take(n as int) + apply_ops(p1, xn.take(src_len(p1) as int))) + apply_ops(q, x.skip(sp)));
            },
            OpView::Insert(s) => {
                lemma_apply_concat(p1, q, x);
                assert(s + (apply_ops(p1, x.take(sp)) + apply_ops(q, x.skip(sp)))
                    =~= (s + apply_ops(p1, x.take(sp))) + apply_ops(q, x.skip(sp)));
            },
            OpView::Delete(n) => {
                let xn = x.skip(n as int);
                lemma_apply_concat(p1, q, xn);
                let y = x.take(sp);
                assert(y.skip(n as int) =~= xn.take(src_len(p1) as int));
                assert(xn.skip(src_len(p1) as int) =~= x.skip(sp));
            },
        }
    }
}

proof fn lemma_lens_push(p: Seq<OpView>, o: OpView)
    ensures
        src_len(p.push(o)) == src_len(p) + src_of(o),
        dst_len(p.push(o)) == dst_len(p) + dst_of(o),
    decreases p.len(),
{
    if p.len() == 0 {
        assert(p.push(o).drop_first() =~= Seq::<OpView>::empty());
        assert(src_len(Seq::<OpView>::empty()) == 0);
        assert(dst_len(Seq::<OpView>::empty()) == 0);
    } else {
        assert(p.push(o).drop_first() =~= p.drop_first().push(o));
        lemma_lens_push(p.drop_first(), o);
    }
}

proof fn lemma_apply_single(o: OpView, x: Seq<char>)
    requires
        x.len() == src_of(o),
    ensures
        src_len(seq![o]) == src_of(o),
        dst_len(seq![o]) == dst_of(o),
        apply_ops(seq![o], x) == match o {
            OpView::Retain(_) => x,
            OpView::Insert(s) => s,
            OpView::Delete(_) => Seq::<char>::empty(),
        },
{
    let e = Seq::<OpView>::empty();
    assert(seq![o].drop_first() =~= e);
    assert(src_len(e) == 0);
    assert(dst_len(e) == 0);
    match o {
        OpView::Retain(n) => {
            assert(x.skip(n as int) =~= Seq::<char>::empty());
            assert(apply_ops(e, Seq::<char>::empty()) == Seq::<char>::empty());
            assert(x.take(n as int) =~= x);
            assert(x.take(n as int) + Seq::<char>::empty() =~= x);
        },
        OpView::Insert(s) => {
            assert(x =~= Seq::<char>::empty());
            assert(apply_ops(e, x) == x);
            assert(s + Seq::<char>::empty() =~= s);
        },
        OpView::Delete(n) => {
            assert(x.skip(n as int) =~= Seq::<char>::empty());
            assert(apply_ops(e, Seq::<char>::empty()) == Seq::<char>::empty());
        },
    }
}

/// Emitting one more operation into the composed output.
proof fn lemma_emit(out: Seq<OpView>, o: OpView, t: Seq<char>, k: nat)
    requires
        src_len(out) == k,
        k + src_of(o) <= t.len(),
    ensures
        src_len(out.push(o)) == k + src_of(o),
        dst_len(out.push(o)) == dst_len(out) + dst_of(o),
        apply_ops(out.push(o), t.take((k + src_of(o)) as int)) == apply_ops(out, t.take(k as int)) + apply_ops(
            seq![o],
            t.subrange(k as int, (k + src_of(o)) as int),
        ),
{
    let k2 = (k + src_of(o)) as int;
    let x = t.take(k2);
    assert(out.push(o) =~= out + seq![o]);
    lemma_apply_concat(out, seq![o], x);
    lemma_apply_single(o, t.subrange(k as int, k2));
    assert(x.take(k as int) =~= t.take(k as int));
    assert(x.skip(k as int) =~= t.subrange(k as int, k2));
}

/// Splitting `m` off the head of the first change set's remainder.
proof fn lemma_split_first(ops: Seq<OpView>, i: int, c: nat, m: nat, u: Seq<char>)
    requires
        0 <= i < ops.len(),
        ops[i] is Retain || ops[i] is Insert,
        c + m <= op_size(ops[i]),
        src_len(rest_of(ops, i, c)) <= u.len(),
    ensures
        ops[i] is Retain ==> apply_ops(rest_of(ops, i, c), u) == u.take(m as int) + apply_ops(rest_of(ops, i, c + m), u.skip(m as int))
            && src_len(rest_of(ops, i, c)) == src_len(rest_of(ops, i, c + m)) + m
            && dst_len(rest_of(ops, i, c)) == dst_len(rest_of(ops, i, c + m)) + m,
        ops[i] matches OpView::Insert(s) ==> apply_ops(rest_of(ops, i, c), u) == s.skip(c as int).take(m as int) + apply_ops(rest_of(ops, i, c + m), u)
            && src_len(rest_of(ops, i, c)) == src_len(rest_of(ops, i, c + m))
            && dst_len(rest_of(ops, i, c)) == dst_len(rest_of(ops, i, c + m)) + m,
{
    let r = ops.skip(i + 1);
    lemma_drop_head(partial(ops[i], c), r);
    lemma_drop_head(partial(ops[i], c + m), r);
    match ops[i] {
        OpView::Retain(n) => {
            let x = (n - c) as int;
            let um = u.skip(m as int);
            assert(u.take(x) =~= u.take(m as int) + um.take(x - m));
            assert(um.skip(x - m) =~= u.skip(x));
            assert(u.take(m as int) + (um.take(x - m) + apply_ops(r, u.skip(x))) =~= (u.take(m as int) + um.take(x - m)) + apply_ops(r, u.skip(x)));
        },
        OpView::Insert(s) => {
            let sc = s.skip(c as int);
            assert(sc =~= sc.take(m as int) + s.skip((c + m) as int));
            assert(sc.take(m as int) + (s.skip((c + m) as int) + apply_ops(r, u)) =~= (sc.take(m as int) + s.skip((c + m) as int)) + apply_ops(r, u));
        },
        _ => {},
    }
}

/// Splitting `m` off the head of the second change set's remainder, where the
/// text it reads starts with `m` chars `p`.
proof fn lemma_split_second(ops: Seq<OpView>, i: int, c: nat, m: nat, p: Seq<char>, z: Seq<char>)
    requires
        0 <= i < ops.len(),
        ops[i] is Retain || ops[i] is Delete,
        c + m <= op_size(ops[i]),
        p.len() == m,
        src_len(rest_of(ops, i, c)) <= p.len() + z.len(),
    ensures
        ops[i] is Retain ==> apply_ops(rest_of(ops, i, c), p + z) == p + apply_ops(rest_of(ops, i, c + m), z)
            && dst_len(rest_of(ops, i, c)) == dst_len(rest_of(ops, i, c + m)) + m,
        ops[i] is Delete ==> apply_ops(rest_of(ops, i, c), p + z) == apply_ops(rest_of(ops, i, c + m), z)
            && dst_len(rest_of(ops, i, c)) == dst_len(rest_of(ops, i, c + m)),
        src_len(rest_of(ops, i, c)) == src_len(rest_of(ops, i, c + m)) + m,
{
    let r = ops.skip(i + 1);
    lemma_drop_head(partial(ops[i], c), r);
    lemma_drop_head(partial(ops[i], c + m), r);
    let w = p + z;
    match ops[i] {
        OpView::Retain(n) => {
            let y = (n - c) as int;
            assert(w.take(y) =~= p + z.take(y - m));
            assert(w.skip(y) =~= z.skip(y - m));
            assert(p + (z.take(y - m) + apply_ops(r, z.skip(y - m))) =~= (p + z.take(y - m)) + apply_ops(r, z.skip(y - m)));
        },
        OpView::Delete(n) => {
            let y = (n - c) as int;
            assert(w.skip(y) =~= z.skip(y - m));
        },
        _ => {},
    }
}

/// What one step of composition emits, with `m` chars of each head used.
pub open spec fn step_emit(oa: OpView, ob: OpView, ca: nat, m: nat) -> Seq<OpView> {
    match (oa, ob) {
        (OpView::Retain(_), OpView::Retain(_)) => seq![OpView::Retain(m)],
        (OpView::Retain(_), OpView::Delete(_)) => seq![OpView::Delete(m)],
        (OpView::Insert(s), OpView::Retain(_)) => seq![OpView::Insert(s.skip(ca as int).take(m as int))],
        _ => Seq::empty(),
    }
}

proof fn lemma_compose_step_at(
    ea: Seq<OpView>,
    eb: Seq<OpView>,
    ia: int,
    ca: nat,
    ib: int,
    cb: nat,
    m: nat,
    prev: Seq<OpView>,
    k: nat,
    t: Seq<char>,
)
    requires
        0 <= ia < ea.len(),
        0 <= ib < eb.len(),
        ea[ia] is Retain || ea[ia] is Insert,
        eb[ib] is Retain || eb[ib] is Delete,
        ca + m <= op_size(ea[ia]),
        cb + m <= op_size(eb[ib]),
        src_len(prev) == k,
        k + src_len(rest_of(ea, ia, ca)) == t.len(),
        dst_len(rest_of(ea, ia, ca)) == src_len(rest_of(eb, ib, cb)),
    ensures
        ({
            let ka: nat = if ea[ia] is Retain { m } else { 0 };
            let out2 = prev + step_emit(ea[ia], eb[ib], ca, m);
            apply_ops(prev, t.take(k as int)) + apply_ops(rest_of(eb, ib, cb), apply_ops(rest_of(ea, ia, ca), t.skip(k as int)))
                == apply_ops(out2, t.take((k + ka) as int)) + apply_ops(
                rest_of(eb, ib, cb + m),
                apply_ops(rest_of(ea, ia, ca + m), t.skip((k + ka) as int)),
            )
        }),
{
    let oa = ea[ia];
    let ob = eb[ib];
    let ra = rest_of(ea, ia, ca);
    let rb = rest_of(eb, ib, cb);
    let ra2 = rest_of(ea, ia, ca + m);
    let rb2 = rest_of(eb, ib, cb + m);
    let ka: nat = if oa is Retain { m } else { 0 };
    let u = t.skip(k as int);
    lemma_apply_len(ra, u);
    lemma_split_first(ea, ia, ca, m, u);
    let pre = match oa {
        OpView::Insert(sx) => sx.skip(ca as int).take(m as int),
        _ => u.take(m as int),
    };
    let u2 = if oa is Retain { u.skip(m as int) } else { u };
    assert(u2 =~= t.skip((k + ka) as int));
    let z = apply_ops(ra2, u2);
    assert(apply_ops(ra, u) == pre + z);
    lemma_split_second(eb, ib, cb, m, pre, z);
    let head = apply_ops(prev, t.take(k as int));
    let em = step_emit(oa, ob, ca, m);
    if oa is Insert && ob is Delete {
        assert(prev + em =~= prev);
        assert(apply_ops(rb, pre + z) == apply_ops(rb2, z));
    } else {
        let o = em[0];
        assert(em =~= seq![o]);
        assert(prev + em =~= prev.push(o));
        assert(src_of(o) == ka);
        lemma_emit(prev, o, t, k);
        let x = t.subrange(k as int, (k + ka) as int);
        if oa is Retain {
            assert(x =~= pre);
        } else {
            assert(x =~= Seq::<char>::empty());
        }
        lemma_apply_single(o, x);
        if ob is Retain {
            assert(apply_ops(rb, pre + z) == pre + apply_ops(rb2, z));
            assert(apply_ops(seq![o], x) == pre);
            assert(head + (pre + apply_ops(rb2, z)) =~= (head + pre) + apply_ops(rb2, z));
        } else {
            assert(apply_ops(seq![o], x) == Seq::<char>::empty());
            assert(head + Seq::<char>::empty() =~= head);
        }
    }
}

proof fn lemma_compose_step(
    ea: Seq<OpView>,
    eb: Seq<OpView>,
    ia: int,
    ca: nat,
    ib: int,
    cb: nat,
    m: nat,
    prev: Seq<OpView>,
    k: nat,
    n: nat,
)
    requires
        0 <= ia < ea.len(),
        0 <= ib < eb.len(),
        ea[ia] is Retain || ea[ia] is Insert,
        eb[ib] is Retain || eb[ib] is Delete,
        ca + m <= op_size(ea[ia]),
        cb + m <= op_size(eb[ib]),
        src_len(prev) == k,
        k + src_len(rest_of(ea, ia, ca)) == n,
        dst_len(rest_of(ea, ia, ca)) == src_len(rest_of(eb, ib, cb)),
        forall|t: Seq<char>|
            t.len() == n ==> #[trigger] apply_ops(eb, apply_ops(ea, t)) == apply_ops(prev, t.take(k as int))
                + apply_ops(rest_of(eb, ib, cb), apply_ops(rest_of(ea, ia, ca), t.skip(k as int))),
    ensures
        ({
            let ka: nat = if ea[ia] is Retain { m } else { 0 };
            let out2 = prev + step_emit(ea[ia], eb[ib], ca, m);
            &&& src_len(out2) == k + ka
            &&& dst_len(out2) + dst_len(rest_of(eb, ib, cb + m)) == dst_len(prev) + dst_len(rest_of(eb, ib, cb))
            &&& k + ka + src_len(rest_of(ea, ia, ca + m)) == n
            &&& dst_len(rest_of(ea, ia, ca + m)) == src_len(rest_of(eb, ib, cb + m))
            &&& forall|t: Seq<char>|
                t.len() == n ==> #[trigger] apply_ops(eb, apply_ops(ea, t)) == apply_ops(out2, t.take((k + ka) as int))
                    + apply_ops(rest_of(eb, ib, cb + m), apply_ops(rest_of(ea, ia, ca + m), t.skip((k + ka) as int)))
        }),
{
    let oa = ea[ia];
    let ob = eb[ib];
    let ka: nat = if oa is Retain { m } else { 0 };
    let em = step_emit(oa, ob, ca, m);
    let out2 = prev + em;
    let filler = Seq::new(n, |i: int| ' ');
    lemma_split_first(ea, ia, ca, m, filler.skip(k as int));
    lemma_split_second(eb, ib, cb, m, Seq::new(m, |i: int| ' '), Seq::new(src_len(rest_of(eb, ib, cb)), |i: int| ' '));
    if oa is Insert && ob is Delete {
        assert(out2 =~= prev);
    } else {
        let o = em[0];
        assert(em =~= seq![o]);
        assert(out2 =~= prev.push(o));
        lemma_lens_push(prev, o);
    }
    assert forall|t: Seq<char>| t.len() == n implies #[trigger] apply_ops(eb, apply_ops(ea, t)) == apply_ops(out2, t.take((k + ka) as int))
        + apply_ops(rest_of(eb, ib, cb + m), apply_ops(rest_of(ea, ia, ca + m), t.skip((k + ka) as int))) by {
        lemma_compose_step_at(ea, eb, ia, ca, ib, cb, m, prev, k, t);
    }
}

/// Undoing restores the text: the inverse of `ops`, made from the text `t`,
/// turns the text that `ops` makes of `t` back into `t`.
pub proof fn lemma_invert_round_trip(ops: Seq<OpView>, t: Seq<char>)
    requires
        src_len(ops) <= t.len(),
    ensures
        apply_ops(invert_ops(ops, t), apply_ops(ops, t)) == t,
    decreases ops.len(),
{
    if ops.len() > 0 {
        let rest = ops.drop_first();
        match ops[0] {
            OpView::Retain(n) => {
                let u = t.skip(n as int);
                lemma_invert_round_trip(rest, u);
                let inv = seq![OpView::Retain(n)] + invert_ops(rest, u);
                assert(inv.drop_first() =~= invert_ops(rest, u));
                let x = t.take(n as int) + apply_ops(rest, u);
                assert(x.take(n as int) =~= t.take(n as int));
                assert(x.skip(n as int) =~= apply_ops(rest, u));
                assert(t.take(n as int) + u =~= t);
            },
            OpView::Insert(s) => {
                lemma_invert_round_trip(rest, t);
                let inv = seq![OpView::Delete(s.len())] + invert_ops(rest, t);
                assert(inv.drop_first() =~= invert_ops(rest, t));
                let x = s + apply_ops(rest, t);
                assert(x.skip(s.len() as int) =~= apply_ops(rest, t));
            },
            OpView::Delete(n) => {
                let u = t.skip(n as int);
                lemma_invert_round_trip(rest, u);
                let inv = seq![OpView::Insert(t.take(n as int))] + invert_ops(rest, u);
                assert(inv.drop_first() =~= invert_ops(rest, u));
                assert(t.take(n as int) + u =~= t);
            },
        }
    }
}

proof fn lemma_map_lower_bound(ops: Seq<OpView>, old_at: int, new_at: int, pos: int)
    requires
        old_at <= pos,
    ensures
        map_through(ops, old_at, new_at, pos) >= new_at,
    decreases ops.len(),
{
    if ops.len() > 0 {
        let rest = ops.drop_first();
        match ops[0] {
            OpView::Retain(n) => {
                if pos >= old_at + n {
                    lemma_map_lower_bound(rest, old_at + n, new_at + n, pos);
                }
            },
            OpView::Insert(s) => {
                lemma_map_lower_bound(rest, old_at, new_at + s.len(), pos);
            },
            OpView::Delete(n) => {
                if pos >= old_at + n {
                    lemma_map_lower_bound(rest, old_at + n, new_at, pos);
                }
            },
        }
    }
}

proof fn lemma_map_monotone_from(ops: Seq<OpView>, old_at: int, new_at: int, p: int, q: int)
    requires
        old_at <= p <= q,
    ensures
        map_through(ops, old_at, new_at, p) <= map_through(ops, old_at, new_at, q),
    decreases ops.len(),
{
    if ops.len() > 0 {
        let rest = ops.drop_first();
        match ops[0] {
            OpView::Retain(n) => {
                if p >= old_at + n {
                    lemma_map_monotone_from(rest, old_at + n, new_at + n, p, q);
                } else if q >= old_at + n {
                    lemma_map_lower_bound(rest, old_at + n, new_at + n, q);
                }
            },
            OpView::Insert(s) => {
                lemma_map_monotone_from(rest, old_at, new_at + s.len(), p, q);
            },
            OpView::Delete(n) => {
                if p >= old_at + n {
                    lemma_map_monotone_from(rest, old_at + n, new_at, p, q);
                } else if q >= old_at + n {
                    lemma_map_lower_bound(rest, old_at + n, new_at, q);
                }
            },
        }
    }
}

/// Mapping a position through a change set never reverses the order of two positions.
pub proof fn lemma_map_pos_monotonic(cs: ChangeSet, p: usize, q: usize)
    requires
        p <= q,
    ensures
        map_through(cs.edits(), 0, 0, p as int) <= map_through(cs.edits(), 0, 0, q as int),
{
    lemma_map_monotone_from(cs.edits(), 0, 0, p as int, q as int);
}

/// A change set with the selection it leaves, if it sets one.
#[derive(Debug)]
pub struct Transaction {
    pub changes: ChangeSet,
    /// The selection after applying; when `None` the previous one is mapped
    /// through the changes.
    pub selection: Option<Selection>,
}

impl Clone for Transaction {
    fn clone(&self) -> (r: Transaction)
        ensures
            r.changes.doc_len == self.changes.doc_len,
            r.changes.ops@ == self.changes.ops@,
            r.selection is Some <==> self.selection is Some,
            r.selection is Some ==> r.selection->0@ == self.selection->0@
                && r.selection->0.primary_index() == self.selection->0.primary_index(),
    {
        let selection = match &self.selection {
            Some(s) => Some(s.clone()),
            None => None,
        };
        Transaction { changes: self.changes.clone(), selection }
    }
}

impl Transaction {
    /// Well-formed changes, and a well-formed selection if there is one.
    pub open spec fn wf(&self) -> bool {
        &&& self.changes.wf()
        &&& self.selection matches Some(s) ==> s.wf()
    }

    pub fn new(changes: ChangeSet) -> (r: Transaction)
        ensures
            r.changes == changes,
            r.selection is None,
    {
        Transaction { changes, selection: None }
    }

    /// The transaction of one change.
    pub fn change(doc_len: usize, change: Change) -> (r: Transaction)
        requires
            change.start <= change.end <= doc_len,
            doc_len - (change.end - change.start) + change.insert@.len() <= usize::MAX,
        ensures
            r.wf(),
            r.selection is None,
            r.changes.doc_len == doc_len,
            r.changes.edits() == change_ops(
                doc_len as nat,
                change.start as nat,
                change.end as nat,
                change.insert@,
            ),
            forall|t: Seq<char>|
                t.len() == doc_len ==> #[trigger] apply_ops(r.changes.edits(), t) == t.take(
                    change.start as int,
                ) + change.insert@ + t.skip(change.end as int),
    {
        Transaction::new(ChangeSet::from_change(doc_len, &change))
    }

    /// `text` inserted at `pos`.
    pub fn insert(doc_len: usize, pos: usize, text: &str) -> (r: Transaction)
        requires
            pos <= doc_len,
            doc_len + text@.len() <= usize::MAX,
        ensures
            r.wf(),
            r.selection is None,
            r.changes.doc_len == doc_len,
            r.changes.edits() == change_ops(doc_len as nat, pos as nat, pos as nat, text@),
            forall|t: Seq<char>|
                t.len() == doc_len ==> #[trigger] apply_ops(r.changes.edits(), t) == t.take(
                    pos as int,
                ) + text@ + t.skip(pos as int),
    {
        Transaction::change(doc_len, Change::insert(pos, text))
    }

    /// The chars `start .. end` removed.
    pub fn delete(doc_len: usize, start: usize, end: usize) -> (r: Transaction)
        requires
            start <= end <= doc_len,
        ensures
            r.wf(),
            r.selection is None,
            r.changes.doc_len == doc_len,
            r.changes.edits() == change_ops(doc_len as nat, start as nat, end as nat, Seq::empty()),
            forall|t: Seq<char>|
                t.len() == doc_len ==> #[trigger] apply_ops(r.changes.edits(), t) == t.take(
                    start as int,
                ) + t.skip(end as int),
    {
        let r = Transaction::change(doc_len, Change::delete(start, end));
        assert forall|t: Seq<char>| t.len() == doc_len implies #[trigger] apply_ops(r.changes.edits(), t)
            == t.take(start as int) + t.skip(end as int) by {
            assert(t.take(start as int) + Seq::<char>::empty() =~= t.take(start as int));
        }
        r
    }

    /// The chars `start .. end` replaced by `text`.
    pub fn replace(doc_len: usize, start: usize, end: usize, text: &str) -> (r: Transaction)
        requires
            start <= end <= doc_len,
            doc_len - (end - start) + text@.len() <= usize::MAX,
        ensures
            r.wf(),
            r.selection is None,
            r.changes.doc_len == doc_len,
            r.changes.edits() == change_ops(doc_len as nat, start as nat, end as nat, text@),
            forall|t: Seq<char>|
                t.len() == doc_len ==> #[trigger] apply_ops(r.changes.edits(), t) == t.take(
                    start as int,
                ) + text@ + t.skip(end as int),
    {
        Transaction::change(doc_len, Change::replace(start, end, text))
    }

    /// The same changes, leaving `selection`.
    pub fn with_selection(self, selection: Selection) -> (r: Transaction)
        ensures
            r.changes == self.changes,
            r.selection == Some(selection),
    {
        Transaction { changes: self.changes, selection: Some(selection) }
    }

    /// Applies the changes to `rope`, which holds the document they were made for.
    pub fn apply(&self, rope: &mut Rope)
        requires
            self.changes.wf(),
            rope_chars(*old(rope)).len() == self.changes.doc_len,
        ensures
            rope_chars(*final(rope)) == apply_ops(self.changes.edits(), rope_chars(*old(rope))),
    {
        self.changes.apply(rope);
    }

    /// The transaction that undoes this one: the inverted changes, leaving the
    /// selection as it was before this one ran.
    pub fn invert(&self, original: &Rope, original_selection: &Selection) -> (r: Transaction)
        requires
            self.changes.wf(),
            rope_chars(*original).len() == self.changes.doc_len,
        ensures
            r.changes.wf(),
            r.changes.doc_len == dst_len(self.changes.edits()),
            r.changes.edits() == invert_ops(self.changes.edits(), rope_chars(*original)),
            r.selection is Some,
            r.selection->0@ == original_selection@,
            r.selection->0.primary_index() == original_selection.primary_index(),
    {
        Transaction { changes: self.changes.invert(original), selection: Some(original_selection.clone()) }
    }

    /// Whether applying changes nothing: every operation is a retain.
    pub fn is_empty(&self) -> (r: bool)
        ensures
            r == (forall|i: int|
                0 <= i < self.changes.edits().len() ==> (#[trigger] self.changes.edits()[i]) is Retain),
    {
        self.changes.is_empty()
    }
}

} // verus!
