//! The layout tree of split views. Every container shares its space equally
//! among its children, so the share of each is one over their number.
use crate::motion::Direction;
use crate::view::ViewId;
use vstd::prelude::*;

verus! {

/// How a container lays out its children.
#[derive(Debug, Clone, Copy, PartialEq, Eq, Structural)]
pub enum Layout {
    Horizontal,
    Vertical,
}

/// A view, or a container of nodes side by side.
#[derive(Debug)]
pub enum Node {
    Leaf(ViewId),
    Container { layout: Layout, children: Vec<Node> },
}

/// The views of a node, left to right.
pub open spec fn leaves(n: Node) -> Seq<ViewId>
    decreases n,
{
    match n {
        Node::Leaf(id) => seq![id],
        Node::Container { layout, children } => leaves_of(children@),
    }
}

/// The views of a run of nodes, left to right.
pub open spec fn leaves_of(cs: Seq<Node>) -> Seq<ViewId>
    decreases cs,
{
    if cs.len() == 0 {
        Seq::empty()
    } else {
        leaves(cs[0]) + leaves_of(cs.subrange(1, cs.len() as int))
    }
}

proof fn lemma_leaves_of_push(cs: Seq<Node>, n: Node)
    ensures
        leaves_of(cs.push(n)) == leaves_of(cs) + leaves(n),
    decreases cs.len(),
{
    if cs.len() == 0 {
        assert(cs.push(n).subrange(1, 1) =~= Seq::<Node>::empty());
        assert(leaves_of(Seq::<Node>::empty()) == Seq::<ViewId>::empty());
        assert(leaves(n) + Seq::<ViewId>::empty() =~= leaves(n));
        assert(Seq::<ViewId>::empty() + leaves(n) =~= leaves(n));
    } else {
        let rest = cs.subrange(1, cs.len() as int);
        assert(cs.push(n).subrange(1, cs.len() as int + 1) =~= rest.push(n));
        lemma_leaves_of_push(rest, n);
        assert(leaves(cs[0]) + (leaves_of(rest) + leaves(n)) =~= (leaves(cs[0]) + leaves_of(rest)) + leaves(n));
    }
}

/// The views of `children`, left to right.
fn views_of(children: &Vec<Node>) -> (r: Vec<ViewId>)
    ensures
        r@ == leaves_of(children@),
    decreases children,
{
    let mut out: Vec<ViewId> = Vec::new();
    let mut i: usize = 0;
    assert(children@.take(0) =~= Seq::<Node>::empty());
    while i < children.len()
        invariant
            i <= children@.len(),
            out@ == leaves_of(children@.take(i as int)),
        decreases children@.len() - i,
    {
        proof {
            assert(decreases_to!(*children => children@));
            assert(decreases_to!(children@ => children@[i as int]));
        }
        let sub = children[i].views();
        let mut j: usize = 0;
        let ghost before = out@;
        while j < sub.len()
            invariant
                j <= sub@.len(),
                out@ == before + sub@.take(j as int),
            decreases sub@.len() - j,
        {
            out.push(sub[j]);
            j += 1;
            assert(out@ =~= before + sub@.take(j as int));
        }
        proof {
            assert(sub@.take(sub@.len() as int) =~= sub@);
            assert(children@.take(i + 1) =~= children@.take(i as int).push(children@[i as int]));
            lemma_leaves_of_push(children@.take(i as int), children@[i as int]);
        }
        i += 1;
    }
    assert(children@.take(children@.len() as int) =~= children@);
    out
}

impl Node {
    pub fn leaf(view_id: ViewId) -> (r: Node)
        ensures
            r == Node::Leaf(view_id),
    {
        Node::Leaf(view_id)
    }

    /// A container of `children`, sharing its space equally among them.
    pub fn container(layout: Layout, children: Vec<Node>) -> (r: Node)
        ensures
            leaves(r) == leaves_of(children@),
    {
        Node::Container { layout, children }
    }

    /// The views of this subtree, left to right.
    pub fn views(&self) -> (r: Vec<ViewId>)
        ensures
            r@ == leaves(*self),
        decreases self,
    {
        match self {
            Node::Leaf(id) => {
                let mut v: Vec<ViewId> = Vec::new();
                v.push(*id);
                assert(v@ =~= seq![*id]);
                v
            },
            Node::Container { layout, children } => views_of(children),
        }
    }

    /// Whether `view_id` is a view of this subtree.
    pub fn contains(&self, view_id: ViewId) -> (r: bool)
        ensures
            r == leaves(*self).contains(view_id),
    {
        let views = self.views();
        let mut i: usize = 0;
        while i < views.len()
            invariant
                i <= views@.len(),
                views@ == leaves(*self),
                forall|j: int| 0 <= j < i ==> views@[j] != view_id,
            decreases views@.len() - i,
        {
            if views[i] == view_id {
                assert(views@[i as int] == view_id);
                return true;
            }
            i += 1;
        }
        false
    }
}

/// The views after splitting each occurrence of `v`: `v` is followed by `w`.
pub open spec fn expand(s: Seq<ViewId>, v: ViewId, w: ViewId) -> Seq<ViewId>
    decreases s.len(),
{
    if s.len() == 0 {
        Seq::empty()
    } else {
        (if s[0] == v { seq![s[0], w] } else { seq![s[0]] }) + expand(s.drop_first(), v, w)
    }
}

/// The views without `v`.
pub open spec fn without(s: Seq<ViewId>, v: ViewId) -> Seq<ViewId>
    decreases s.len(),
{
    if s.len() == 0 {
        Seq::empty()
    } else {
        (if s[0] == v { Seq::empty() } else { seq![s[0]] }) + without(s.drop_first(), v)
    }
}

proof fn lemma_expand_concat(a: Seq<ViewId>, b: Seq<ViewId>, v: ViewId, w: ViewId)
    ensures
        expand(a + b, v, w) == expand(a, v, w) + expand(b, v, w),
    decreases a.len(),
{
    if a.len() == 0 {
        assert(a + b =~= b);
        assert(Seq::<ViewId>::empty() + expand(b, v, w) =~= expand(b, v, w));
    } else {
        assert((a + b).drop_first() =~= a.drop_first() + b);
        lemma_expand_concat(a.drop_first(), b, v, w);
        let h = if a[0] == v { seq![a[0], w] } else { seq![a[0]] };
        assert(h + (expand(a.drop_first(), v, w) + expand(b, v, w)) =~= (h + expand(a.drop_first(), v, w)) + expand(b, v, w));
    }
}

proof fn lemma_without_concat(a: Seq<ViewId>, b: Seq<ViewId>, v: ViewId)
    ensures
        without(a + b, v) == without(a, v) + without(b, v),
    decreases a.len(),
{
    if a.len() == 0 {
        assert(a + b =~= b);
        assert(Seq::<ViewId>::empty() + without(b, v) =~= without(b, v));
    } else {
        assert((a + b).drop_first() =~= a.drop_first() + b);
        lemma_without_concat(a.drop_first(), b, v);
        let h = if a[0] == v { Seq::<ViewId>::empty() } else { seq![a[0]] };
        assert(h + (without(a.drop_first(), v) + without(b, v)) =~= (h + without(a.drop_first(), v)) + without(b, v));
    }
}

proof fn lemma_single(x: ViewId, v: ViewId, w: ViewId)
    ensures
        expand(seq![x], v, w) == if x == v { seq![x, w] } else { seq![x] },
        without(seq![x], v) == if x == v { Seq::<ViewId>::empty() } else { seq![x] },
{
    assert(seq![x].drop_first() =~= Seq::<ViewId>::empty());
    assert(expand(Seq::<ViewId>::empty(), v, w) == Seq::<ViewId>::empty());
    assert(without(Seq::<ViewId>::empty(), v) == Seq::<ViewId>::empty());
    assert(seq![x, w] + Seq::<ViewId>::empty() =~= seq![x, w]);
    assert(seq![x] + Seq::<ViewId>::empty() =~= seq![x]);
    assert(Seq::<ViewId>::empty() + Seq::<ViewId>::empty() =~= Seq::<ViewId>::empty());
}

/// `node` with the view `view_id` split into itself and `new_view_id`, side
/// by side in `layout`.
fn split_node(node: &Node, view_id: ViewId, new_view_id: ViewId, layout: Layout) -> (r: Node)
    ensures
        leaves(r) == expand(leaves(*node), view_id, new_view_id),
    decreases node,
{
    proof { lemma_single_leaf(node, view_id, new_view_id); }
    match node {
        Node::Leaf(id) => {
            if *id == view_id {
                let mut children: Vec<Node> = Vec::new();
                children.push(Node::leaf(*id));
                children.push(Node::leaf(new_view_id));
                proof {
                    let c = children@;
                    lemma_leaves_of_push(seq![Node::Leaf(*id)], Node::Leaf(new_view_id));
                    lemma_leaves_of_push(Seq::<Node>::empty(), Node::Leaf(*id));
                    assert(c =~= seq![Node::Leaf(*id)].push(Node::Leaf(new_view_id)));
                    assert(seq![Node::Leaf(*id)] =~= Seq::<Node>::empty().push(Node::Leaf(*id)));
                    assert(leaves_of(Seq::<Node>::empty()) == Seq::<ViewId>::empty());
                    assert(Seq::<ViewId>::empty() + seq![*id] =~= seq![*id]);
                    assert(seq![*id] + seq![new_view_id] =~= seq![*id, new_view_id]);
                }
                Node::container(layout, children)
            } else {
                Node::leaf(*id)
            }
        },
        Node::Container { layout: own, children } => {
            let split = split_all(children, view_id, new_view_id, layout);
            Node::Container { layout: *own, children: split }
        },
    }
}

proof fn lemma_single_leaf(node: &Node, v: ViewId, w: ViewId)
    ensures
        *node matches Node::Leaf(id) ==> expand(leaves(*node), v, w) == (if id == v { seq![id, w] } else { seq![id] })
            && without(leaves(*node), v) == (if id == v { Seq::<ViewId>::empty() } else { seq![id] }),
{
    if let Node::Leaf(id) = node {
        lemma_single(*id, v, w);
    }
}

fn split_all(children: &Vec<Node>, view_id: ViewId, new_view_id: ViewId, layout: Layout) -> (r: Vec<Node>)
    ensures
        leaves_of(r@) == expand(leaves_of(children@), view_id, new_view_id),
    decreases children,
{
    let mut out: Vec<Node> = Vec::new();
    let mut i: usize = 0;
    assert(children@.take(0) =~= Seq::<Node>::empty());
    assert(out@ =~= Seq::<Node>::empty());
    assert(expand(Seq::<ViewId>::empty(), view_id, new_view_id) == Seq::<ViewId>::empty());
    while i < children.len()
        invariant
            i <= children@.len(),
            leaves_of(out@) == expand(leaves_of(children@.take(i as int)), view_id, new_view_id),
        decreases children@.len() - i,
    {
        proof {
            assert(decreases_to!(*children => children@));
            assert(decreases_to!(children@ => children@[i as int]));
        }
        let n = split_node(&children[i], view_id, new_view_id, layout);
        proof {
            lemma_leaves_of_push(out@, n);
            assert(children@.take(i + 1) =~= children@.take(i as int).push(children@[i as int]));
            lemma_leaves_of_push(children@.take(i as int), children@[i as int]);
            lemma_expand_concat(leaves_of(children@.take(i as int)), leaves(children@[i as int]), view_id, new_view_id);
        }
        out.push(n);
        i += 1;
    }
    assert(children@.take(children@.len() as int) =~= children@);
    out
}

/// `node` without the view `view_id`; `None` when no view is left. A
/// container left with one child gives way to it.
fn remove_view(node: &Node, view_id: ViewId) -> (r: Option<Node>)
    ensures
        match r {
            Some(n) => leaves(n) == without(leaves(*node), view_id) && leaves(n).len() > 0,
            None => without(leaves(*node), view_id).len() == 0,
        },
    decreases node,
{
    proof { lemma_single_leaf(node, view_id, view_id); }
    match node {
        Node::Leaf(id) => {
            if *id == view_id {
                None
            } else {
                Some(Node::leaf(*id))
            }
        },
        Node::Container { layout, children } => {
            let mut kept = remove_all(children, view_id);
            if kept.len() == 0 {
                None
            } else if kept.len() == 1 {
                let only = kept.pop().unwrap();
                proof {
                    assert(kept@.len() == 0);
                }
                Some(only)
            } else {
                Some(Node::Container { layout: *layout, children: kept })
            }
        },
    }
}

fn remove_all(children: &Vec<Node>, view_id: ViewId) -> (r: Vec<Node>)
    ensures
        leaves_of(r@) == without(leaves_of(children@), view_id),
        forall|k: int| 0 <= k < r@.len() ==> leaves(#[trigger] r@[k]).len() > 0,
        r@.len() == 1 ==> leaves_of(r@) == leaves(r@[0]),
    decreases children,
{
    let mut out: Vec<Node> = Vec::new();
    let mut i: usize = 0;
    assert(children@.take(0) =~= Seq::<Node>::empty());
    assert(without(Seq::<ViewId>::empty(), view_id) == Seq::<ViewId>::empty());
    while i < children.len()
        invariant
            i <= children@.len(),
            leaves_of(out@) == without(leaves_of(children@.take(i as int)), view_id),
            forall|k: int| 0 <= k < out@.len() ==> leaves(#[trigger] out@[k]).len() > 0,
        decreases children@.len() - i,
    {
        proof {
            assert(decreases_to!(*children => children@));
            assert(decreases_to!(children@ => children@[i as int]));
            assert(children@.take(i + 1) =~= children@.take(i as int).push(children@[i as int]));
            lemma_leaves_of_push(children@.take(i as int), children@[i as int]);
            lemma_without_concat(leaves_of(children@.take(i as int)), leaves(children@[i as int]), view_id);
        }
        match remove_view(&children[i], view_id) {
            Some(n) => {
                proof { lemma_leaves_of_push(out@, n); }
                out.push(n);
            },
            None => {
                assert(without(leaves(children@[i as int]), view_id) =~= Seq::<ViewId>::empty());
                assert(leaves_of(out@) + Seq::<ViewId>::empty() =~= leaves_of(out@));
            },
        }
        i += 1;
    }
    assert(children@.take(children@.len() as int) =~= children@);
    proof {
        if out@.len() == 1 {
            lemma_leaves_of_push(Seq::<Node>::empty(), out@[0]);
            assert(out@ =~= Seq::<Node>::empty().push(out@[0]));
            assert(leaves_of(Seq::<Node>::empty()) == Seq::<ViewId>::empty());
            assert(Seq::<ViewId>::empty() + leaves(out@[0]) =~= leaves(out@[0]));
        }
    }
    out
}

proof fn lemma_expand_contains(s: Seq<ViewId>, v: ViewId, w: ViewId)
    requires
        s.contains(v),
    ensures
        expand(s, v, w).contains(w),
    decreases s.len(),
{
    let h = if s[0] == v { seq![s[0], w] } else { seq![s[0]] };
    if s[0] == v {
        assert((h + expand(s.drop_first(), v, w))[1] == w);
    } else {
        let i = choose|i: int| 0 <= i < s.len() && s[i] == v;
        assert(s.drop_first()[i - 1] == v);
        lemma_expand_contains(s.drop_first(), v, w);
        let j = choose|j: int| 0 <= j < expand(s.drop_first(), v, w).len() && expand(s.drop_first(), v, w)[j] == w;
        assert((h + expand(s.drop_first(), v, w))[j + 1] == w);
    }
}

proof fn lemma_without_contains(s: Seq<ViewId>, v: ViewId, x: ViewId)
    requires
        s.contains(x),
        x != v,
    ensures
        without(s, v).contains(x),
    decreases s.len(),
{
    let h = if s[0] == v { Seq::<ViewId>::empty() } else { seq![s[0]] };
    if s[0] == x {
        assert((h + without(s.drop_first(), v))[0] == x);
    } else {
        let i = choose|i: int| 0 <= i < s.len() && s[i] == x;
        assert(s.drop_first()[i - 1] == x);
        lemma_without_contains(s.drop_first(), v, x);
        let j = choose|j: int| 0 <= j < without(s.drop_first(), v).len() && without(s.drop_first(), v)[j] == x;
        assert((h + without(s.drop_first(), v))[h.len() + j] == x);
    }
}

impl Node {
    /// The first view of the sibling on the `direction` side of the leaf
    /// `view_id`, in the innermost container that holds that leaf directly.
    pub fn find_sibling(&self, view_id: ViewId, direction: Direction) -> (r: Option<ViewId>)
        ensures
            r matches Some(x) ==> leaves(*self).contains(x),
        decreases self,
    {
        match self {
            Node::Leaf(_) => None,
            Node::Container { layout, children } => sibling_in(children, view_id, direction),
        }
    }
}

fn is_leaf_of(node: &Node, view_id: ViewId) -> (r: bool)
    ensures
        r == (*node == Node::Leaf(view_id)),
{
    match node {
        Node::Leaf(id) => *id == view_id,
        _ => false,
    }
}

fn sibling_in(children: &Vec<Node>, view_id: ViewId, direction: Direction) -> (r: Option<ViewId>)
    ensures
        r matches Some(x) ==> leaves_of(children@).contains(x),
    decreases children,
{
    let mut idx: usize = 0;
    while idx < children.len() && !is_leaf_of(&children[idx], view_id)
        invariant
            idx <= children@.len(),
        decreases children@.len() - idx,
    {
        idx += 1;
    }
    if idx < children.len() {
        let target = match direction {
            Direction::Left | Direction::Up => if idx > 0 {
                Some(idx - 1)
            } else {
                None
            },
            Direction::Right | Direction::Down => if idx + 1 < children.len() {
                Some(idx + 1)
            } else {
                None
            },
        };
        if let Some(t) = target {
            proof {
                assert(decreases_to!(*children => children@));
                assert(decreases_to!(children@ => children@[t as int]));
            }
            let views = children[t].views();
            if views.len() > 0 {
                proof {
                    assert(leaves(children@[t as int]).contains(views@[0]));
                    lemma_leaves_of_member(children@, t as int, views@[0]);
                }
                return Some(views[0]);
            }
        }
        None
    } else {
        let mut k: usize = 0;
        while k < children.len()
            invariant
                k <= children@.len(),
            decreases children@.len() - k,
        {
            proof {
                assert(decreases_to!(*children => children@));
                assert(decreases_to!(children@ => children@[k as int]));
            }
            if let Some(sibling) = children[k].find_sibling(view_id, direction) {
                proof { lemma_leaves_of_member(children@, k as int, sibling); }
                return Some(sibling);
            }
            k += 1;
        }
        None
    }
}

proof fn lemma_leaves_of_member(cs: Seq<Node>, k: int, x: ViewId)
    requires
        0 <= k < cs.len(),
        leaves(cs[k]).contains(x),
    ensures
        leaves_of(cs).contains(x),
    decreases cs.len(),
{
    let rest = cs.subrange(1, cs.len() as int);
    if k == 0 {
        let j = choose|j: int| 0 <= j < leaves(cs[0]).len() && leaves(cs[0])[j] == x;
        assert((leaves(cs[0]) + leaves_of(rest))[j] == x);
    } else {
        assert(rest[k - 1] == cs[k]);
        lemma_leaves_of_member(rest, k - 1, x);
        let j = choose|j: int| 0 <= j < leaves_of(rest).len() && leaves_of(rest)[j] == x;
        assert((leaves(cs[0]) + leaves_of(rest))[leaves(cs[0]).len() + j] == x);
    }
}

/// `x` is at index `i` of `s` and nowhere before.
pub open spec fn first_at(s: Seq<ViewId>, x: ViewId, i: int) -> bool {
    &&& 0 <= i < s.len()
    &&& s[i] == x
    &&& forall|j: int| 0 <= j < i ==> #[trigger] s[j] != x
}

/// The split views of the editor, with the one that has the focus.
#[derive(Debug)]
pub struct Tree {
    root: Node,
    focus: ViewId,
}

impl Tree {
    /// The views, left to right.
    pub closed spec fn view_ids(&self) -> Seq<ViewId> {
        leaves(self.root)
    }

    pub closed spec fn focused(&self) -> ViewId {
        self.focus
    }

    /// The focused view is one of the views.
    pub open spec fn wf(&self) -> bool {
        self.view_ids().contains(self.focused())
    }

    /// One view, focused.
    pub fn new(view_id: ViewId) -> (r: Tree)
        ensures
            r.wf(),
            r.view_ids() == seq![view_id],
            r.focused() == view_id,
    {
        let r = Tree { root: Node::leaf(view_id), focus: view_id };
        assert(r.view_ids()[0] == view_id);
        r
    }

    pub fn focus(&self) -> (r: ViewId)
        ensures
            r == self.focused(),
    {
        self.focus
    }

    /// Focuses `view_id` if it is one of the views.
    pub fn set_focus(&mut self, view_id: ViewId)
        requires
            old(self).wf(),
        ensures
            final(self).wf(),
            final(self).view_ids() == old(self).view_ids(),
            final(self).focused() == if old(self).view_ids().contains(view_id) {
                view_id
            } else {
                old(self).focused()
            },
    {
        if self.root.contains(view_id) {
            self.focus = view_id;
        }
    }

    pub fn views(&self) -> (r: Vec<ViewId>)
        ensures
            r@ == self.view_ids(),
    {
        self.root.views()
    }

    /// Splits the focused view, putting `new_view_id` after it in `layout`,
    /// and focuses the new view.
    pub fn split(&mut self, new_view_id: ViewId, layout: Layout)
        requires
            old(self).wf(),
        ensures
            final(self).wf(),
            final(self).view_ids() == expand(old(self).view_ids(), old(self).focused(), new_view_id),
            final(self).focused() == new_view_id,
    {
        let old_focus = self.focus;
        self.split_view(old_focus, new_view_id, layout);
        proof { lemma_expand_contains(old(self).view_ids(), old_focus, new_view_id); }
        self.focus = new_view_id;
    }

    fn split_view(&mut self, view_id: ViewId, new_view_id: ViewId, layout: Layout)
        ensures
            final(self).view_ids() == expand(old(self).view_ids(), view_id, new_view_id),
            final(self).focused() == old(self).focused(),
    {
        self.root = split_node(&self.root, view_id, new_view_id, layout);
    }

    /// Closes `view_id`, unless it is the last view; the focus moves to the
    /// first other view if it was on the closed one. Gives that other view.
    pub fn close(&mut self, view_id: ViewId) -> (r: Option<ViewId>)
        requires
            old(self).wf(),
        ensures
            final(self).wf(),
            old(self).view_ids().len() <= 1 ==> r is None,
            r is None ==> final(self).view_ids() == old(self).view_ids() && final(self).focused()
                == old(self).focused(),
            r matches Some(f) ==> {
                &&& final(self).view_ids() == without(old(self).view_ids(), view_id)
                &&& f != view_id
                &&& old(self).view_ids().contains(f)
                &&& final(self).focused() == if old(self).focused() == view_id {
                    f
                } else {
                    old(self).focused()
                }
            },
    {
        let views = self.root.views();
        if views.len() <= 1 {
            return None;
        }
        let mut i: usize = 0;
        while i < views.len() && views[i] == view_id
            invariant
                i <= views@.len(),
            decreases views@.len() - i,
        {
            i += 1;
        }
        if i == views.len() {
            return None;
        }
        let new_focus = views[i];
        assert(views@[i as int] == new_focus);
        match remove_view(&self.root, view_id) {
            Some(root) => {
                proof {
                    if self.focus != view_id {
                        lemma_without_contains(views@, view_id, self.focus);
                    }
                    lemma_without_contains(views@, view_id, new_focus);
                }
                self.root = root;
                if self.focus == view_id {
                    self.focus = new_focus;
                }
                Some(new_focus)
            },
            None => {
                proof { lemma_without_contains(views@, view_id, new_focus); }
                None
            },
        }
    }

    /// Moves the focus to the sibling on the `direction` side, if there is one.
    pub fn focus_direction(&mut self, direction: Direction) -> (r: bool)
        requires
            old(self).wf(),
        ensures
            final(self).wf(),
            final(self).view_ids() == old(self).view_ids(),
            !r ==> final(self).focused() == old(self).focused(),
    {
        match self.root.find_sibling(self.focus, direction) {
            Some(sibling) => {
                self.focus = sibling;
                true
            },
            None => false,
        }
    }

    /// Focuses the next view, wrapping to the first.
    pub fn focus_next(&mut self)
        requires
            old(self).wf(),
        ensures
            final(self).wf(),
            final(self).view_ids() == old(self).view_ids(),
            exists|i: int|
                #[trigger] first_at(old(self).view_ids(), old(self).focused(), i)
                    && final(self).focused() == old(self).view_ids()[(i + 1) % (old(self).view_ids().len() as int)],
    {
        let views = self.root.views();
        let mut i: usize = 0;
        while i < views.len() && views[i] != self.focus
            invariant
                i <= views@.len(),
                views@ == self.view_ids(),
                forall|j: int| 0 <= j < i ==> #[trigger] views@[j] != self.focused(),
            decreases views@.len() - i,
        {
            i += 1;
        }
        if i == views.len() {
            assert(false);
        } else {
            let next = (i + 1) % views.len();
            assert(first_at(views@, self.focus, i as int));
            self.focus = views[next];
            assert(views@.contains(views@[next as int]));
        }
    }

    /// Focuses the previous view, wrapping to the last.
    pub fn focus_prev(&mut self)
        requires
            old(self).wf(),
        ensures
            final(self).wf(),
            final(self).view_ids() == old(self).view_ids(),
            exists|i: int|
                #[trigger] first_at(old(self).view_ids(), old(self).focused(), i)
                    && final(self).focused() == old(self).view_ids()[if i == 0 {
                    old(self).view_ids().len() - 1
                } else {
                    i - 1
                }],
    {
        let views = self.root.views();
        let mut i: usize = 0;
        while i < views.len() && views[i] != self.focus
            invariant
                i <= views@.len(),
                views@ == self.view_ids(),
                forall|j: int| 0 <= j < i ==> #[trigger] views@[j] != self.focused(),
            decreases views@.len() - i,
        {
            i += 1;
        }
        if i == views.len() {
            assert(false);
        } else {
            let prev = if i == 0 {
                views.len() - 1
            } else {
                i - 1
            };
            assert(first_at(views@, self.focus, i as int));
            self.focus = views[prev];
            assert(views@.contains(views@[prev as int]));
        }
    }
}

} // verus!
