//! An append-only tree stored in a flat vector.
//!
//! Every node carries a label and a [`Measurement`]. The children of a node are
//! a singly linked list threaded through the vector (`first_child`, then
//! `next_sibling`), kept in insertion order; among the children of one node no
//! label occurs twice. Nodes are named by their position, an [`Index`], which
//! stays valid until the tree is cleared.

use vstd::prelude::*;

verus! {

/// The handle of a node. Only meaningful for the tree that issued it, and only
/// until that tree is next cleared.
#[derive(Debug, Clone, Copy, PartialEq, Eq, Hash, Structural)]
pub struct Index(pub usize);

/// What a node has accumulated: time in nanoseconds and completed invocations.
#[derive(Debug, Clone, Copy, PartialEq, Eq, Structural)]
pub struct Measurement {
    pub duration: u128,
    pub num_invocations: usize,
}

impl Measurement {
    /// The measurement of a node that has seen no completed invocation.
    pub open spec fn zero() -> Measurement {
        Measurement { duration: 0, num_invocations: 0 }
    }
}

impl Default for Measurement {
    fn default() -> (m: Measurement)
        ensures
            m == Measurement::zero(),
    {
        Measurement { duration: 0, num_invocations: 0 }
    }
}

#[derive(Debug)]
struct Node {
    key: String,
    value: Measurement,
    first_child: Option<usize>,
    next_sibling: Option<usize>,
}

/// The mathematical content of one node.
pub struct NodeView {
    pub label: Seq<char>,
    pub value: Measurement,
    pub first_child: Option<usize>,
    pub next_sibling: Option<usize>,
}

/// The nodes reached from `start` by following `next_sibling`, in order.
/// A link counts only if it points past `bound` and inside the tree, which is
/// what makes the walk finite; in a well-formed tree every link does.
pub open spec fn chain(t: Seq<NodeView>, start: Option<usize>, bound: int) -> Seq<int>
    decreases t.len() - bound,
{
    if let Some(c) = start {
        if bound < c < t.len() {
            seq![c as int] + chain(t, t[c as int].next_sibling, c as int)
        } else {
            Seq::empty()
        }
    } else {
        Seq::empty()
    }
}

/// The children of node `i`, in sibling order.
pub open spec fn children(t: Seq<NodeView>, i: int) -> Seq<int> {
    chain(t, t[i].first_child, i)
}

/// Whether some child of node `p` carries `label`.
pub open spec fn has_child(t: Seq<NodeView>, p: int, label: Seq<char>) -> bool {
    exists|k: int| 0 <= k < children(t, p).len() && t[#[trigger] children(t, p)[k]].label == label
}

/// Every link points forward, to a later node of the tree.
pub open spec fn links_forward(t: Seq<NodeView>) -> bool {
    forall|i: int|
        0 <= i < t.len() ==> {
            &&& (#[trigger] t[i]).first_child matches Some(c) ==> i < c < t.len()
            &&& t[i].next_sibling matches Some(s) ==> i < s < t.len()
        }
}

/// No node is a child of two different nodes.
pub open spec fn children_disjoint(t: Seq<NodeView>) -> bool {
    forall|p: int, q: int, k: int, l: int|
        0 <= p < t.len() && 0 <= q < t.len() && p != q && 0 <= k < children(t, p).len() && 0 <= l
            < children(t, q).len() ==> #[trigger] children(t, p)[k] != #[trigger] children(t, q)[l]
}

/// Among the children of one node all labels differ.
pub open spec fn labels_distinct(t: Seq<NodeView>) -> bool {
    forall|p: int, k: int, l: int|
        0 <= p < t.len() && 0 <= k < l < children(t, p).len() ==> t[#[trigger] children(
            t,
            p,
        )[k]].label != t[#[trigger] children(t, p)[l]].label
}

/// Whether node `c` is a child of some earlier node.
pub open spec fn is_attached(t: Seq<NodeView>, c: int) -> bool {
    exists|p: int| 0 <= p < c && #[trigger] children(t, p).contains(c)
}

/// Every node but the first, the root, is a child of some earlier node.
pub open spec fn all_attached(t: Seq<NodeView>) -> bool {
    forall|c: int| 0 < c < t.len() ==> #[trigger] is_attached(t, c)
}

/// The invariant of the tree's representation. Together the four parts say
/// that the nodes form one tree under node 0: every other node has exactly
/// one parent, which comes before it.
pub open spec fn well_formed(t: Seq<NodeView>) -> bool {
    &&& links_forward(t)
    &&& children_disjoint(t)
    &&& labels_distinct(t)
    &&& all_attached(t)
}

/// Every node of a chain lies strictly between its bound and the tree's end.
pub proof fn lemma_chain_bounds(t: Seq<NodeView>, start: Option<usize>, bound: int)
    ensures
        forall|k: int|
            0 <= k < chain(t, start, bound).len() ==> bound < #[trigger] chain(t, start, bound)[k]
                < t.len(),
    decreases t.len() - bound,
{
    if let Some(c) = start {
        if bound < c < t.len() {
            let rest = chain(t, t[c as int].next_sibling, c as int);
            lemma_chain_bounds(t, t[c as int].next_sibling, c as int);
            assert forall|k: int| 0 <= k < chain(t, start, bound).len() implies bound
                < #[trigger] chain(t, start, bound)[k] < t.len() by {
                if k > 0 {
                    assert(chain(t, start, bound)[k] == rest[k - 1]);
                }
            }
        }
    }
}

/// A chain is the same in two trees that agree on the links of its nodes.
pub proof fn lemma_chain_frame(t: Seq<NodeView>, u: Seq<NodeView>, start: Option<usize>, bound: int)
    requires
        u.len() >= t.len(),
        start matches Some(c) ==> c < t.len(),
        links_forward(t),
        forall|k: int|
            0 <= k < chain(t, start, bound).len() ==> u[#[trigger] chain(
                t,
                start,
                bound,
            )[k]].next_sibling == t[chain(t, start, bound)[k]].next_sibling,
    ensures
        chain(u, start, bound) == chain(t, start, bound),
    decreases t.len() - bound,
{
    if let Some(c) = start {
        if bound < c < t.len() {
            let whole = chain(t, start, bound);
            let rest = chain(t, t[c as int].next_sibling, c as int);
            assert(whole[0] == c);
            assert forall|k: int| 0 <= k < rest.len() implies u[#[trigger] rest[k]].next_sibling
                == t[rest[k]].next_sibling by {
                assert(whole[k + 1] == rest[k]);
            }
            lemma_chain_frame(t, u, t[c as int].next_sibling, c as int);
        }
    }
}

/// Linking a fresh node behind the last node of a chain appends it to the chain.
pub proof fn lemma_chain_append(
    t: Seq<NodeView>,
    u: Seq<NodeView>,
    start: Option<usize>,
    bound: int,
    last: int,
    fresh: usize,
)
    requires
        links_forward(t),
        u.len() == t.len() + 1,
        fresh == t.len(),
        chain(t, start, bound).len() > 0,
        chain(t, start, bound).last() == last,
        0 <= last < t.len(),
        t[last].next_sibling is None,
        u[last].next_sibling == Some(fresh),
        u[fresh as int].next_sibling is None,
        forall|j: int| 0 <= j < t.len() && j != last ==> (#[trigger] u[j]).next_sibling == t[j].next_sibling,
    ensures
        chain(u, start, bound) == chain(t, start, bound).push(fresh as int),
    decreases t.len() - bound,
{
    let c = start->Some_0;
    if let Some(d) = t[c as int].next_sibling {
        assert(c != last);
        assert(u[c as int].next_sibling == Some(d));
        let rest = chain(t, Some(d), c as int);
        assert(rest.len() > 0);
        assert(chain(t, start, bound) == seq![c as int] + rest);
        assert(rest.last() == last);
        lemma_chain_append(t, u, Some(d), c as int, last, fresh);
        assert(chain(u, start, bound) == seq![c as int] + chain(u, Some(d), c as int));
        assert(seq![c as int] + rest.push(fresh as int) =~= (seq![c as int] + rest).push(
            fresh as int,
        ));
    } else {
        assert(chain(t, t[c as int].next_sibling, c as int) =~= Seq::<int>::empty());
        assert(chain(t, start, bound) =~= seq![c as int]);
        assert(c == last);
        assert(chain(u, None, fresh as int) =~= Seq::<int>::empty());
        assert(chain(u, Some(fresh), c as int) =~= seq![fresh as int]);
        assert(chain(u, start, bound) =~= seq![c as int, fresh as int]);
    }
}

/// What a node looks like right after it was created.
pub open spec fn fresh_node(label: Seq<char>) -> NodeView {
    NodeView { label, value: Measurement::zero(), first_child: None, next_sibling: None }
}

/// `u` is `t` with one new, childless node labelled `label`, appended as the
/// last child of `p`. Nothing else has changed.
pub open spec fn grown_under(t: Seq<NodeView>, u: Seq<NodeView>, p: int, label: Seq<char>) -> bool {
    &&& u.len() == t.len() + 1
    &&& u[t.len() as int].label == label
    &&& u[t.len() as int].value == Measurement::zero()
    &&& children(u, t.len() as int) == Seq::<int>::empty()
    &&& children(u, p) == children(t, p).push(t.len() as int)
    &&& forall|i: int|
        0 <= i < t.len() ==> (#[trigger] u[i]).label == t[i].label && u[i].value == t[i].value
    &&& forall|q: int| 0 <= q < t.len() && q != p ==> #[trigger] children(u, q) == children(t, q)
}

/// What `insert_child` does: `u` is the tree after the call on `t`, and `idx`
/// the handle it returned.
pub open spec fn child_inserted(
    t: Seq<NodeView>,
    u: Seq<NodeView>,
    parent: Option<Index>,
    label: Seq<char>,
    idx: Index,
) -> bool {
    match parent {
        None => idx.0 == 0 && u == seq![fresh_node(label)],
        Some(p) => if has_child(t, p.0 as int, label) {
            &&& u == t
            &&& children(t, p.0 as int).contains(idx.0 as int)
            &&& t[idx.0 as int].label == label
        } else {
            &&& idx.0 == t.len()
            &&& grown_under(t, u, p.0 as int, label)
        },
    }
}

/// The children of every node are real nodes of the tree.
pub proof fn lemma_children_in_tree(t: Seq<NodeView>)
    ensures
        forall|q: int, k: int|
            0 <= k < children(t, q).len() ==> q < #[trigger] children(t, q)[k] < t.len(),
{
    assert forall|q: int, k: int| 0 <= k < children(t, q).len() implies q < #[trigger] children(
        t,
        q,
    )[k] < t.len() by {
        lemma_chain_bounds(t, t[q].first_child, q);
    }
}

/// No node has two parents.
pub proof fn lemma_one_parent(t: Seq<NodeView>, p: int, q: int, c: int)
    requires
        well_formed(t),
        0 <= p < t.len(),
        0 <= q < t.len(),
        children(t, p).contains(c),
        children(t, q).contains(c),
    ensures
        p == q,
{
    let k = choose|k: int| 0 <= k < children(t, p).len() && children(t, p)[k] == c;
    let l = choose|l: int| 0 <= l < children(t, q).len() && children(t, q)[l] == c;
    assert(children(t, p)[k] == children(t, q)[l]);
}

/// Under one parent a label names at most one child.
pub proof fn lemma_one_child_per_label(t: Seq<NodeView>, p: int, a: int, b: int)
    requires
        well_formed(t),
        0 <= p < t.len(),
        children(t, p).contains(a),
        children(t, p).contains(b),
        t[a].label == t[b].label,
    ensures
        a == b,
{
    let k = choose|k: int| 0 <= k < children(t, p).len() && children(t, p)[k] == a;
    let l = choose|l: int| 0 <= l < children(t, p).len() && children(t, p)[l] == b;
    if k < l {
        assert(t[children(t, p)[k]].label != t[children(t, p)[l]].label);
    } else if l < k {
        assert(t[children(t, p)[l]].label != t[children(t, p)[k]].label);
    }
}

/// The tree stays well formed when a fresh node becomes the only child of `p`.
proof fn lemma_insert_first(
    t: Seq<NodeView>,
    u: Seq<NodeView>,
    p: int,
    fresh: usize,
    label: Seq<char>,
)
    requires
        well_formed(t),
        0 <= p < t.len(),
        fresh == t.len(),
        u.len() == t.len() + 1,
        t[p].first_child is None,
        u[p] == (NodeView { first_child: Some(fresh), ..t[p] }),
        forall|j: int| 0 <= j < t.len() && j != p ==> #[trigger] u[j] == t[j],
        u[fresh as int] == fresh_node(label),
    ensures
        well_formed(u),
        grown_under(t, u, p, label),
{
    lemma_children_in_tree(t);
    assert forall|q: int| 0 <= q < t.len() && q != p implies #[trigger] children(u, q) == children(
        t,
        q,
    ) by {
        let kids = children(t, q);
        assert forall|k: int| 0 <= k < kids.len() implies u[#[trigger] kids[k]].next_sibling
            == t[kids[k]].next_sibling by {
            assert(0 <= kids[k] < t.len());
        }
        assert(u[q].first_child == t[q].first_child);
        lemma_chain_frame(t, u, t[q].first_child, q);
    }
    assert(children(t, p) =~= Seq::<int>::empty());
    assert(chain(u, None, fresh as int) =~= Seq::<int>::empty());
    assert(children(u, p) =~= seq![fresh as int]);
    assert(children(u, p) =~= children(t, p).push(fresh as int));
    assert(children(u, fresh as int) =~= Seq::<int>::empty());
    lemma_grown_well_formed(t, u, p, fresh, label);
}

/// The tree stays well formed when a fresh node is linked behind `last`, the
/// last child of `p`, provided no child of `p` carries the new label.
proof fn lemma_insert_after(
    t: Seq<NodeView>,
    u: Seq<NodeView>,
    p: int,
    last: int,
    fresh: usize,
    label: Seq<char>,
)
    requires
        well_formed(t),
        0 <= p < t.len(),
        fresh == t.len(),
        u.len() == t.len() + 1,
        children(t, p).len() > 0,
        children(t, p).last() == last,
        t[last].next_sibling is None,
        u[last] == (NodeView { next_sibling: Some(fresh), ..t[last] }),
        forall|j: int| 0 <= j < t.len() && j != last ==> #[trigger] u[j] == t[j],
        u[fresh as int] == fresh_node(label),
        !has_child(t, p, label),
    ensures
        well_formed(u),
        grown_under(t, u, p, label),
{
    lemma_children_in_tree(t);
    assert(0 <= last < t.len()) by {
        assert(children(t, p)[children(t, p).len() - 1] == last);
    }
    assert forall|q: int| 0 <= q < t.len() && q != p implies #[trigger] children(u, q) == children(
        t,
        q,
    ) by {
        let kids = children(t, q);
        assert forall|k: int| 0 <= k < kids.len() implies u[#[trigger] kids[k]].next_sibling
            == t[kids[k]].next_sibling by {
            assert(kids[k] != children(t, p)[children(t, p).len() - 1]);
        }
        assert(u[q].first_child == t[q].first_child);
        lemma_chain_frame(t, u, t[q].first_child, q);
    }
    lemma_chain_append(t, u, t[p].first_child, p, last, fresh);
    assert(u[p].first_child == t[p].first_child);
    assert(children(u, fresh as int) =~= Seq::<int>::empty());
    lemma_grown_well_formed(t, u, p, fresh, label);
}

/// A tree grown by one labelled leaf is well formed if the label is new among
/// the children of its parent.
proof fn lemma_grown_well_formed(
    t: Seq<NodeView>,
    u: Seq<NodeView>,
    p: int,
    fresh: usize,
    label: Seq<char>,
)
    requires
        fresh == t.len(),
        well_formed(t),
        0 <= p < t.len(),
        !has_child(t, p, label),
        grown_under(t, u, p, label),
        forall|j: int|
            0 <= j < t.len() ==> {
                &&& (#[trigger] u[j]).first_child == t[j].first_child || u[j].first_child == Some(
                    fresh,
                )
                &&& u[j].next_sibling == t[j].next_sibling || u[j].next_sibling == Some(fresh)
            },
        u[fresh as int].first_child is None,
        u[fresh as int].next_sibling is None,
    ensures
        well_formed(u),
{
    let n = t.len() as int;
    lemma_children_in_tree(t);
    assert(links_forward(u)) by {
        assert forall|i: int| 0 <= i < u.len() implies {
            &&& (#[trigger] u[i]).first_child matches Some(c) ==> i < c < u.len()
            &&& u[i].next_sibling matches Some(s) ==> i < s < u.len()
        } by {
            if i < n {
                assert(t[i].first_child matches Some(c) ==> i < c < t.len());
            }
        }
    }
    let kids = children(t, p);
    assert forall|q: int, k: int| 0 <= q < u.len() && 0 <= k < children(u, q).len() implies (q != p
        ==> q < n && #[trigger] children(u, q)[k] == children(t, q)[k] && k < children(t, q).len())
        && (q == p ==> if k < kids.len() {
        children(u, q)[k] == kids[k]
    } else {
        children(u, q)[k] == n
    }) by {
        if q != p && q < n {
            assert(children(u, q) == children(t, q));
        }
    }
    assert(children_disjoint(u)) by {
        assert forall|a: int, b: int, k: int, l: int|
            0 <= a < u.len() && 0 <= b < u.len() && a != b && 0 <= k < children(u, a).len() && 0
                <= l < children(u, b).len() implies #[trigger] children(u, a)[k]
            != #[trigger] children(u, b)[l] by {
            let x = children(u, a)[k];
            let y = children(u, b)[l];
            if a == p {
                assert(y == children(t, b)[l]);
                if k < kids.len() {
                    assert(x == children(t, a)[k]);
                }
            } else if b == p {
                assert(x == children(t, a)[k]);
                if l < kids.len() {
                    assert(y == children(t, b)[l]);
                }
            } else {
                assert(x == children(t, a)[k]);
                assert(y == children(t, b)[l]);
            }
        }
    }
    assert(labels_distinct(u)) by {
        assert forall|a: int, k: int, l: int|
            0 <= a < u.len() && 0 <= k < l < children(u, a).len() implies u[#[trigger] children(
                u,
                a,
            )[k]].label != u[#[trigger] children(u, a)[l]].label by {
            let x = children(u, a)[k];
            let y = children(u, a)[l];
            if a == p {
                assert(x == kids[k]);
                if l < kids.len() {
                    assert(y == kids[l]);
                    assert(t[children(t, p)[k]].label != t[children(t, p)[l]].label);
                } else {
                    assert(t[children(t, p)[k]].label != label);
                }
            } else {
                assert(x == children(t, a)[k]);
                assert(y == children(t, a)[l]);
                assert(t[children(t, a)[k]].label != t[children(t, a)[l]].label);
            }
        }
    }
    assert(all_attached(u)) by {
        assert forall|c: int| 0 < c < u.len() implies #[trigger] is_attached(u, c) by {
            if c < n {
                assert(is_attached(t, c));
                let q = choose|q: int| 0 <= q < c && #[trigger] children(t, q).contains(c);
                let k = choose|k: int| 0 <= k < children(t, q).len() && children(t, q)[k] == c;
                if q == p {
                    assert(children(u, q)[k] == c);
                } else {
                    assert(children(u, q) == children(t, q));
                }
                assert(children(u, q).contains(c));
            } else {
                assert(children(u, p)[kids.len() as int] == n);
                assert(children(u, p).contains(c));
            }
        }
    }
}

/// The tree itself.
#[derive(Debug)]
pub struct VecTrie {
    nodes: Vec<Node>,
}

impl Node {
    spec fn model(self) -> NodeView {
        NodeView {
            label: self.key@,
            value: self.value,
            first_child: self.first_child,
            next_sibling: self.next_sibling,
        }
    }
}

impl View for VecTrie {
    type V = Seq<NodeView>;

    closed spec fn view(&self) -> Seq<NodeView> {
        Seq::new(self.nodes@.len(), |i: int| self.nodes@[i].model())
    }
}

impl VecTrie {
    /// The representation invariant: every constructor establishes it and
    /// every method keeps it.
    pub open spec fn wf(&self) -> bool {
        well_formed(self@)
    }

    /// Whether `idx` names a node of the tree as it is now.
    pub open spec fn valid(&self, idx: Index) -> bool {
        idx.0 < self@.len()
    }

    /// The number of nodes fits the machine's word.
    pub proof fn lemma_len_fits(&self)
        ensures
            self@.len() <= usize::MAX,
    {
        assert(self.nodes.len() == self.nodes@.len());
    }

    /// Construct a new empty trie.
    pub fn new() -> (trie: VecTrie)
        ensures
            trie@.len() == 0,
            trie.wf(),
    {
        VecTrie { nodes: Vec::new() }
    }

    /// The number of nodes.
    pub fn len(&self) -> (n: usize)
        ensures
            n == self@.len(),
    {
        self.nodes.len()
    }

    /// Whether the tree has no node, not even a root.
    pub fn is_empty(&self) -> (b: bool)
        ensures
            b == (self@.len() == 0),
    {
        self.nodes.len() == 0
    }

    /// Empty out the entire trie. Nothing will remain, and no handle issued
    /// before stays valid.
    pub fn clear(&mut self)
        ensures
            final(self)@.len() == 0,
            final(self).wf(),
            forall|idx: Index| !final(self).valid(idx),
    {
        self.nodes.clear();
    }

    /// View the root of the trie, if any. The [`Visitor`] will let you navigate
    /// to children as well.
    pub fn root(&self) -> (r: Option<Visitor<'_>>)
        ensures
            r is Some <==> self@.len() > 0,
            r matches Some(v) ==> v.trie == self && v.index == 0,
    {
        if self.nodes.len() > 0 {
            Some(Visitor { trie: self, index: 0 })
        } else {
            None
        }
    }

    /// Direct access to the measurement of a node. Whatever the caller writes
    /// there, the labels and the shape of the tree stay as they are.
    pub fn value_mut(&mut self, node_idx: Index) -> (value: &mut Measurement)
        requires
            old(self).valid(node_idx),
        ensures
            *value == old(self)@[node_idx.0 as int].value,
            final(self)@ == old(self)@.update(
                node_idx.0 as int,
                (NodeView { value: *final(value), ..old(self)@[node_idx.0 as int] }),
            ),
    {
        &mut self.nodes[node_idx.0].value
    }

    fn push_new_node(&mut self, key: String) -> (idx: usize)
        ensures
            idx == old(self)@.len(),
            final(self)@ == old(self)@.push(fresh_node(key@)),
    {
        let child = Node { key, value: Measurement::default(), first_child: None, next_sibling: None };
        self.nodes.push(child);
        assert(self@ =~= old(self)@.push(fresh_node(key@)));
        self.nodes.len() - 1
    }

    /// If `parent_idx` already has a child labelled `key`, return that child
    /// and change nothing. Otherwise append a new node, with a zero
    /// measurement, as the last child of `parent_idx`.
    ///
    /// Without a parent the new node is the root, so the tree must be empty.
    pub fn insert_child(&mut self, parent_idx: Option<Index>, key: String) -> (idx: Index)
        requires
            old(self).wf(),
            match parent_idx {
                Some(p) => old(self).valid(p),
                None => old(self)@.len() == 0,
            },
        ensures
            final(self).wf(),
            final(self).valid(idx),
            child_inserted(old(self)@, final(self)@, parent_idx, key@, idx),
    {
        let ghost t = self@;
        match parent_idx {
            Some(parent) => {
                let p = parent.0;
                proof {
                    lemma_children_in_tree(t);
                }
                match self.nodes[p].first_child {
                    Some(first) => {
                        let ghost kids = children(t, p as int);
                        let mut child_idx = first;
                        let ghost mut k: int = 0;
                        let ghost mut bound: int = p as int;
                        loop
                            invariant
                                self@ == t,
                                t == old(self)@,
                                parent_idx == Some(parent),
                                p == parent.0,
                                well_formed(t),
                                p < t.len(),
                                kids == children(t, p as int),
                                0 <= k < kids.len(),
                                forall|j: int| 0 <= j < kids.len() ==> 0 <= #[trigger] kids[j] < t.len(),
                                child_idx == kids[k],
                                bound < child_idx < t.len(),
                                chain(t, Some(child_idx), bound) == kids.skip(k),
                                forall|j: int| 0 <= j < k ==> t[#[trigger] kids[j]].label != key@,
                            ensures
                                t[child_idx as int].next_sibling is None,
                                t[child_idx as int].label != key@,
                            decreases t.len() - child_idx,
                        {
                            if self.nodes[child_idx].key == key {
                                proof {
                                    assert(t[children(t, p as int)[k]].label == key@);
                                    assert(has_child(t, p as int, key@));
                                    assert(kids[k] == child_idx);
                                    assert(kids.contains(child_idx as int));
                                }
                                return Index(child_idx);
                            }
                            proof {
                                assert(kids.skip(k) == seq![child_idx as int] + chain(
                                    t,
                                    t[child_idx as int].next_sibling,
                                    child_idx as int,
                                ));
                            }
                            match self.nodes[child_idx].next_sibling {
                                Some(next) => {
                                    proof {
                                        assert(t[child_idx as int].next_sibling == Some(next));
                                        let rest = chain(t, Some(next), child_idx as int);
                                        assert(rest.len() > 0);
                                        assert(kids.skip(k).len() == 1 + rest.len());
                                        assert(kids.skip(k + 1) =~= rest) by {
                                            assert forall|j: int| 0 <= j < rest.len() implies rest[j]
                                                == kids.skip(k + 1)[j] by {
                                                assert(kids.skip(k)[j + 1] == rest[j]);
                                            }
                                        }
                                        assert(rest[0] == next);
                                        bound = child_idx as int;
                                        k = k + 1;
                                    }
                                    child_idx = next;
                                },
                                None => {
                                    break ;
                                },
                            }
                        }
                        proof {
                            assert(chain(t, None, child_idx as int) =~= Seq::<int>::empty());
                            assert(kids.skip(k) =~= seq![child_idx as int]);
                            assert(kids.skip(k).len() == 1);
                            assert(k == kids.len() - 1);
                            assert(!has_child(t, p as int, key@));
                        }
                        let ghost label = key@;
                        let new_child_idx = self.push_new_node(key);
                        let ghost mid = *self;
                        assert(self.nodes@.len() == self@.len());
                        self.nodes[child_idx].next_sibling = Some(new_child_idx);
                        proof {
                            let u = self@;
                            assert(self.nodes@[child_idx as int].model() == (NodeView {
                                next_sibling: Some(new_child_idx),
                                ..mid.nodes@[child_idx as int].model()
                            }));
                            assert(mid@[child_idx as int] == t[child_idx as int]);
                            assert forall|j: int|
                                0 <= j < t.len() && j != child_idx implies #[trigger] u[j]
                                == t[j] by {
                                assert(self.nodes@[j] == mid.nodes@[j]);
                                assert(mid@[j] == t[j]);
                            }
                            assert(u[new_child_idx as int] == mid@[new_child_idx as int]);
                            lemma_insert_after(
                                t,
                                self@,
                                p as int,
                                child_idx as int,
                                new_child_idx,
                                label,
                            );
                        }
                        Index(new_child_idx)
                    },
                    None => {
                        let ghost label = key@;
                        let new_child_idx = self.push_new_node(key);
                        let ghost mid = *self;
                        assert(self.nodes@.len() == self@.len());
                        self.nodes[p].first_child = Some(new_child_idx);
                        proof {
                            let u = self@;
                            assert(self.nodes@[p as int].model() == (NodeView {
                                first_child: Some(new_child_idx),
                                ..mid.nodes@[p as int].model()
                            }));
                            assert(mid@[p as int] == t[p as int]);
                            assert forall|j: int|
                                0 <= j < t.len() && j != p implies #[trigger] u[j] == t[j] by {
                                assert(self.nodes@[j] == mid.nodes@[j]);
                                assert(mid@[j] == t[j]);
                            }
                            assert(u[new_child_idx as int] == mid@[new_child_idx as int]);
                            assert(children(t, p as int) =~= Seq::<int>::empty());
                            lemma_insert_first(t, self@, p as int, new_child_idx, label);
                        }
                        Index(new_child_idx)
                    },
                }
            },
            None => {
                let idx = self.push_new_node(key);
                proof {
                    let u = self@;
                    assert(u =~= seq![fresh_node(key@)]);
                    assert(children(u, 0) =~= Seq::<int>::empty());
                    assert(well_formed(u));
                }
                Index(idx)
            },
        }
    }
}

/// The same walk gives the same chain from every bound below its start.
pub proof fn lemma_chain_any_bound(t: Seq<NodeView>, c: usize, a: int, b: int)
    requires
        a < c,
        b < c,
    ensures
        chain(t, Some(c), a) == chain(t, Some(c), b),
{
}

/// Measurements have no part in the shape of the tree: two trees with the
/// same labels and links have the same children and are well formed together.
pub proof fn lemma_shape_only(t: Seq<NodeView>, u: Seq<NodeView>)
    requires
        t.len() == u.len(),
        forall|i: int|
            0 <= i < t.len() ==> (#[trigger] u[i]).label == t[i].label && u[i].first_child
                == t[i].first_child && u[i].next_sibling == t[i].next_sibling,
    ensures
        forall|q: int| 0 <= q < t.len() ==> #[trigger] children(u, q) == children(t, q),
        well_formed(t) ==> well_formed(u),
{
    assert forall|q: int| 0 <= q < t.len() implies #[trigger] children(u, q) == children(t, q) by {
        lemma_same_links_same_chain(t, u, t[q].first_child, q);
    }
    if well_formed(t) {
        lemma_children_in_tree(t);
        assert(links_forward(u)) by {
            assert forall|i: int| 0 <= i < u.len() implies {
                &&& (#[trigger] u[i]).first_child matches Some(c) ==> i < c < u.len()
                &&& u[i].next_sibling matches Some(s) ==> i < s < u.len()
            } by {
                assert(t[i].first_child == u[i].first_child);
            }
        }
        assert(children_disjoint(u)) by {
            assert forall|p: int, q: int, k: int, l: int|
                0 <= p < u.len() && 0 <= q < u.len() && p != q && 0 <= k < children(u, p).len()
                    && 0 <= l < children(u, q).len() implies #[trigger] children(u, p)[k]
                != #[trigger] children(u, q)[l] by {
                assert(children(t, p)[k] != children(t, q)[l]);
            }
        }
        assert(labels_distinct(u)) by {
            assert forall|p: int, k: int, l: int|
                0 <= p < u.len() && 0 <= k < l < children(u, p).len() implies u[#[trigger] children(
                    u,
                    p,
                )[k]].label != u[#[trigger] children(u, p)[l]].label by {
                assert(t[children(t, p)[k]].label != t[children(t, p)[l]].label);
            }
        }
        assert(all_attached(u)) by {
            assert forall|c: int| 0 < c < u.len() implies #[trigger] is_attached(u, c) by {
                assert(is_attached(t, c));
                let q = choose|q: int| 0 <= q < c && #[trigger] children(t, q).contains(c);
                assert(children(u, q) == children(t, q));
            }
        }
    }
}

proof fn lemma_same_links_same_chain(
    t: Seq<NodeView>,
    u: Seq<NodeView>,
    start: Option<usize>,
    bound: int,
)
    requires
        t.len() == u.len(),
        forall|i: int| 0 <= i < t.len() ==> (#[trigger] u[i]).next_sibling == t[i].next_sibling,
    ensures
        chain(u, start, bound) == chain(t, start, bound),
    decreases t.len() - bound,
{
    if let Some(c) = start {
        if bound < c < t.len() {
            assert(u[c as int].next_sibling == t[c as int].next_sibling);
            lemma_same_links_same_chain(t, u, t[c as int].next_sibling, c as int);
        }
    }
}

/// Lets you navigate the trie: a position in it.
pub struct Visitor<'a> {
    pub trie: &'a VecTrie,
    pub index: usize,
}

impl<'a> Visitor<'a> {
    /// The visitor stands on a node of a well-formed tree.
    pub open spec fn wf(&self) -> bool {
        self.trie.wf() && self.index < self.trie@.len()
    }

    /// The node the visitor stands on.
    pub open spec fn node(&self) -> NodeView {
        self.trie@[self.index as int]
    }

    /// The handle of the node the visitor stands on.
    pub fn handle(&self) -> (idx: Index)
        ensures
            idx.0 == self.index,
    {
        Index(self.index)
    }

    /// The label of the node.
    pub fn key(&self) -> (label: &'a String)
        requires
            self.wf(),
        ensures
            label@ == self.node().label,
    {
        &self.trie.nodes[self.index].key
    }

    /// The measurement of the node.
    pub fn value(&self) -> (value: &'a Measurement)
        requires
            self.wf(),
        ensures
            *value == self.node().value,
    {
        &self.trie.nodes[self.index].value
    }

    /// The children of the node, first to last.
    pub fn children(&self) -> (iter: VisitorIter<'a>)
        requires
            self.wf(),
        ensures
            iter.trie == self.trie,
            iter.wf(),
            iter.remaining() == children(self.trie@, self.index as int),
    {
        let first = self.trie.nodes[self.index].first_child;
        proof {
            let t = self.trie@;
            assert(t[self.index as int].first_child == first);
            if let Some(c) = first {
                lemma_chain_any_bound(t, c, self.index as int, c - 1);
            }
        }
        VisitorIter { trie: self.trie, index: first }
    }
}

/// A walk along the children of one node, handing out a [`Visitor`] for each.
pub struct VisitorIter<'a> {
    pub trie: &'a VecTrie,
    pub index: Option<usize>,
}

impl<'a> VisitorIter<'a> {
    /// The walk is inside a well-formed tree.
    pub open spec fn wf(&self) -> bool {
        &&& self.trie.wf()
        &&& self.index matches Some(c) ==> c < self.trie@.len()
    }

    /// The nodes still to come, in order.
    pub open spec fn remaining(&self) -> Seq<int> {
        match self.index {
            Some(c) => chain(self.trie@, Some(c), c - 1),
            None => Seq::empty(),
        }
    }

    /// Hand out the next child, if one is left, and step past it.
    pub fn next(&mut self) -> (r: Option<Visitor<'a>>)
        requires
            old(self).wf(),
        ensures
            final(self).wf(),
            final(self).trie == old(self).trie,
            match r {
                Some(v) => {
                    &&& old(self).remaining().len() > 0
                    &&& v.trie == old(self).trie
                    &&& v.index == old(self).remaining()[0]
                    &&& v.wf()
                    &&& final(self).remaining() == old(self).remaining().drop_first()
                },
                None => old(self).remaining().len() == 0 && final(self).index is None,
            },
    {
        if let Some(index) = self.index {
            let next = self.trie.nodes[index].next_sibling;
            proof {
                let t = self.trie@;
                assert(t[index as int].next_sibling == next);
                let rest = chain(t, next, index as int);
                assert(old(self).remaining() == seq![index as int] + rest);
                assert(old(self).remaining().drop_first() =~= rest);
                if let Some(d) = next {
                    lemma_chain_any_bound(t, d, index as int, d - 1);
                } else {
                    assert(rest =~= Seq::<int>::empty());
                }
            }
            self.index = next;
            Some(Visitor { trie: self.trie, index })
        } else {
            None
        }
    }
}

} // verus!
