//! Flame-graph input text.
//!
//! One line per node, depth first, children in sibling order. A line is the
//! path from the root to the node, each step written as `label (N calls)` and
//! the steps joined by `;`, then one space, the node's weight and a newline.
//! The weight is the node's self time in whole microseconds plus one, so that
//! a node that measured nothing still shows up in the rendered graph.

use crate::decimal::{decimal, write_decimal};
use crate::vec_trie::{children, lemma_children_in_tree, well_formed, NodeView, VecTrie, Visitor};
use vstd::prelude::*;
use vstd::string::*;

verus! {

/// The sum of the total durations of the nodes `kids`.
pub open spec fn seq_total(t: Seq<NodeView>, kids: Seq<int>) -> int
    decreases kids.len(),
{
    if kids.len() == 0 {
        0
    } else {
        t[kids[0]].value.duration + seq_total(t, kids.drop_first())
    }
}

/// Self time of node `i`, in nanoseconds: its total duration less the total
/// durations of its direct children. Negative where the children measured
/// more than the node, which happens only when spans were closed out of order.
pub open spec fn self_time(t: Seq<NodeView>, i: int) -> int {
    t[i].value.duration - seq_total(t, children(t, i))
}

/// Self time as it is written out: never below zero.
pub open spec fn billed_time(t: Seq<NodeView>, i: int) -> nat {
    if self_time(t, i) > 0 {
        self_time(t, i) as nat
    } else {
        0
    }
}

/// The number at the end of the line of node `i`.
pub open spec fn weight(t: Seq<NodeView>, i: int) -> nat {
    billed_time(t, i) / 1000 + 1
}

/// One step of a path: the label with its invocation count.
pub open spec fn entry_text(n: NodeView) -> Seq<char> {
    n.label + seq![' ', '('] + decimal(n.value.num_invocations as nat) + seq![
        ' ',
        'c',
        'a',
        'l',
        'l',
        's',
        ')',
    ]
}

/// The path of node `i`, given `prefix`, the path of its parent followed by
/// `;` (empty for the root).
pub open spec fn path_text(t: Seq<NodeView>, prefix: Seq<char>, i: int) -> Seq<char> {
    prefix + entry_text(t[i])
}

/// The line of node `i`.
pub open spec fn line_text(t: Seq<NodeView>, prefix: Seq<char>, i: int) -> Seq<char> {
    path_text(t, prefix, i) + seq![' '] + decimal(weight(t, i)) + seq!['\n']
}

/// The lines of node `i` and of everything below it.
pub open spec fn node_text(t: Seq<NodeView>, prefix: Seq<char>, i: int) -> Seq<char>
    decreases t.len() - i, 1int, 0int,
{
    if 0 <= i < t.len() {
        line_text(t, prefix, i) + forest_text(
            t,
            path_text(t, prefix, i) + seq![';'],
            children(t, i),
            i,
        )
    } else {
        Seq::empty()
    }
}

/// The lines of the subtrees rooted at `kids`, one subtree after the other.
/// Only nodes behind `bound` count; the children of `bound` all are.
pub open spec fn forest_text(t: Seq<NodeView>, prefix: Seq<char>, kids: Seq<int>, bound: int) -> Seq<
    char,
>
    decreases t.len() - bound, 0int, kids.len(),
{
    if kids.len() == 0 {
        Seq::empty()
    } else if bound < kids[0] < t.len() {
        node_text(t, prefix, kids[0]) + forest_text(t, prefix, kids.drop_first(), bound)
    } else {
        forest_text(t, prefix, kids.drop_first(), bound)
    }
}

/// The whole trace as text: the lines of the root's subtree.
pub open spec fn trace_text(t: Seq<NodeView>) -> Seq<char> {
    node_text(t, Seq::empty(), 0)
}

/// The self time of the node under `node`, in nanoseconds, or zero where its
/// children measured more than it did.
pub fn billed_self_time(node: &Visitor<'_>) -> (nanos: u128)
    requires
        node.wf(),
    ensures
        nanos == billed_time(node.trie@, node.index as int),
{
    let ghost t = node.trie@;
    let ghost kids = children(t, node.index as int);
    let total = node.value().duration;
    let mut left: u128 = total;
    let ghost mut seen: int = 0;
    let mut iter = node.children();
    loop
        invariant
            iter.wf(),
            iter.trie == node.trie,
            t == node.trie@,
            seen >= 0,
            seq_total(t, kids) == seen + seq_total(t, iter.remaining()),
            left == if total - seen > 0 {
                total - seen
            } else {
                0
            },
        ensures
            seq_total(t, kids) == seen,
        decreases iter.remaining().len(),
    {
        match iter.next() {
            Some(child) => {
                let spent = child.value().duration;
                left = if left >= spent {
                    left - spent
                } else {
                    0
                };
                proof {
                    seen = seen + spent;
                }
            },
            None => {
                break ;
            },
        }
    }
    left
}

/// Append the lines of the node under `node`, and of everything below it, to
/// `writer`. `prefix` is the path of the node's parent followed by `;`, or
/// empty for the root.
pub fn write_flame_graph_input(writer: &mut String, node: &Visitor<'_>, prefix: &str)
    requires
        node.wf(),
    ensures
        final(writer)@ == old(writer)@ + node_text(node.trie@, prefix@, node.index as int),
    decreases node.trie@.len() - node.index,
{
    let ghost t = node.trie@;
    let ghost i = node.index as int;
    proof {
        reveal_strlit(" (");
        reveal_strlit(" calls)");
        reveal_strlit(" ");
        reveal_strlit("\n");
        reveal_strlit(";");
        lemma_children_in_tree(t);
    }
    let mut path = String::from_str(prefix);
    path.append(node.key().as_str());
    path.append(" (");
    write_decimal(&mut path, node.value().num_invocations as u128);
    path.append(" calls)");
    assert(path@ =~= path_text(t, prefix@, i));
    let micros = billed_self_time(node) / 1000 + 1;
    writer.append(path.as_str());
    writer.append(" ");
    write_decimal(writer, micros);
    writer.append("\n");
    assert(writer@ =~= old(writer)@ + line_text(t, prefix@, i));
    path.append(";");
    let ghost below = path@;
    let ghost goal = old(writer)@ + node_text(t, prefix@, i);
    let mut iter = node.children();
    assert(below =~= path_text(t, prefix@, i) + seq![';']);
    assert(node_text(t, prefix@, i) == line_text(t, prefix@, i) + forest_text(
        t,
        below,
        children(t, i),
        i,
    ));
    assert(goal =~= writer@ + forest_text(t, below, iter.remaining(), i));
    loop
        invariant
            node.wf(),
            iter.wf(),
            iter.trie == node.trie,
            t == node.trie@,
            i == node.index,
            path@ == below,
            forall|k: int| 0 <= k < iter.remaining().len() ==> i < #[trigger] iter.remaining()[k] < t.len(),
            goal == writer@ + forest_text(t, below, iter.remaining(), i),
        ensures
            goal == writer@,
        decreases iter.remaining().len(),
    {
        let ghost before = writer@;
        let ghost pending = iter.remaining();
        match iter.next() {
            Some(child) => {
                assert(pending[0] == child.index);
                write_flame_graph_input(writer, &child, path.as_str());
                proof {
                    let rest = pending.drop_first();
                    assert forall|k: int| 0 <= k < rest.len() implies i < #[trigger] rest[k]
                        < t.len() by {
                        assert(rest[k] == pending[k + 1]);
                    }
                    assert(forest_text(t, below, pending, i) == node_text(t, below, pending[0])
                        + forest_text(t, below, rest, i));
                    assert(goal =~= writer@ + forest_text(t, below, rest, i));
                }
            },
            None => {
                assert(forest_text(t, below, pending, i) =~= Seq::<char>::empty());
                assert(goal =~= writer@);
                break ;
            },
        }
    }
}

/// The flame-graph input for a whole tree, or `None` for a tree without a root.
pub fn flame_graph_input(trie: &VecTrie) -> (text: Option<String>)
    requires
        trie.wf(),
    ensures
        text is Some <==> trie@.len() > 0,
        text matches Some(s) ==> s@ == trace_text(trie@),
{
    match trie.root() {
        None => None,
        Some(root) => {
            let mut text = String::new();
            write_flame_graph_input(&mut text, &root, "");
            proof {
                reveal_strlit("");
                assert(text@ =~= trace_text(trie@));
            }
            Some(text)
        },
    }
}

/// The self time of node `i` and of everything below it, summed.
pub open spec fn subtree_self_time(t: Seq<NodeView>, i: int) -> int
    decreases t.len() - i, 1int, 0int,
{
    if 0 <= i < t.len() {
        self_time(t, i) + forest_self_time(t, children(t, i), i)
    } else {
        0
    }
}

/// The self time of the subtrees rooted at `kids`, summed. Only nodes behind
/// `bound` count; the children of `bound` all are.
pub open spec fn forest_self_time(t: Seq<NodeView>, kids: Seq<int>, bound: int) -> int
    decreases t.len() - bound, 0int, kids.len(),
{
    if kids.len() == 0 {
        0
    } else if bound < kids[0] < t.len() {
        subtree_self_time(t, kids[0]) + forest_self_time(t, kids.drop_first(), bound)
    } else {
        forest_self_time(t, kids.drop_first(), bound)
    }
}

/// A node without children has all of its total duration as self time.
pub proof fn lemma_leaf_self_time(t: Seq<NodeView>, i: int)
    requires
        children(t, i).len() == 0,
    ensures
        self_time(t, i) == t[i].value.duration,
{
}

/// Self time is conserved: summed over a node and everything below it, it is
/// the node's total duration. For the root this is the whole trace: the self
/// times of all the nodes that are written out add up to the root's total.
pub proof fn lemma_self_time_conserved(t: Seq<NodeView>, i: int)
    requires
        0 <= i < t.len(),
    ensures
        subtree_self_time(t, i) == t[i].value.duration,
    decreases t.len() - i, 1int, 0int,
{
    lemma_children_in_tree(t);
    lemma_forest_self_time(t, children(t, i), i);
}

/// The subtrees rooted at nodes behind `bound` hold, as self time, the total
/// durations of their roots.
pub proof fn lemma_forest_self_time(t: Seq<NodeView>, kids: Seq<int>, bound: int)
    requires
        forall|k: int| 0 <= k < kids.len() ==> bound < #[trigger] kids[k] < t.len(),
        0 <= bound,
    ensures
        forest_self_time(t, kids, bound) == seq_total(t, kids),
    decreases t.len() - bound, 0int, kids.len(),
{
    if kids.len() > 0 {
        assert(bound < kids[0] < t.len());
        lemma_self_time_conserved(t, kids[0]);
        let rest = kids.drop_first();
        assert forall|k: int| 0 <= k < rest.len() implies bound < #[trigger] rest[k] < t.len() by {
            assert(rest[k] == kids[k + 1]);
        }
        lemma_forest_self_time(t, rest, bound);
    }
}

} // verus!
