//! What a trace leaves in the tree.
//!
//! A trace in progress is a sequence of events: a span opens, or the innermost
//! open span closes after some time. This module says what the tree holds
//! after any such sequence: for every call path, the node of that path has
//! counted the spans that were closed at exactly that path, and has summed
//! their times.

use crate::flamegraph::{
    is_path, lemma_call_path_names_one_node, lemma_path_prefix, recorded, span_closed,
    span_opened, tree_recorded, unwound, CompletedTrace,
};
use crate::serialize::trace_text;
use crate::vec_trie::{
    children, is_attached, lemma_children_in_tree, lemma_one_parent, lemma_shape_only,
    well_formed, Index, Measurement, NodeView,
};
use vstd::prelude::*;

verus! {

/// One step of a trace.
pub enum Event {
    /// A span with this label opens inside the innermost open span.
    Open(Seq<char>),
    /// The innermost open span closes, this many nanoseconds after it opened.
    Close(u128),
}

/// The labels of the spans that are open after `events`, outermost first:
/// the call path the program is in.
pub open spec fn open_labels(events: Seq<Event>) -> Seq<Seq<char>>
    decreases events.len(),
{
    if events.len() == 0 {
        Seq::empty()
    } else {
        let before = open_labels(events.drop_last());
        match events.last() {
            Event::Open(label) => before.push(label),
            Event::Close(_) => if before.len() > 0 {
                before.drop_last()
            } else {
                before
            },
        }
    }
}

/// How many spans were closed at call path `path` during `events`.
pub open spec fn completed(events: Seq<Event>, path: Seq<Seq<char>>) -> nat
    decreases events.len(),
{
    if events.len() == 0 {
        0
    } else {
        let before = events.drop_last();
        if events.last() is Close && open_labels(before) == path {
            completed(before, path) + 1
        } else {
            completed(before, path)
        }
    }
}

/// The time, summed, of the spans that were closed at call path `path` during
/// `events`.
pub open spec fn time_spent(events: Seq<Event>, path: Seq<Seq<char>>) -> nat
    decreases events.len(),
{
    if events.len() == 0 {
        0
    } else {
        let before = events.drop_last();
        match events.last() {
            Event::Close(elapsed) => if open_labels(before) == path {
                time_spent(before, path) + elapsed as nat
            } else {
                time_spent(before, path)
            },
            Event::Open(_) => time_spent(before, path),
        }
    }
}

/// What the node of call path `path` holds after `events`: the count and the
/// time of the spans closed there, each held at the largest value of its type
/// once it has got that far.
pub open spec fn tally(events: Seq<Event>, path: Seq<Seq<char>>) -> Measurement {
    Measurement {
        duration: if time_spent(events, path) > u128::MAX {
            u128::MAX
        } else {
            time_spent(events, path) as u128
        },
        num_invocations: if completed(events, path) > usize::MAX {
            usize::MAX
        } else {
            completed(events, path) as usize
        },
    }
}

/// The labels along a path of nodes.
pub open spec fn labels_of(t: Seq<NodeView>, path: Seq<int>) -> Seq<Seq<char>> {
    Seq::new(path.len(), |k: int| t[path[k]].label)
}

/// The node at the end of `path` holds the tally of its call path.
pub open spec fn tallied(events: Seq<Event>, t: Seq<NodeView>, path: Seq<int>) -> bool {
    t[path.last()].value == tally(events, labels_of(t, path))
}

/// Some path from the root carries the labels `labels`.
pub open spec fn has_path(t: Seq<NodeView>, labels: Seq<Seq<char>>) -> bool {
    exists|a: Seq<int>| is_path(t, a) && a.len() > 0 && #[trigger] labels_of(t, a) == labels
}

/// Tree and stack agree with the events that led to them: the open spans are
/// the call path the program is in, every node holds the tally of its call
/// path, and every call path at which a span was closed has its node.
pub open spec fn accounted(events: Seq<Event>, t: Seq<NodeView>, s: Seq<int>) -> bool {
    &&& labels_of(t, s) == open_labels(events)
    &&& forall|a: Seq<int>| is_path(t, a) && a.len() > 0 ==> #[trigger] tallied(events, t, a)
    &&& forall|l: Seq<Seq<char>>| completed(events, l) > 0 ==> #[trigger] has_path(t, l)
}

/// A state that a recorder can be in.
pub open spec fn recorder_state(t: Seq<NodeView>, s: Seq<int>) -> bool {
    &&& well_formed(t)
    &&& is_path(t, s)
    &&& t.len() <= usize::MAX
    &&& s.len() == 0 ==> t.len() == 0
}

/// Along a path the nodes come in the order of their creation.
pub proof fn lemma_path_ascends(t: Seq<NodeView>, a: Seq<int>, k: int)
    requires
        is_path(t, a),
        0 <= k < a.len(),
    ensures
        a[k] <= a.last(),
    decreases a.len() - k,
{
    if k < a.len() - 1 {
        lemma_children_in_tree(t);
        assert(children(t, a[k]).contains(a[k + 1]));
        let j = choose|j: int| 0 <= j < children(t, a[k]).len() && children(t, a[k])[j] == a[k + 1];
        assert(a[k] < children(t, a[k])[j]);
        lemma_path_ascends(t, a, k + 1);
    }
}

/// Only one path leads from the root to a node.
pub proof fn lemma_one_path_to_node(t: Seq<NodeView>, a: Seq<int>, b: Seq<int>)
    requires
        well_formed(t),
        is_path(t, a),
        is_path(t, b),
        a.len() > 0,
        b.len() > 0,
        a.last() == b.last(),
    ensures
        a == b,
    decreases a.len(),
{
    let n = a.len() - 1;
    let m = b.len() - 1;
    if n == 0 || m == 0 {
        lemma_path_ascends(t, a, 0);
        lemma_path_ascends(t, b, 0);
        lemma_children_in_tree(t);
        if n > 0 {
            let kids = children(t, a[n - 1]);
            assert(kids.contains(a[n]));
            let j = choose|j: int| 0 <= j < kids.len() && kids[j] == a[n];
            assert(a[n - 1] < children(t, a[n - 1])[j]);
            assert(0 <= a[n - 1]);
        }
        if m > 0 {
            let kids = children(t, b[m - 1]);
            assert(kids.contains(b[m]));
            let j = choose|j: int| 0 <= j < kids.len() && kids[j] == b[m];
            assert(b[m - 1] < children(t, b[m - 1])[j]);
            assert(0 <= b[m - 1]);
        }
        assert(a =~= b);
    } else {
        assert(children(t, a[n - 1]).contains(a[n]));
        assert(children(t, b[m - 1]).contains(b[m]));
        assert(0 <= a[n - 1] < t.len());
        assert(0 <= b[m - 1] < t.len());
        lemma_one_parent(t, a[n - 1], b[m - 1], a[n]);
        lemma_path_prefix(t, a);
        lemma_path_prefix(t, b);
        let a0 = a.drop_last();
        let b0 = b.drop_last();
        assert(a0.last() == a[n - 1]);
        assert(b0.last() == b[m - 1]);
        lemma_one_path_to_node(t, a0, b0);
        assert(a =~= a0.push(a[n]));
        assert(b =~= b0.push(b[m]));
    }
}

/// No time is spent at a call path at which no span was closed.
pub proof fn lemma_no_time_without_close(events: Seq<Event>, path: Seq<Seq<char>>)
    requires
        completed(events, path) == 0,
    ensures
        time_spent(events, path) == 0,
    decreases events.len(),
{
    if events.len() > 0 {
        lemma_no_time_without_close(events.drop_last(), path);
    }
}

/// Two paths with the same labels are the same path.
proof fn lemma_same_labels_same_path(t: Seq<NodeView>, a: Seq<int>, b: Seq<int>)
    requires
        well_formed(t),
        is_path(t, a),
        is_path(t, b),
        labels_of(t, a) == labels_of(t, b),
    ensures
        a == b,
{
    assert(labels_of(t, a).len() == a.len());
    assert(labels_of(t, b).len() == b.len());
    assert forall|k: int| 0 <= k < a.len() implies t[#[trigger] a[k]].label == t[b[k]].label by {
        assert(labels_of(t, a)[k] == t[a[k]].label);
        assert(labels_of(t, b)[k] == t[b[k]].label);
    }
    lemma_call_path_names_one_node(t, a, b);
}

/// Opening a span keeps tree and stack in agreement with the events.
pub proof fn lemma_open_keeps_account(
    events: Seq<Event>,
    t: Seq<NodeView>,
    s: Seq<int>,
    t1: Seq<NodeView>,
    s1: Seq<int>,
    label: Seq<char>,
    idx: Index,
)
    requires
        recorder_state(t, s),
        well_formed(t1),
        span_opened(t, s, t1, s1, label, idx),
        accounted(events, t, s),
    ensures
        accounted(events.push(Event::Open(label)), t1, s1),
{
    let after = events.push(Event::Open(label));
    assert(after.drop_last() =~= events);
    assert(after.last() == Event::Open(label));
    lemma_children_in_tree(t);
    lemma_children_in_tree(t1);
    let n = t.len() as int;
    let grew = t1.len() > t.len();
    if s.len() > 0 {
        assert(0 <= s.last() < t.len()) by {
            assert(0 <= s[s.len() - 1] < t.len());
        }
        assert(Index(s.last() as usize).0 == s.last());
    }
    // what the old nodes look like in the new tree
    assert forall|i: int| 0 <= i < t.len() implies (#[trigger] t1[i]).label == t[i].label
        && t1[i].value == t[i].value by {}
    assert forall|q: int, c: int| 0 <= q < t.len() && children(t, q).contains(c) implies children(
        t1,
        q,
    ).contains(c) by {
        let j = choose|j: int| 0 <= j < children(t, q).len() && children(t, q)[j] == c;
        if grew && s.len() > 0 {
            if q == s.last() {
                assert(children(t1, q)[j] == c);
            } else {
                assert(children(t1, q) == children(t, q));
            }
        }
    }
    assert forall|q: int, c: int|
        0 <= q < t.len() && 0 <= c < t.len() && children(t1, q).contains(c) implies children(
        t,
        q,
    ).contains(c) by {
        let j = choose|j: int| 0 <= j < children(t1, q).len() && children(t1, q)[j] == c;
        if grew && s.len() > 0 {
            if q == s.last() {
                assert(children(t1, q) == children(t, q).push(n));
                assert(j < children(t, q).len());
                assert(children(t, q)[j] == c);
            } else {
                assert(children(t1, q) == children(t, q));
            }
        }
    }
    // old paths stay, with their labels
    assert forall|b: Seq<int>| is_path(t, b) implies is_path(t1, b) && labels_of(t1, b)
        == labels_of(t, b) by {
        assert forall|k: int| 0 < k < b.len() implies children(t1, b[k - 1]).contains(
            #[trigger] b[k],
        ) by {
            assert(0 <= b[k - 1] < t.len());
            assert(children(t, b[k - 1]).contains(b[k]));
        }
        assert(labels_of(t1, b) =~= labels_of(t, b));
    }
    // the stack
    assert(labels_of(t1, s1) =~= labels_of(t, s).push(label)) by {
        assert(is_path(t1, s));
        assert(labels_of(t1, s) == labels_of(t, s));
        assert forall|k: int| 0 <= k < s1.len() implies labels_of(t1, s1)[k] == labels_of(
            t,
            s,
        ).push(label)[k] by {
            if k < s.len() {
                assert(s1[k] == s[k]);
                assert(labels_of(t1, s)[k] == t1[s[k]].label);
            }
        }
    }
    // every node holds its tally
    assert forall|a: Seq<int>| is_path(t1, a) && a.len() > 0 implies #[trigger] tallied(
        after,
        t1,
        a,
    ) by {
        let l = labels_of(t1, a);
        if a.last() < n {
            assert(is_path(t, a)) by {
                assert forall|k: int| 0 <= k < a.len() implies 0 <= #[trigger] a[k] < t.len() by {
                    lemma_path_ascends(t1, a, k);
                }
                assert forall|k: int| 0 < k < a.len() implies children(t, a[k - 1]).contains(
                    #[trigger] a[k],
                ) by {
                    assert(0 <= a[k - 1] < t.len());
                    assert(0 <= a[k] < t.len());
                    assert(children(t1, a[k - 1]).contains(a[k]));
                }
            }
            assert(tallied(events, t, a));
            assert(labels_of(t1, a) == labels_of(t, a));
        } else {
            assert(a.last() == n);
            assert(t1[n].value == Measurement::zero());
            if completed(events, l) > 0 {
                assert(has_path(t, l));
                let b = choose|b: Seq<int>|
                    is_path(t, b) && b.len() > 0 && #[trigger] labels_of(t, b) == l;
                assert(is_path(t1, b) && labels_of(t1, b) == labels_of(t, b));
                lemma_same_labels_same_path(t1, a, b);
                assert(0 <= b[b.len() - 1] < t.len());
            }
            lemma_no_time_without_close(events, l);
        }
    }
    // every call path with a closed span has its node
    assert forall|l: Seq<Seq<char>>| completed(after, l) > 0 implies #[trigger] has_path(
        t1,
        l,
    ) by {
        assert(completed(events, l) > 0);
        assert(has_path(t, l));
        let b = choose|b: Seq<int>| is_path(t, b) && b.len() > 0 && #[trigger] labels_of(t, b) == l;
        assert(is_path(t1, b) && labels_of(t1, b) == labels_of(t, b));
    }
}

/// Closing the innermost open span keeps tree and stack in agreement with the
/// events. This holds of the last span of a trace too: the tree that is
/// written out when the trace ends is the tree of this lemma.
pub proof fn lemma_close_keeps_account(
    events: Seq<Event>,
    t: Seq<NodeView>,
    s: Seq<int>,
    elapsed: u128,
)
    requires
        recorder_state(t, s),
        s.len() > 0,
        accounted(events, t, s),
    ensures
        accounted(
            events.push(Event::Close(elapsed)),
            tree_recorded(t, s.last(), elapsed),
            s.drop_last(),
        ),
{
    let after = events.push(Event::Close(elapsed));
    assert(after.drop_last() =~= events);
    assert(after.last() == Event::Close(elapsed));
    let top = s.last();
    let t1 = tree_recorded(t, top, elapsed);
    let s1 = s.drop_last();
    assert(s[s.len() - 1] == top);
    assert(0 <= top < t.len());
    lemma_shape_only(t, t1);
    lemma_shape_only(t1, t);
    assert(labels_of(t, s).len() == s.len());
    // paths and their labels are the same in both trees
    assert forall|b: Seq<int>| is_path(t, b) <==> is_path(t1, b) by {
        if is_path(t, b) {
            assert forall|k: int| 0 < k < b.len() implies children(t1, b[k - 1]).contains(
                #[trigger] b[k],
            ) by {
                assert(children(t1, b[k - 1]) == children(t, b[k - 1]));
            }
        }
        if is_path(t1, b) {
            assert forall|k: int| 0 < k < b.len() implies children(t, b[k - 1]).contains(
                #[trigger] b[k],
            ) by {
                assert(children(t1, b[k - 1]) == children(t, b[k - 1]));
            }
        }
    }
    assert forall|b: Seq<int>| is_path(t, b) implies labels_of(t1, b) == labels_of(t, b) by {
        assert(labels_of(t1, b) =~= labels_of(t, b));
    }
    // the stack
    lemma_path_prefix(t, s);
    assert(labels_of(t1, s1) =~= labels_of(t, s).drop_last());
    // every node holds its tally
    assert forall|a: Seq<int>| is_path(t1, a) && a.len() > 0 implies #[trigger] tallied(
        after,
        t1,
        a,
    ) by {
        assert(is_path(t, a));
        assert(tallied(events, t, a));
        let l = labels_of(t, a);
        assert(labels_of(t1, a) == l);
        assert(0 <= a[a.len() - 1] < t.len());
        if a.last() == top {
            lemma_one_path_to_node(t, a, s);
            assert(l == open_labels(events));
            assert(t1[top].value == recorded(t[top].value, elapsed));
        } else {
            if l == open_labels(events) {
                lemma_same_labels_same_path(t, a, s);
            }
            assert(t1[a.last()].value == t[a.last()].value);
        }
    }
    // every call path with a closed span has its node
    assert forall|l: Seq<Seq<char>>| completed(after, l) > 0 implies #[trigger] has_path(
        t1,
        l,
    ) by {
        if completed(events, l) > 0 {
            assert(has_path(t, l));
            let b = choose|b: Seq<int>|
                is_path(t, b) && b.len() > 0 && #[trigger] labels_of(t, b) == l;
            assert(is_path(t1, b) && labels_of(t1, b) == labels_of(t, b));
        } else {
            assert(l == open_labels(events));
            assert(is_path(t1, s) && labels_of(t1, s) == labels_of(t, s));
        }
    }
}

/// Tree and stack of a recorder at one moment.
pub struct Snapshot {
    pub tree: Seq<NodeView>,
    pub stack: Seq<int>,
}

/// `after` is what a recorder in state `before` comes to at `event`, with the
/// trace still going on afterwards.
pub open spec fn follows(before: Snapshot, event: Event, after: Snapshot) -> bool {
    &&& recorder_state(after.tree, after.stack)
    &&& after.stack.len() > 0
    &&& match event {
        Event::Open(label) => span_opened(
            before.tree,
            before.stack,
            after.tree,
            after.stack,
            label,
            Index(after.stack.last() as usize),
        ),
        Event::Close(elapsed) => before.stack.len() > 0 && span_closed(
            before.tree,
            before.stack,
            after.tree,
            after.stack,
            before.stack.last(),
            elapsed,
            None::<CompletedTrace>,
        ),
    }
}

/// `states` are the states a recorder goes through, from idle, at `events`.
pub open spec fn is_run(states: Seq<Snapshot>, events: Seq<Event>) -> bool {
    &&& states.len() == events.len() + 1
    &&& states[0].tree.len() == 0
    &&& states[0].stack.len() == 0
    &&& forall|k: int|
        0 <= k < events.len() ==> follows(states[k], #[trigger] events[k], states[k + 1])
}

/// After any sequence of spans opened and closed in nesting order, the tree
/// holds the call tree of the trace: the open spans are the call path the
/// program is in, and the node of every call path has counted the spans that
/// were closed at that path and summed their times.
pub proof fn lemma_trace_is_accounted(states: Seq<Snapshot>, events: Seq<Event>)
    requires
        is_run(states, events),
    ensures
        recorder_state(states.last().tree, states.last().stack),
        accounted(events, states.last().tree, states.last().stack),
    decreases events.len(),
{
    let n = events.len() as int;
    if n == 0 {
        let t = states[0].tree;
        let s = states[0].stack;
        assert(labels_of(t, s) =~= open_labels(events));
        assert(well_formed(t));
    } else {
        let states0 = states.drop_last();
        let events0 = events.drop_last();
        assert(is_run(states0, events0)) by {
            assert forall|k: int| 0 <= k < events0.len() implies follows(
                states0[k],
                #[trigger] events0[k],
                states0[k + 1],
            ) by {
                assert(events0[k] == events[k]);
                assert(follows(states[k], events[k], states[k + 1]));
            }
        }
        lemma_trace_is_accounted(states0, events0);
        let before = states[n - 1];
        let after = states[n];
        assert(states0.last() == before);
        assert(states.last() == after);
        assert(follows(before, events[n - 1], after));
        assert(events =~= events0.push(events[n - 1]));
        match events[n - 1] {
            Event::Open(label) => {
                let idx = Index(after.stack.last() as usize);
                lemma_open_keeps_account(
                    events0,
                    before.tree,
                    before.stack,
                    after.tree,
                    after.stack,
                    label,
                    idx,
                );
            },
            Event::Close(elapsed) => {
                let s = before.stack;
                assert(s[s.len() - 1] == s.last());
                assert(s.contains(s.last()));
                assert(unwound(s, s.last()) == s.drop_last());
                lemma_close_keeps_account(events0, before.tree, s, elapsed);
            },
        }
    }
}

/// Every node lies at the end of a path from the root, so every node is the
/// node of some call path.
pub proof fn lemma_every_node_has_path(t: Seq<NodeView>, i: int) -> (a: Seq<int>)
    requires
        well_formed(t),
        0 <= i < t.len(),
    ensures
        is_path(t, a),
        a.len() > 0,
        a.last() == i,
    decreases i,
{
    if i == 0 {
        seq![0int]
    } else {
        assert(is_attached(t, i));
        let p = choose|p: int| 0 <= p < i && #[trigger] children(t, p).contains(i);
        let a0 = lemma_every_node_has_path(t, p);
        let a = a0.push(i);
        assert forall|k: int| 0 < k < a.len() implies children(t, a[k - 1]).contains(
            #[trigger] a[k],
        ) by {
            if k < a0.len() {
                assert(a[k] == a0[k]);
                assert(a[k - 1] == a0[k - 1]);
            }
        }
        assert(a[0] == a0[0]);
        a
    }
}

/// More events take nothing away: at every call path the number of closed
/// spans and their summed time only grow.
pub proof fn lemma_tally_only_grows(events: Seq<Event>, event: Event, path: Seq<Seq<char>>)
    ensures
        completed(events.push(event), path) >= completed(events, path),
        time_spent(events.push(event), path) >= time_spent(events, path),
        tally(events.push(event), path).duration >= tally(events, path).duration,
        tally(events.push(event), path).num_invocations >= tally(events, path).num_invocations,
{
    assert(events.push(event).drop_last() =~= events);
}

/// When the outermost span of a trace is closed, what is handed out is the
/// text of a tree that agrees with all the events of the trace, the last
/// included.
pub proof fn lemma_report_is_accounted(
    states: Seq<Snapshot>,
    events: Seq<Event>,
    t1: Seq<NodeView>,
    s1: Seq<int>,
    elapsed: u128,
    r: Option<CompletedTrace>,
)
    requires
        is_run(states, events),
        states.last().stack.len() == 1,
        span_closed(states.last().tree, states.last().stack, t1, s1, 0, elapsed, r),
    ensures
        s1.len() == 0,
        t1.len() == 0,
        r is Some,
        accounted(
            events.push(Event::Close(elapsed)),
            tree_recorded(states.last().tree, 0, elapsed),
            s1,
        ),
        r->Some_0.text@ == trace_text(tree_recorded(states.last().tree, 0, elapsed)),
{
    lemma_trace_is_accounted(states, events);
    let t = states.last().tree;
    let s = states.last().stack;
    assert(s[0] == 0);
    assert(s.last() == 0);
    assert(s.contains(0));
    assert(unwound(s, 0) == s.drop_last());
    assert(s.drop_last() =~= Seq::<int>::empty());
    lemma_close_keeps_account(events, t, s, elapsed);
}

} // verus!
