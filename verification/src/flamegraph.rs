//! The live call stack and the spans that drive it.
//!
//! A [`FlameGraph`] owns the call tree of the trace in progress and a stack of
//! the spans that are open. Opening a span finds or creates the node for its
//! call path and pushes a frame; closing it pops down to that frame and adds
//! the elapsed time to the node. When the last span closes, the trace is
//! complete: its text is handed back and the tree is cleared.

use crate::serialize::{flame_graph_input, trace_text};
use crate::vec_trie::{
    child_inserted, children, lemma_one_child_per_label, lemma_shape_only, well_formed, Index,
    Measurement, NodeView, VecTrie,
};
use std::time::Instant;
use vstd::prelude::*;

verus! {

/// A reading of the monotonic clock. Nothing is known of it but that it can be
/// compared with a later reading.
#[verifier::external_type_specification]
#[verifier::external_body]
pub struct ExInstant(std::time::Instant);

/// Reads the clock: `std::time::Instant::now`. Nothing is claimed of the
/// reading.
#[verifier::external_body]
fn clock_now() -> (now: Instant) {
    Instant::now()
}

/// The nanoseconds that have passed since `start`: `Instant::elapsed`, as a
/// number. Nothing is claimed of the number; it depends on the clock.
#[verifier::external_body]
fn nanos_since(start: &Instant) -> (nanos: u128) {
    start.elapsed().as_nanos()
}

/// One open span: the node it is measured into and when it began.
#[derive(Debug)]
pub struct StackFrame {
    pub index: Index,
    pub start: Instant,
}

/// What a finished trace hands to whoever consumes it.
#[derive(Debug)]
pub struct CompletedTrace {
    /// The label of the outermost span.
    pub root: String,
    /// The total duration of the outermost span, in nanoseconds.
    pub total: u128,
    /// The flame-graph input text of the whole tree.
    pub text: String,
}

/// A measurement after one more completed invocation that took `elapsed`
/// nanoseconds. Both sums stop at the largest value their type holds.
pub open spec fn recorded(m: Measurement, elapsed: u128) -> Measurement {
    Measurement {
        duration: if m.duration + elapsed > u128::MAX {
            u128::MAX
        } else {
            (m.duration + elapsed) as u128
        },
        num_invocations: if m.num_invocations == usize::MAX {
            usize::MAX
        } else {
            (m.num_invocations + 1) as usize
        },
    }
}

/// The tree after an invocation of node `i` that took `elapsed` was recorded.
pub open spec fn tree_recorded(t: Seq<NodeView>, i: int, elapsed: u128) -> Seq<NodeView> {
    t.update(i, NodeView { value: recorded(t[i].value, elapsed), ..t[i] })
}

/// The stack after popping down to, and including, the topmost frame of node
/// `index`. If no frame is of that node, everything is popped.
pub open spec fn unwound(stack: Seq<int>, index: int) -> Seq<int>
    decreases stack.len(),
{
    if stack.len() == 0 {
        stack
    } else if stack.last() == index {
        stack.drop_last()
    } else {
        unwound(stack.drop_last(), index)
    }
}

/// `path` leads from the root down the tree, each node a child of the one
/// before it.
pub open spec fn is_path(t: Seq<NodeView>, path: Seq<int>) -> bool {
    &&& path.len() > 0 ==> path[0] == 0
    &&& forall|k: int| 0 <= k < path.len() ==> 0 <= #[trigger] path[k] < t.len()
    &&& forall|k: int|
        0 < k < path.len() ==> children(t, path[k - 1]).contains(#[trigger] path[k])
}

/// What opening a span labelled `label` does to tree and stack.
pub open spec fn span_opened(
    t0: Seq<NodeView>,
    s0: Seq<int>,
    t1: Seq<NodeView>,
    s1: Seq<int>,
    label: Seq<char>,
    idx: Index,
) -> bool {
    &&& s1 == s0.push(idx.0 as int)
    &&& child_inserted(
        t0,
        t1,
        if s0.len() == 0 {
            None
        } else {
            Some(Index(s0.last() as usize))
        },
        label,
        idx,
    )
}

/// The tree of a trace just before the stack was found empty, given that the
/// span of node `index` was closed after `elapsed` nanoseconds.
pub open spec fn tree_closed(t0: Seq<NodeView>, s0: Seq<int>, index: int, elapsed: u128) -> Seq<
    NodeView,
> {
    if s0.contains(index) {
        tree_recorded(t0, index, elapsed)
    } else {
        t0
    }
}

/// Whether `r` is what the finished tree `t` hands out.
pub open spec fn reports(r: Option<CompletedTrace>, t: Seq<NodeView>) -> bool {
    &&& r is Some <==> t.len() > 0
    &&& r matches Some(c) ==> {
        &&& c.root@ == t[0].label
        &&& c.total == t[0].value.duration
        &&& c.text@ == trace_text(t)
    }
}

/// What closing the span of node `index` after `elapsed` nanoseconds does.
pub open spec fn span_closed(
    t0: Seq<NodeView>,
    s0: Seq<int>,
    t1: Seq<NodeView>,
    s1: Seq<int>,
    index: int,
    elapsed: u128,
    r: Option<CompletedTrace>,
) -> bool {
    let t = tree_closed(t0, s0, index, elapsed);
    &&& s1 == unwound(s0, index)
    &&& if s1.len() == 0 {
        t1.len() == 0 && reports(r, t)
    } else {
        t1 == t && r is None
    }
}

/// Store of the flame graph data of one thread of execution.
#[derive(Debug)]
pub struct FlameGraph {
    trie: VecTrie,
    stack: Vec<StackFrame>,
}

impl FlameGraph {
    /// The call tree of the trace in progress.
    pub closed spec fn tree(&self) -> Seq<NodeView> {
        self.trie@
    }

    /// The nodes of the open spans, outermost first.
    pub closed spec fn open_spans(&self) -> Seq<int> {
        Seq::new(self.stack@.len(), |k: int| self.stack@[k].index.0 as int)
    }

    /// When each of the open spans began, outermost first.
    pub closed spec fn open_starts(&self) -> Seq<Instant> {
        Seq::new(self.stack@.len(), |k: int| self.stack@[k].start)
    }

    spec fn recording(&self) -> bool {
        &&& well_formed(self.tree())
        &&& is_path(self.tree(), self.open_spans())
    }

    /// The invariant: the tree is well formed, the open spans are a path from
    /// its root, and with no span open the tree is empty.
    pub open spec fn wf(&self) -> bool {
        &&& well_formed(self.tree())
        &&& is_path(self.tree(), self.open_spans())
        &&& self.open_spans().len() == 0 ==> self.tree().len() == 0
    }

    /// The number of nodes fits the machine's word.
    pub proof fn lemma_tree_fits(&self)
        ensures
            self.tree().len() <= usize::MAX,
    {
        self.trie.lemma_len_fits();
    }

    /// An idle recorder: no span open, no tree.
    pub fn new() -> (graph: FlameGraph)
        ensures
            graph.wf(),
            graph.tree().len() == 0,
            graph.open_spans().len() == 0,
    {
        FlameGraph { trie: VecTrie::new(), stack: Vec::new() }
    }

    /// The number of spans that are open.
    pub fn depth(&self) -> (n: usize)
        ensures
            n == self.open_spans().len(),
    {
        self.stack.len()
    }

    /// The tree of the trace in progress.
    pub fn trie(&self) -> (trie: &VecTrie)
        ensures
            trie@ == self.tree(),
    {
        &self.trie
    }

    /// Open a span at `call_site`, beginning now. The node is the child of the
    /// innermost open span that carries this label, created if there is none;
    /// with no span open it is the root of a new trace.
    pub fn push_call(&mut self, call_site: &'static str) -> (idx: Index)
        requires
            old(self).wf(),
        ensures
            final(self).wf(),
            span_opened(
                old(self).tree(),
                old(self).open_spans(),
                final(self).tree(),
                final(self).open_spans(),
                call_site@,
                idx,
            ),
            final(self).open_starts().drop_last() == old(self).open_starts(),
    {
        let start = clock_now();
        let idx = self.push_call_at(call_site, start);
        assert(self.open_starts().drop_last() =~= old(self).open_starts());
        idx
    }

    /// Open a span at `call_site` that began at `start`.
    pub fn push_call_at(&mut self, call_site: &str, start: Instant) -> (idx: Index)
        requires
            old(self).wf(),
        ensures
            final(self).wf(),
            span_opened(
                old(self).tree(),
                old(self).open_spans(),
                final(self).tree(),
                final(self).open_spans(),
                call_site@,
                idx,
            ),
            final(self).open_starts() == old(self).open_starts().push(start),
    {
        let ghost t0 = self.tree();
        let ghost s0 = self.open_spans();
        let depth = self.stack.len();
        let parent = if depth > 0 {
            Some(self.stack[depth - 1].index)
        } else {
            None
        };
        proof {
            if depth > 0 {
                assert(s0[depth - 1] == self.stack@[depth - 1].index.0);
                assert(parent == Some(Index(s0.last() as usize)));
            }
        }
        let child = self.trie.insert_child(parent, call_site.to_owned());
        self.stack.push(StackFrame { index: child, start });
        proof {
            let t1 = self.tree();
            let s1 = self.open_spans();
            assert(s1 =~= s0.push(child.0 as int));
            assert(self.open_starts() =~= old(self).open_starts().push(start));
            old(self).trie.lemma_len_fits();
            lemma_path_grows(t0, s0, t1, call_site@, child);
        }
        child
    }

    /// Pops frames until one of node `index` has been popped, or none is left.
    fn unwind(&mut self, index: Index) -> (found: Option<StackFrame>)
        requires
            old(self).recording(),
        ensures
            final(self).recording(),
            final(self).tree() == old(self).tree(),
            final(self).open_spans() == unwound(old(self).open_spans(), index.0 as int),
            final(self).open_starts() == old(self).open_starts().take(
                final(self).open_spans().len() as int,
            ),
            found is Some <==> old(self).open_spans().contains(index.0 as int),
            found is Some ==> index.0 < old(self).tree().len(),
    {
        let ghost s0 = self.open_spans();
        let ghost starts = self.open_starts();
        let ghost t = self.tree();
        let mut found: Option<StackFrame> = None;
        assert(starts =~= starts.take(s0.len() as int));
        loop
            invariant_except_break
                found is None,
                unwound(s0, index.0 as int) == unwound(self.open_spans(), index.0 as int),
                s0.contains(index.0 as int) <==> self.open_spans().contains(index.0 as int),
            invariant
                self.tree() == t,
                is_path(t, s0),
                self.open_spans().len() <= s0.len(),
                s0.len() == starts.len(),
                self.open_spans() == s0.take(self.open_spans().len() as int),
                self.open_starts() == starts.take(self.open_spans().len() as int),
            ensures
                self.tree() == t,
                self.open_spans().len() <= s0.len(),
                self.open_spans() == s0.take(self.open_spans().len() as int),
                self.open_starts() == starts.take(self.open_spans().len() as int),
                self.open_spans() == unwound(s0, index.0 as int),
                found is Some <==> s0.contains(index.0 as int),
                found is Some ==> index.0 < t.len(),
            decreases self.open_spans().len(),
        {
            let ghost before = self.open_spans();
            match self.stack.pop() {
                Some(frame) => {
                    proof {
                        let now = self.open_spans();
                        assert(now =~= before.drop_last());
                        assert(before.last() == frame.index.0);
                        assert(now =~= s0.take(now.len() as int));
                        assert(self.open_starts() =~= starts.take(now.len() as int));
                        assert(before.contains(index.0 as int) <==> before.last() == index.0
                            || now.contains(index.0 as int)) by {
                            if before.contains(index.0 as int) {
                                let k = choose|k: int|
                                    0 <= k < before.len() && before[k] == index.0 as int;
                                if k < now.len() {
                                    assert(now[k] == index.0 as int);
                                }
                            }
                            if now.contains(index.0 as int) {
                                let k = choose|k: int|
                                    0 <= k < now.len() && now[k] == index.0 as int;
                                assert(before[k] == index.0 as int);
                            }
                            if before.last() == index.0 {
                                assert(before[before.len() - 1] == index.0 as int);
                            }
                        }
                    }
                    if frame.index == index {
                        proof {
                            assert(s0[before.len() - 1] == before[before.len() - 1]);
                        }
                        found = Some(frame);
                        break ;
                    }
                },
                None => {
                    proof {
                        assert(before.len() == 0);
                        assert(!before.contains(index.0 as int));
                    }
                    break ;
                },
            }
        }
        proof {
            let s1 = self.open_spans();
            assert forall|k: int| 0 < k < s1.len() implies children(t, s1[k - 1]).contains(
                #[trigger] s1[k],
            ) by {
                assert(s1[k] == s0[k]);
                assert(s1[k - 1] == s0[k - 1]);
            }
            assert forall|k: int| 0 <= k < s1.len() implies 0 <= #[trigger] s1[k] < t.len() by {
                assert(s1[k] == s0[k]);
            }
            if s1.len() > 0 {
                assert(s1[0] == s0[0]);
            }
        }
        found
    }

    /// Adds one invocation of `elapsed` nanoseconds to node `index`.
    fn record(&mut self, index: Index, elapsed: u128)
        requires
            old(self).recording(),
            index.0 < old(self).tree().len(),
        ensures
            final(self).recording(),
            final(self).open_spans() == old(self).open_spans(),
            final(self).open_starts() == old(self).open_starts(),
            final(self).tree() == tree_recorded(old(self).tree(), index.0 as int, elapsed),
    {
        let ghost t0 = self.tree();
        let value = self.trie.value_mut(index);
        value.duration = if u128::MAX - value.duration >= elapsed {
            value.duration + elapsed
        } else {
            u128::MAX
        };
        value.num_invocations = if value.num_invocations < usize::MAX {
            value.num_invocations + 1
        } else {
            usize::MAX
        };
        proof {
            let t1 = self.tree();
            assert(t1 =~= tree_recorded(t0, index.0 as int, elapsed));
            lemma_shape_only(t0, t1);
            lemma_path_kept(t0, t1, self.open_spans());
        }
    }

    /// If no span is left open, hands out the finished trace and clears the
    /// tree.
    fn settle(&mut self) -> (r: Option<CompletedTrace>)
        requires
            old(self).recording(),
        ensures
            final(self).wf(),
            final(self).open_spans() == old(self).open_spans(),
            final(self).open_starts() == old(self).open_starts(),
            if old(self).open_spans().len() == 0 {
                final(self).tree().len() == 0 && reports(r, old(self).tree())
            } else {
                final(self).tree() == old(self).tree() && r is None
            },
    {
        if self.stack.len() == 0 {
            let report = match self.trie.root() {
                None => None,
                Some(root) => {
                    let label = root.key().clone();
                    let total = root.value().duration;
                    match flame_graph_input(&self.trie) {
                        Some(text) => Some(CompletedTrace { root: label, total, text }),
                        None => None,
                    }
                },
            };
            self.trie.clear();
            report
        } else {
            None
        }
    }

    /// Close the span of node `index`, measured by the clock: frames are
    /// popped until one of that node has been popped, and the time since that
    /// frame began is added to the node. Frames popped on the way record
    /// nothing, and if no frame is of that node the whole stack is dropped.
    /// When no span is left open the finished trace is returned, if the tree
    /// has a root, and the tree is cleared.
    pub fn pop_call(&mut self, index: Index) -> (r: Option<CompletedTrace>)
        requires
            old(self).wf(),
        ensures
            final(self).wf(),
            exists|elapsed: u128|
                span_closed(
                    old(self).tree(),
                    old(self).open_spans(),
                    final(self).tree(),
                    final(self).open_spans(),
                    index.0 as int,
                    elapsed,
                    r,
                ),
            final(self).open_starts() == old(self).open_starts().take(
                final(self).open_spans().len() as int,
            ),
    {
        let found = self.unwind(index);
        let elapsed = match &found {
            Some(frame) => nanos_since(&frame.start),
            None => 0,
        };
        if found.is_some() {
            self.record(index, elapsed);
        }
        let r = self.settle();
        proof {
            assert(span_closed(
                old(self).tree(),
                old(self).open_spans(),
                self.tree(),
                self.open_spans(),
                index.0 as int,
                elapsed,
                r,
            ));
        }
        r
    }

    /// Close the span of node `index`, which took `elapsed` nanoseconds. As
    /// [`FlameGraph::pop_call`], with the time given instead of measured.
    pub fn pop_call_after(&mut self, index: Index, elapsed: u128) -> (r: Option<CompletedTrace>)
        requires
            old(self).wf(),
        ensures
            final(self).wf(),
            span_closed(
                old(self).tree(),
                old(self).open_spans(),
                final(self).tree(),
                final(self).open_spans(),
                index.0 as int,
                elapsed,
                r,
            ),
            final(self).open_starts() == old(self).open_starts().take(
                final(self).open_spans().len() as int,
            ),
    {
        let found = self.unwind(index);
        if found.is_some() {
            self.record(index, elapsed);
        }
        self.settle()
    }
}

/// A path without its last node is a path.
pub proof fn lemma_path_prefix(t: Seq<NodeView>, a: Seq<int>)
    requires
        is_path(t, a),
        a.len() > 0,
    ensures
        is_path(t, a.drop_last()),
{
    let a0 = a.drop_last();
    assert forall|k: int| 0 < k < a0.len() implies children(t, a0[k - 1]).contains(
        #[trigger] a0[k],
    ) by {
        assert(a0[k] == a[k]);
        assert(a0[k - 1] == a[k - 1]);
    }
    assert forall|k: int| 0 <= k < a0.len() implies 0 <= #[trigger] a0[k] < t.len() by {
        assert(a0[k] == a[k]);
    }
    if a0.len() > 0 {
        assert(a0[0] == a[0]);
    }
}

/// A call path names at most one node: two paths from the root whose nodes
/// carry the same labels, step by step, are the same path. So the node of a
/// span is decided by the labels of the spans around it and its own.
pub proof fn lemma_call_path_names_one_node(t: Seq<NodeView>, a: Seq<int>, b: Seq<int>)
    requires
        well_formed(t),
        is_path(t, a),
        is_path(t, b),
        a.len() == b.len(),
        forall|k: int| 0 <= k < a.len() ==> t[#[trigger] a[k]].label == t[b[k]].label,
    ensures
        a == b,
    decreases a.len(),
{
    if a.len() > 0 {
        let a0 = a.drop_last();
        let b0 = b.drop_last();
        lemma_path_prefix(t, a);
        lemma_path_prefix(t, b);
        assert forall|k: int| 0 <= k < a0.len() implies t[#[trigger] a0[k]].label
            == t[b0[k]].label by {
            assert(a0[k] == a[k]);
            assert(b0[k] == b[k]);
        }
        lemma_call_path_names_one_node(t, a0, b0);
        let n = a.len() - 1;
        if n > 0 {
            assert(a[n - 1] == a0[n - 1]);
            assert(b[n - 1] == b0[n - 1]);
            assert(children(t, a[n - 1]).contains(a[n]));
            assert(children(t, b[n - 1]).contains(b[n]));
            assert(t[a[n]].label == t[b[n]].label);
            lemma_one_child_per_label(t, a[n - 1], a[n], b[n]);
        }
        assert(a[n] == b[n]);
        assert(a =~= a0.push(a[n]));
        assert(b =~= b0.push(b[n]));
    }
}

/// Opening a span changes no measurement: every node that was there keeps
/// its value, and a node that was created starts at zero.
pub proof fn lemma_opening_measures_nothing(
    t0: Seq<NodeView>,
    s0: Seq<int>,
    t1: Seq<NodeView>,
    s1: Seq<int>,
    label: Seq<char>,
    idx: Index,
)
    requires
        is_path(t0, s0),
        s0.len() == 0 ==> t0.len() == 0,
        span_opened(t0, s0, t1, s1, label, idx),
    ensures
        t0.len() <= t1.len() <= t0.len() + 1,
        forall|i: int| 0 <= i < t0.len() ==> (#[trigger] t1[i]).value == t0[i].value,
        forall|i: int| t0.len() <= i < t1.len() ==> (#[trigger] t1[i]).value == Measurement::zero(),
        t1[idx.0 as int].label == label,
{
}

/// While a trace goes on, closing a span takes nothing away: no node's total
/// duration or invocation count gets smaller, and only the node that was
/// closed can change.
pub proof fn lemma_totals_never_shrink(
    t0: Seq<NodeView>,
    s0: Seq<int>,
    t1: Seq<NodeView>,
    s1: Seq<int>,
    index: int,
    elapsed: u128,
    r: Option<CompletedTrace>,
)
    requires
        is_path(t0, s0),
        span_closed(t0, s0, t1, s1, index, elapsed, r),
        s1.len() > 0,
    ensures
        t1.len() == t0.len(),
        forall|i: int|
            0 <= i < t0.len() ==> {
                &&& (#[trigger] t1[i]).value.duration >= t0[i].value.duration
                &&& t1[i].value.num_invocations >= t0[i].value.num_invocations
                &&& t1[i].label == t0[i].label
            },
        forall|i: int| 0 <= i < t0.len() && i != index ==> (#[trigger] t1[i]).value == t0[i].value,
{
    if s0.contains(index) {
        let k = choose|k: int| 0 <= k < s0.len() && s0[k] == index;
        assert(0 <= s0[k] < t0.len());
    }
}

/// A completed invocation counts once and adds its elapsed time: as long as
/// neither sum has reached the largest value of its type, the node that was
/// closed has one invocation more and `elapsed` nanoseconds more than before.
pub proof fn lemma_closing_adds_up(
    t0: Seq<NodeView>,
    s0: Seq<int>,
    t1: Seq<NodeView>,
    s1: Seq<int>,
    index: int,
    elapsed: u128,
    r: Option<CompletedTrace>,
)
    requires
        is_path(t0, s0),
        span_closed(t0, s0, t1, s1, index, elapsed, r),
        s1.len() > 0,
        s0.contains(index),
        t0[index].value.duration + elapsed <= u128::MAX,
        t0[index].value.num_invocations < usize::MAX,
    ensures
        t1[index].value.duration == t0[index].value.duration + elapsed,
        t1[index].value.num_invocations == t0[index].value.num_invocations + 1,
{
    let k = choose|k: int| 0 <= k < s0.len() && s0[k] == index;
    assert(0 <= s0[k] < t0.len());
}

/// When the last open span is closed the tree is empty afterwards, and no
/// handle names a node of it any more.
pub proof fn lemma_trace_end_clears(
    t0: Seq<NodeView>,
    s0: Seq<int>,
    t1: Seq<NodeView>,
    s1: Seq<int>,
    index: int,
    elapsed: u128,
    r: Option<CompletedTrace>,
)
    requires
        is_path(t0, s0),
        span_closed(t0, s0, t1, s1, index, elapsed, r),
        s1.len() == 0,
    ensures
        t1.len() == 0,
        forall|idx: Index| !(idx.0 < t1.len()),
        r is Some <==> t0.len() > 0,
{
    if s0.contains(index) {
        let k = choose|k: int| 0 <= k < s0.len() && s0[k] == index;
        assert(0 <= s0[k] < t0.len());
    }
    assert(tree_closed(t0, s0, index, elapsed).len() == t0.len());
}

/// A path stays a path when the tree only changes in its measurements.
proof fn lemma_path_kept(t0: Seq<NodeView>, t1: Seq<NodeView>, path: Seq<int>)
    requires
        is_path(t0, path),
        t0.len() == t1.len(),
        forall|q: int| 0 <= q < t0.len() ==> #[trigger] children(t1, q) == children(t0, q),
    ensures
        is_path(t1, path),
{
    assert forall|k: int| 0 < k < path.len() implies children(t1, path[k - 1]).contains(
        #[trigger] path[k],
    ) by {
        assert(children(t1, path[k - 1]) == children(t0, path[k - 1]));
    }
}

/// The open spans with the new span on top are again a path from the root.
proof fn lemma_path_grows(
    t0: Seq<NodeView>,
    s0: Seq<int>,
    t1: Seq<NodeView>,
    label: Seq<char>,
    child: Index,
)
    requires
        well_formed(t0),
        t0.len() <= usize::MAX,
        is_path(t0, s0),
        s0.len() == 0 ==> t0.len() == 0,
        child.0 < t1.len(),
        child_inserted(
            t0,
            t1,
            if s0.len() == 0 {
                None
            } else {
                Some(Index(s0.last() as usize))
            },
            label,
            child,
        ),
    ensures
        is_path(t1, s0.push(child.0 as int)),
{
    let s1 = s0.push(child.0 as int);
    if s0.len() > 0 {
        let p = s0.last();
        let kids = children(t0, p);
        assert(Index(p as usize).0 == p);
        assert(children(t1, p).contains(child.0 as int)) by {
            if t1 != t0 {
                assert(children(t1, p) == kids.push(t0.len() as int));
                assert(children(t1, p)[kids.len() as int] == child.0);
            }
        }
        assert forall|k: int| 0 < k < s1.len() implies children(t1, s1[k - 1]).contains(
            #[trigger] s1[k],
        ) by {
            if k < s0.len() {
                let q = s0[k - 1];
                assert(children(t0, q).contains(s0[k]));
                let j = choose|j: int| 0 <= j < children(t0, q).len() && children(t0, q)[j] == s0[k];
                if t1 != t0 {
                    if q == p {
                        assert(children(t1, q)[j] == s0[k]);
                    } else {
                        assert(children(t1, q) == children(t0, q));
                    }
                }
            }
        }
        assert forall|k: int| 0 <= k < s1.len() implies 0 <= #[trigger] s1[k] < t1.len() by {
            if k < s0.len() {
                assert(0 <= s0[k] < t0.len());
            }
        }
    }
}

/// Measures the start and end of a span. The start is when it is constructed,
/// the end is when it is closed.
#[derive(Debug)]
pub struct Span {
    index: Index,
}

impl Span {
    /// The node this span is measured into.
    pub closed spec fn node(&self) -> Index {
        self.index
    }

    /// The node this span is measured into.
    pub fn index(&self) -> (idx: Index)
        ensures
            idx == self.node(),
    {
        self.index
    }

    /// Open a span named `name` in `trace`.
    pub fn new(trace: &mut FlameGraph, name: &'static str) -> (span: Span)
        requires
            old(trace).wf(),
        ensures
            final(trace).wf(),
            span_opened(
                old(trace).tree(),
                old(trace).open_spans(),
                final(trace).tree(),
                final(trace).open_spans(),
                name@,
                span.node(),
            ),
    {
        let index = trace.push_call(name);
        Span { index }
    }

    /// Close the span in `trace`, the recorder it was opened in.
    pub fn close(self, trace: &mut FlameGraph) -> (r: Option<CompletedTrace>)
        requires
            old(trace).wf(),
        ensures
            final(trace).wf(),
            exists|elapsed: u128|
                span_closed(
                    old(trace).tree(),
                    old(trace).open_spans(),
                    final(trace).tree(),
                    final(trace).open_spans(),
                    self.node().0 as int,
                    elapsed,
                    r,
                ),
    {
        let r = trace.pop_call(self.index);
        proof {
            let elapsed = choose|elapsed: u128|
                span_closed(
                    old(trace).tree(),
                    old(trace).open_spans(),
                    trace.tree(),
                    trace.open_spans(),
                    self.index.0 as int,
                    elapsed,
                    r,
                );
            assert(span_closed(
                old(trace).tree(),
                old(trace).open_spans(),
                trace.tree(),
                trace.open_spans(),
                self.node().0 as int,
                elapsed,
                r,
            ));
        }
        r
    }
}

} // verus!
