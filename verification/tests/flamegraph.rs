use no_nonsense_flamegraphs::flamegraph::{FlameGraph, Span};
use no_nonsense_flamegraphs::serialize::{billed_self_time, flame_graph_input};
use no_nonsense_flamegraphs::vec_trie::{Index, Measurement};

#[test]
fn new_recorder_is_idle() {
    let trace = FlameGraph::new();
    assert_eq!(trace.depth(), 0);
    assert!(trace.trie().root().is_none());
}

#[test]
fn fib_three_builds_the_expected_tree() {
    let mut trace = FlameGraph::new();
    // fib(3)
    let fib3 = trace.push_call("fib");
    let small3 = trace.push_call("is_small");
    assert!(trace.pop_call_after(small3, 2_000).is_none());
    // fib(2)
    let fib2 = trace.push_call("fib");
    let small2 = trace.push_call("is_small");
    assert!(trace.pop_call_after(small2, 3_000).is_none());
    assert!(trace.pop_call_after(fib2, 10_000).is_none());
    // fib(1)
    let fib1 = trace.push_call("fib");
    let small1 = trace.push_call("is_small");
    assert!(trace.pop_call_after(small1, 1_000).is_none());
    assert!(trace.pop_call_after(fib1, 5_000).is_none());

    assert_eq!(fib3, Index(0));
    assert_eq!(small3, Index(1));
    assert_eq!(fib2, Index(2));
    assert_eq!(small2, Index(3));
    assert_eq!(fib1, fib2);
    assert_eq!(small1, small2);
    assert_eq!(trace.trie().len(), 4);
    assert_eq!(trace.depth(), 1);

    let done = trace.pop_call_after(fib3, 40_000).unwrap();
    assert_eq!(done.root, "fib");
    assert_eq!(done.total, 40_000);
    assert_eq!(
        done.text,
        "fib (1 calls) 24\n\
         fib (1 calls);is_small (1 calls) 3\n\
         fib (1 calls);fib (2 calls) 12\n\
         fib (1 calls);fib (2 calls);is_small (2 calls) 5\n"
    );
    assert_eq!(trace.depth(), 0);
    assert!(trace.trie().root().is_none());
}

#[test]
fn counts_and_totals_add_up_per_path() {
    let mut trace = FlameGraph::new();
    let main = trace.push_call("main");
    let mut last = 0;
    for round in 1..=5u128 {
        let work = trace.push_call("work");
        assert_eq!(work, Index(1));
        assert!(trace.pop_call_after(work, round * 100).is_none());
        let total = trace.trie().root().unwrap().children().next().unwrap().value().duration;
        assert!(total >= last);
        last = total;
    }
    let root = trace.trie().root().unwrap();
    let work = root.children().next().unwrap();
    assert_eq!(*work.value(), Measurement { duration: 1_500, num_invocations: 5 });
    assert_eq!(*root.value(), Measurement { duration: 0, num_invocations: 0 });
    let done = trace.pop_call_after(main, 2_000).unwrap();
    assert_eq!(done.text, "main (1 calls) 1\nmain (1 calls);work (5 calls) 2\n");
}

#[test]
fn leaf_self_time_is_its_total() {
    let mut trace = FlameGraph::new();
    let main = trace.push_call("main");
    let leaf = trace.push_call("leaf");
    trace.pop_call_after(leaf, 7_777);
    let root = trace.trie().root().unwrap();
    let leaf_node = root.children().next().unwrap();
    assert_eq!(billed_self_time(&leaf_node), 7_777);
    assert_eq!(leaf_node.value().duration, 7_777);
    trace.pop_call_after(main, 10_000);
}

#[test]
fn self_times_sum_to_root_total() {
    let mut trace = FlameGraph::new();
    let main = trace.push_call("main");
    let a = trace.push_call("a");
    let a1 = trace.push_call("a1");
    trace.pop_call_after(a1, 100);
    let a2 = trace.push_call("a2");
    trace.pop_call_after(a2, 250);
    trace.pop_call_after(a, 1_000);
    let b = trace.push_call("b");
    trace.pop_call_after(b, 4_000);
    // Close the root by hand so that the tree can still be inspected.
    let mut sum = 0;
    {
        let trie = trace.trie();
        let root = trie.root().unwrap();
        assert_eq!(root.handle(), main);
        let total = root.value().duration as i128;
        let mut pending = vec![root];
        while let Some(node) = pending.pop() {
            let mut kids = node.children();
            let mut below = 0;
            while let Some(kid) = kids.next() {
                below += kid.value().duration;
                pending.push(kid);
            }
            sum += node.value().duration as i128 - below as i128;
        }
        assert_eq!(sum, total);
    }
    let done = trace.pop_call_after(main, 9_000).unwrap();
    assert_eq!(
        done.text,
        "main (1 calls) 5\n\
         main (1 calls);a (1 calls) 1\n\
         main (1 calls);a (1 calls);a1 (1 calls) 1\n\
         main (1 calls);a (1 calls);a2 (1 calls) 1\n\
         main (1 calls);b (1 calls) 5\n"
    );
}

#[test]
fn serialization_is_repeatable() {
    let mut trace = FlameGraph::new();
    let main = trace.push_call("main");
    let a = trace.push_call("a");
    trace.pop_call_after(a, 123_456);
    let first = flame_graph_input(trace.trie()).unwrap();
    let second = flame_graph_input(trace.trie()).unwrap();
    assert_eq!(first, second);
    assert_eq!(first, "main (0 calls) 1\nmain (0 calls);a (1 calls) 124\n");
    trace.pop_call_after(main, 200_000);
}

#[test]
fn empty_tree_has_no_text() {
    let trace = FlameGraph::new();
    assert!(flame_graph_input(trace.trie()).is_none());
}

#[test]
fn children_over_total_are_billed_as_zero() {
    let mut trace = FlameGraph::new();
    let main = trace.push_call("main");
    let a = trace.push_call("a");
    trace.pop_call_after(a, 5_000);
    let done = trace.pop_call_after(main, 3_000).unwrap();
    assert_eq!(done.text, "main (1 calls) 1\nmain (1 calls);a (1 calls) 6\n");
}

#[test]
fn closing_an_outer_span_drops_the_inner_frames() {
    let mut trace = FlameGraph::new();
    let main = trace.push_call("main");
    let a = trace.push_call("a");
    let b = trace.push_call("b");
    assert_eq!(trace.depth(), 3);
    assert!(trace.pop_call_after(a, 1_000).is_none());
    assert_eq!(trace.depth(), 1);
    {
        let root = trace.trie().root().unwrap();
        let a_node = root.children().next().unwrap();
        assert_eq!(a_node.handle(), a);
        assert_eq!(*a_node.value(), Measurement { duration: 1_000, num_invocations: 1 });
        let b_node = a_node.children().next().unwrap();
        assert_eq!(b_node.handle(), b);
        assert_eq!(*b_node.value(), Measurement { duration: 0, num_invocations: 0 });
    }
    let done = trace.pop_call_after(main, 2_000).unwrap();
    assert_eq!(
        done.text,
        "main (1 calls) 2\nmain (1 calls);a (1 calls) 2\nmain (1 calls);a (1 calls);b (0 calls) 1\n"
    );
}

#[test]
fn closing_an_unknown_span_drains_the_stack() {
    let mut trace = FlameGraph::new();
    trace.push_call("main");
    let a = trace.push_call("a");
    trace.pop_call_after(a, 4_000);
    let done = trace.pop_call_after(Index(17), 1_000).unwrap();
    assert_eq!(done.root, "main");
    assert_eq!(done.total, 0);
    assert_eq!(done.text, "main (0 calls) 1\nmain (0 calls);a (1 calls) 5\n");
    assert_eq!(trace.depth(), 0);
    assert!(trace.trie().is_empty());
}

#[test]
fn closing_on_an_idle_recorder_does_nothing() {
    let mut trace = FlameGraph::new();
    assert!(trace.pop_call_after(Index(0), 10).is_none());
    assert!(trace.pop_call(Index(3)).is_none());
    assert_eq!(trace.depth(), 0);
    assert!(trace.trie().is_empty());
}

#[test]
fn sums_stop_at_the_largest_value() {
    let mut trace = FlameGraph::new();
    let main = trace.push_call("main");
    let a = trace.push_call("a");
    trace.pop_call_after(a, u128::MAX - 5);
    let a = trace.push_call("a");
    trace.pop_call_after(a, 10);
    {
        let root = trace.trie().root().unwrap();
        let a_node = root.children().next().unwrap();
        assert_eq!(*a_node.value(), Measurement { duration: u128::MAX, num_invocations: 2 });
    }
    let done = trace.pop_call_after(main, u128::MAX).unwrap();
    assert_eq!(
        done.text,
        "main (1 calls) 1\nmain (1 calls);a (2 calls) 340282366920938463463374607431768212\n"
    );
}

#[test]
fn a_new_trace_starts_from_an_empty_tree() {
    let mut trace = FlameGraph::new();
    let first = trace.push_call("first");
    let inner = trace.push_call("inner");
    trace.pop_call_after(inner, 1);
    assert!(trace.pop_call_after(first, 2).is_some());
    let second = trace.push_call("second");
    assert_eq!(second, Index(0));
    let done = trace.pop_call_after(second, 1_000_000).unwrap();
    assert_eq!(done.text, "second (1 calls) 1001\n");
}

#[test]
fn spans_measure_with_the_clock() {
    let mut trace = FlameGraph::new();
    let outer = Span::new(&mut trace, "outer");
    let inner = Span::new(&mut trace, "inner");
    assert_eq!(outer.index(), Index(0));
    assert_eq!(inner.index(), Index(1));
    assert_eq!(trace.depth(), 2);
    assert!(inner.close(&mut trace).is_none());
    {
        let root = trace.trie().root().unwrap();
        let inner_node = root.children().next().unwrap();
        assert_eq!(inner_node.key(), "inner");
        assert_eq!(inner_node.value().num_invocations, 1);
    }
    let done = outer.close(&mut trace).unwrap();
    assert_eq!(done.root, "outer");
    let lines: Vec<&str> = done.text.lines().collect();
    assert_eq!(lines.len(), 2);
    assert!(lines[0].starts_with("outer (1 calls) "));
    assert!(lines[1].starts_with("outer (1 calls);inner (1 calls) "));
    assert!(trace.trie().is_empty());
}

#[test]
fn push_call_at_takes_the_start_given() {
    let mut trace = FlameGraph::new();
    let start = std::time::Instant::now();
    let main = trace.push_call_at("main", start);
    assert_eq!(main, Index(0));
    let done = trace.pop_call(main).unwrap();
    assert_eq!(done.root, "main");
    assert!(start.elapsed().as_nanos() >= done.total);
}
