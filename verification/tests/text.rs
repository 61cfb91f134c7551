use no_nonsense_flamegraphs::decimal::write_decimal;
use no_nonsense_flamegraphs::handler::{CompletionSlot, ConfigError};
use no_nonsense_flamegraphs::render::{is_renderable, render_flamegraph, RenderError};
use no_nonsense_flamegraphs::serialize::write_flame_graph_input;
use no_nonsense_flamegraphs::vec_trie::VecTrie;

fn decimal_of(n: u128) -> String {
    let mut out = String::new();
    write_decimal(&mut out, n);
    out
}

#[test]
fn decimal_of_small_numbers() {
    assert_eq!(decimal_of(0), "0");
    assert_eq!(decimal_of(7), "7");
    assert_eq!(decimal_of(9), "9");
    assert_eq!(decimal_of(10), "10");
    assert_eq!(decimal_of(1234567890), "1234567890");
}

#[test]
fn decimal_of_the_largest_number() {
    assert_eq!(decimal_of(u128::MAX), "340282366920938463463374607431768211455");
    assert_eq!(decimal_of(u128::MAX), u128::MAX.to_string());
}

#[test]
fn decimal_appends_to_what_is_there() {
    let mut out = String::from("n=");
    write_decimal(&mut out, 405);
    assert_eq!(out, "n=405");
}

#[test]
fn subtree_is_written_under_a_prefix() {
    let mut trie = VecTrie::new();
    let root = trie.insert_child(None, "main".to_string());
    let a = trie.insert_child(Some(root), "a".to_string());
    let b = trie.insert_child(Some(a), "b".to_string());
    trie.value_mut(a).duration = 9_999;
    trie.value_mut(a).num_invocations = 3;
    trie.value_mut(b).duration = 2_000;
    trie.value_mut(b).num_invocations = 12;
    let visitor = trie.root().unwrap().children().next().unwrap();
    let mut out = String::from("# head\n");
    write_flame_graph_input(&mut out, &visitor, "top;");
    assert_eq!(out, "# head\ntop;a (3 calls) 8\ntop;a (3 calls);b (12 calls) 3\n");
}

#[test]
fn labels_are_written_as_they_are() {
    let mut trie = VecTrie::new();
    let root = trie.insert_child(None, "".to_string());
    trie.insert_child(Some(root), "a;b (c)".to_string());
    let mut out = String::new();
    write_flame_graph_input(&mut out, &trie.root().unwrap(), "");
    assert_eq!(out, " (0 calls) 1\n (0 calls);a;b (c) (0 calls) 1\n");
}

#[test]
fn second_handler_is_refused() {
    let mut slot: CompletionSlot<u32> = CompletionSlot::new();
    assert!(slot.handler().is_none());
    assert_eq!(slot.install(1), Ok(()));
    assert_eq!(slot.handler(), Some(&1));
    assert_eq!(slot.install(2), Err(ConfigError::AlreadyConfigured));
    assert_eq!(slot.handler(), Some(&1));
    assert_eq!(slot.install(3), Err(ConfigError::AlreadyConfigured));
    assert_eq!(slot.handler(), Some(&1));
    assert_eq!(ConfigError::AlreadyConfigured.message(), "already configured");
}

#[test]
fn rendering_gives_an_svg_document() {
    let text = "main (1 calls) 24\nmain (1 calls);work (5 calls) 12\n";
    let svg = render_flamegraph(text).unwrap();
    let svg = String::from_utf8(svg).unwrap();
    assert_ne!(svg, text);
    assert!(svg.contains("<svg"));
    assert!(svg.contains("work (5 calls)"));
    assert!(svg.contains("μs"));
}

#[test]
fn rendering_nothing_fails() {
    match render_flamegraph("") {
        Err(RenderError::Failed(message)) => assert!(!message.is_empty()),
        other => panic!("unexpected outcome: {:?}", other),
    }
}

#[test]
fn numbers_of_thirteen_digits_are_taken() {
    assert!(is_renderable(""));
    assert!(is_renderable("main (1 calls) 9999999999999\n"));
    assert!(is_renderable("1234567890123 1234567890123"));
    let svg = render_flamegraph("main (1 calls) 9999999999999\n").unwrap();
    assert!(String::from_utf8(svg).unwrap().contains("<svg"));
}

#[test]
fn numbers_of_fourteen_digits_are_turned_away() {
    let text = "main (1 calls) 10000000000000\n";
    assert!(!is_renderable(text));
    assert!(matches!(render_flamegraph(text), Err(RenderError::TooLarge)));
    assert!(!is_renderable("f12345678901234 (1 calls) 1\n"));
}

#[test]
fn a_million_lines_are_turned_away() {
    let mut text = String::new();
    for _ in 0..999_999 {
        text.push_str("a 1\n");
    }
    assert!(is_renderable(&text));
    text.push_str("a 1\n");
    assert!(!is_renderable(&text));
    assert!(matches!(render_flamegraph(&text), Err(RenderError::TooLarge)));
}
