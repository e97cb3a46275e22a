use std::collections::BTreeMap;

use correlation::parsers::Parser;
use correlation::trie::{InsertError, InsertOutcome, LiteralNode, Node, NodeType, Pattern, SuffixTable};

fn literal(s: &str) -> NodeType {
    NodeType::Literal(s.to_string())
}

fn create_populated_suffix_table() -> SuffixTable {
    let mut root = SuffixTable::new();
    let cp1 = vec![
        literal("app"),
        NodeType::Parser(Parser::set_from_str("middle", "01234")),
        literal("letree"),
        NodeType::Parser(Parser::set_from_str("end", "012")),
    ];
    let cp2 = vec![
        literal("app"),
        NodeType::Parser(Parser::set_from_str("middle", "01234")),
        literal("letree"),
        NodeType::Parser(Parser::set_from_str("end", "0123")),
    ];
    let cp3 = vec![literal("bamboo")];
    let cp4 = vec![literal("bamba")];

    let pattern1 = Pattern::new("pattern-1", cp1);
    let pattern2 = Pattern::new("pattern-2", cp2);
    let pattern3 = Pattern::new("pattern-3", cp3);
    let pattern4 = Pattern::new("pattern-4", cp4);

    root.insert(pattern1).unwrap();
    root.insert(pattern2).unwrap();
    root.insert(pattern3).unwrap();
    root.insert(pattern4).unwrap();

    root
}

fn as_map(values: &Vec<(String, String)>) -> BTreeMap<&str, &str> {
    values.iter().map(|(k, v)| (k.as_str(), v.as_str())).collect()
}

#[test]
fn test_given_parser_trie_when_a_parser_is_not_matched_then_the_parser_stack_is_unwind_so_an_untried_parser_is_tried(
) {
    let root = create_populated_suffix_table();
    {
        let result = root.parse("app42letree123");
        let result = result.expect("Failed to get result");
        let mut expected = BTreeMap::new();
        expected.insert("end", "123");
        expected.insert("middle", "42");
        assert_eq!(as_map(result.values()), expected);
        assert_eq!(result.pattern(), "pattern-2");
    }
}

#[test]
fn test_given_suffix_array_when_a_parser_entry_is_inserted_it_is_only_added_if_it_is_a_new_parser() {
    let mut root = SuffixTable::new();
    let cp1 = vec![NodeType::Parser(Parser::integer(""))];
    let cp2 = vec![NodeType::Parser(Parser::integer(""))];

    let pattern1 = Pattern::new("pattern-1", cp1);
    assert_eq!(root.insert(pattern1), Ok(InsertOutcome::Inserted));

    let pattern2 = Pattern::new("pattern-2", cp2);
    assert_eq!(root.insert(pattern2), Ok(InsertOutcome::Replaced));

    assert_eq!(true, root.parse("42").is_some());
    assert_eq!(root.parse("42").unwrap().pattern(), "pattern-2");
}

#[test]
fn test_given_suffix_array_when_there_is_no_match_then_the_parsing_is_unsuccessful() {
    let mut root = SuffixTable::new();
    let cp1 = vec![literal("app"), NodeType::Parser(Parser::integer(""))];
    let pattern = Pattern::new("pattern-1", cp1);
    root.insert(pattern).unwrap();

    assert_eq!(true, root.parse("XYZ").is_none());
}

#[test]
fn test_given_suffix_array_when_the_match_is_too_short_then_we_dont_panic() {
    let mut root = SuffixTable::new();
    let cp1 = vec![literal("app"), NodeType::Parser(Parser::integer(""))];
    let pattern = Pattern::new("pattern-1", cp1);
    root.insert(pattern).unwrap();

    assert_eq!(true, root.parse("XYZ").is_none());
    assert_eq!(true, root.parse("ap").is_none());
    assert_eq!(true, root.parse("app").is_none());
}

#[test]
fn test_given_suffix_array_when_during_parsing_the_parsed_value_is_not_empty_but_we_cant_go_forward_then_the_parsing_is_unsuccessful(
) {
    let mut root = SuffixTable::new();
    let cp1 = vec![literal("app")];
    let pattern = Pattern::new("pattern-1", cp1);
    root.insert(pattern).unwrap();

    assert_eq!(true, root.parse("apple").is_none());
}

#[test]
fn test_given_suffix_array_when_a_literal_entry_is_found_then_it_is_returned() {
    let mut root = SuffixTable::new();
    let cp1 = vec![literal("app")];
    let pattern = Pattern::new("pattern-1", cp1);
    root.insert(pattern).unwrap();

    assert_eq!(true, root.parse("app").is_some());
}

#[test]
fn test_given_suffix_array_when_literals_are_inserted_then_it_can_find_the_string_with_the_longest_common_prefix(
) {
    let mut root = SuffixTable::new();
    let cp1 = vec![literal("app")];
    let pattern = Pattern::new("pattern-1", cp1);
    root.insert(pattern).unwrap();

    assert_eq!("app", root.longest_common_prefix("app42").unwrap().literal());
}

#[test]
fn two_literals_split_on_their_common_prefix() {
    let mut root = SuffixTable::new();
    root.insert(Pattern::new("first", vec![literal("bamboo")])).unwrap();
    root.insert(Pattern::new("second", vec![literal("bamba")])).unwrap();
    assert_eq!(root.longest_common_prefix("bam").unwrap().literal(), "bamb");
    assert_eq!(root.parse("bamboo").unwrap().pattern(), "first");
    assert_eq!(root.parse("bamba").unwrap().pattern(), "second");
    assert!(root.parse("bamb").is_none());
}

#[test]
fn node_lookup_follows_split_edges() {
    let mut node = Node::new();
    node.insert(Pattern::new("first", vec![literal("bamboo")])).unwrap();
    node.insert(Pattern::new("second", vec![literal("bamba")])).unwrap();
    let mid = node.lookup_literal("bamb").unwrap();
    assert!(!mid.is_leaf());
    assert!(mid.lookup_literal("oo").unwrap().is_leaf());
    assert!(mid.lookup_literal("a").unwrap().is_leaf());
    assert!(node.lookup_literal("bam").is_none());
    assert!(node.lookup_literal("bambx").is_none());
}

#[test]
fn literal_split_by_a_shorter_literal() {
    let mut root = SuffixTable::new();
    root.insert(Pattern::new("long", vec![literal("apple")])).unwrap();
    root.insert(Pattern::new("short", vec![literal("app")])).unwrap();
    assert_eq!(root.parse("apple").unwrap().pattern(), "long");
    assert_eq!(root.parse("app").unwrap().pattern(), "short");
    assert_eq!(root.longest_common_prefix("a").unwrap().literal(), "app");
}

#[test]
fn empty_pattern_is_refused() {
    let mut root = SuffixTable::new();
    assert_eq!(root.insert(Pattern::new("p", vec![])), Err(InsertError::InvalidPattern));
    assert_eq!(
        root.insert(Pattern::new("p", vec![literal("a"), literal("")])),
        Err(InsertError::InvalidPattern)
    );
    assert!(root.parse("a").is_none());
}

#[test]
fn literals_are_tried_before_parsers() {
    let mut root = SuffixTable::new();
    root.insert(Pattern::new("lit", vec![literal("12")])).unwrap();
    root.insert(Pattern::new("int", vec![NodeType::Parser(Parser::integer("n"))])).unwrap();
    assert_eq!(root.parse("12").unwrap().pattern(), "lit");
    let r = root.parse("123").unwrap();
    assert_eq!(r.pattern(), "int");
    assert_eq!(r.values(), &vec![("n".to_string(), "123".to_string())]);
}

#[test]
fn parsers_are_tried_in_insertion_order_with_backtracking() {
    let mut root = SuffixTable::new();
    root.insert(Pattern::new(
        "a",
        vec![NodeType::Parser(Parser::set_from_str("x", "ab")), literal("!")],
    ))
    .unwrap();
    root.insert(Pattern::new(
        "b",
        vec![NodeType::Parser(Parser::set_from_str("y", "abc")), literal("?")],
    ))
    .unwrap();
    let r = root.parse("abc?").unwrap();
    assert_eq!(r.pattern(), "b");
    assert_eq!(r.values(), &vec![("y".to_string(), "abc".to_string())]);
    let r = root.parse("ab!").unwrap();
    assert_eq!(r.pattern(), "a");
    assert_eq!(r.values(), &vec![("x".to_string(), "ab".to_string())]);
}

#[test]
fn inserted_patterns_parse_their_rendering() {
    let mut root = SuffixTable::new();
    root.insert(Pattern::new(
        "p",
        vec![
            literal("user "),
            NodeType::Parser(Parser::set_from_str("name", "abcdefghijklmnopqrstuvwxyz")),
            literal(" logged in after "),
            NodeType::Parser(Parser::integer("ms")),
            literal("ms"),
        ],
    ))
    .unwrap();
    let r = root.parse("user alice logged in after 250ms").unwrap();
    assert_eq!(r.pattern(), "p");
    assert_eq!(
        r.values(),
        &vec![("name".to_string(), "alice".to_string()), ("ms".to_string(), "250".to_string())]
    );
}

#[test]
fn add_literal_node_refuses_a_second_edge_with_the_same_first_char() {
    let mut node = Node::new();
    assert!(node.is_leaf());
    assert!(node.add_literal_node(LiteralNode::from_str("abc")));
    assert!(!node.is_leaf());
    assert!(!node.add_literal_node(LiteralNode::from_str("axe")));
    assert!(node.add_literal_node(LiteralNode::from_str("b")));
    assert!(node.lookup_literal("abc").unwrap().is_leaf());
    assert!(node.lookup_literal("b").is_some());
}

#[test]
fn unicode_input_is_matched_by_characters() {
    let mut root = SuffixTable::new();
    root.insert(Pattern::new(
        "u",
        vec![literal("é"), NodeType::Parser(Parser::set_from_str("v", "ñø"))],
    ))
    .unwrap();
    let r = root.parse("éñøñ").unwrap();
    assert_eq!(r.values(), &vec![("v".to_string(), "ñøñ".to_string())]);
}

#[test]
fn parsers_take_the_longest_run_and_never_give_back() {
    let mut root = SuffixTable::new();
    root.insert(Pattern::new(
        "greedy",
        vec![NodeType::Parser(Parser::integer("n")), literal("5")],
    ))
    .unwrap();
    assert!(root.parse("125").is_none());
    assert!(root.parse("12x").is_none());
}

#[test]
fn reinserting_a_pattern_replaces_and_keeps_the_others() {
    let mut root = create_populated_suffix_table();
    assert_eq!(
        root.insert(Pattern::new("again", vec![literal("bamboo")])),
        Ok(InsertOutcome::Replaced)
    );
    assert_eq!(root.parse("bamboo").unwrap().pattern(), "again");
    assert_eq!(root.parse("bamba").unwrap().pattern(), "pattern-4");
    assert_eq!(root.parse("app42letree123").unwrap().pattern(), "pattern-2");
    assert_eq!(root.parse("app1letree2").unwrap().pattern(), "pattern-1");
}

#[test]
fn lookup_of_an_empty_literal_finds_nothing() {
    let mut node = Node::new();
    assert!(node.lookup_literal("").is_none());
    node.insert(Pattern::new("first", vec![literal("app")])).unwrap();
    assert!(node.lookup_literal("").is_none());
    assert!(node.lookup_literal("app").is_some());
}

#[test]
fn same_parser_twice_shares_one_edge() {
    let mut node = Node::new();
    node.insert(Pattern::new("a", vec![NodeType::Parser(Parser::integer(""))])).unwrap();
    node.insert(Pattern::new("b", vec![NodeType::Parser(Parser::integer(""))])).unwrap();
    assert_eq!(node.parser_children.len(), 1);
    node.insert(Pattern::new("c", vec![NodeType::Parser(Parser::integer("n"))])).unwrap();
    assert_eq!(node.parser_children.len(), 2);
    assert_eq!(node.parser_children[1].parser.name(), "n");
}

#[test]
fn fixture_has_the_expected_shape() {
    let root = create_populated_suffix_table();
    let labels: Vec<String> = root.root.literal_children.iter().map(|e| e.literal()).collect();
    assert_eq!(labels, vec!["app".to_string(), "bamb".to_string()]);
    let bamb = &root.root.literal_children[1].node;
    let rests: Vec<String> = bamb.literal_children.iter().map(|e| e.literal()).collect();
    assert_eq!(rests, vec!["a".to_string(), "oo".to_string()]);
    let app = &root.root.literal_children[0].node;
    assert_eq!(app.parser_children.len(), 1);
    let letree = &app.parser_children[0].node.literal_children[0];
    assert_eq!(letree.literal(), "letree");
    assert_eq!(letree.node.parser_children.len(), 2);
}
