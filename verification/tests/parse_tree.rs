use lisp_front::compiler::errors::StructuralViolation;
use lisp_front::compiler::lexer::{Token, TokenMetadata, TokenType};
use lisp_front::compiler::parse_tree::{
    NonTerminalType, PTDynamicNode, PTNode, PTNodeInternal, PTNodeType, PTNonTerminal, PTree,
};

fn token(token_type: TokenType) -> Token {
    Token {
        token_type,
        metadata: TokenMetadata { start_line: 1, start_col: 1, end_line: 1, end_col: 2 },
    }
}

fn named(text: &str) -> Token {
    token(TokenType::Name(text.to_string()))
}

fn leaf(text: &str) -> PTNode {
    PTNode::Terminal(named(text))
}

fn list(children: Vec<PTNode>) -> PTNode {
    PTNode::NonTerminal(PTNonTerminal::new(NonTerminalType::List, Some(children)))
}

fn root() -> PTNode {
    PTNode::NonTerminal(PTNonTerminal::new(NonTerminalType::Root, None))
}

fn terminal(text: &str) -> PTNodeType {
    PTNodeType::Terminal(named(text))
}

fn children_of(tree: &PTree, node_ref: usize) -> Vec<usize> {
    tree.get_non_terminal(node_ref).children.clone()
}

#[test]
fn new_tree_is_empty() {
    let tree = PTree::new();
    assert_eq!(tree.len(), 0);
    assert_eq!(tree.get_node_type(0), Err(StructuralViolation::NotFound));
    assert!(tree.traverse(0).is_empty());
}

#[test]
fn root_ref_is_zero() {
    assert_eq!(PTree::ROOT_NODE_REF, 0);
    let mut tree = PTree::new();
    assert_eq!(tree.add_node(&root()), PTree::ROOT_NODE_REF);
    assert_eq!(tree.get_node_type(0), Ok(PTNodeType::NonTerminal(NonTerminalType::Root)));
    assert!(children_of(&tree, 0).is_empty());
}

#[test]
fn add_node_hands_out_increasing_refs() {
    let mut tree = PTree::new();
    assert_eq!(tree.add_node(&leaf("a")), 0);
    assert_eq!(tree.add_node(&leaf("b")), 1);
    assert_eq!(tree.add_node(&root()), 2);
    assert_eq!(tree.len(), 3);
    assert_eq!(tree.get_node_type(0), Ok(terminal("a")));
    assert_eq!(tree.get_node_type(1), Ok(terminal("b")));
    assert_eq!(tree.get_node_type(3), Err(StructuralViolation::NotFound));
}

#[test]
fn inline_subtree_is_laid_out_children_first() {
    let mut tree = PTree::new();
    tree.add_node(&root());
    let node = list(vec![leaf("a"), list(vec![leaf("b"), leaf("c")]), leaf("d")]);
    let node_ref = tree.add_node(&node);
    assert_eq!(node_ref, 6);
    assert_eq!(tree.len(), 7);
    assert_eq!(tree.get_node_type(1), Ok(terminal("a")));
    assert_eq!(tree.get_node_type(2), Ok(terminal("b")));
    assert_eq!(tree.get_node_type(3), Ok(terminal("c")));
    assert_eq!(tree.get_node_type(4), Ok(PTNodeType::NonTerminal(NonTerminalType::List)));
    assert_eq!(tree.get_node_type(5), Ok(terminal("d")));
    assert_eq!(tree.get_node_type(6), Ok(PTNodeType::NonTerminal(NonTerminalType::List)));
    assert_eq!(children_of(&tree, 4), vec![2, 3]);
    assert_eq!(children_of(&tree, 6), vec![1, 4, 5]);
    assert!(children_of(&tree, 0).is_empty());
}

#[test]
fn non_terminal_without_children_list_has_no_children() {
    let mut tree = PTree::new();
    let empty = PTNode::NonTerminal(PTNonTerminal::new(NonTerminalType::List, Some(Vec::new())));
    assert_eq!(tree.add_node(&empty), 0);
    assert_eq!(tree.add_node(&root()), 1);
    assert!(children_of(&tree, 0).is_empty());
    assert!(children_of(&tree, 1).is_empty());
}

#[test]
fn add_to_node_appends_to_the_parent() {
    let mut tree = PTree::new();
    tree.add_node(&root());
    assert_eq!(tree.add_to_node(0, leaf("a")), Ok(1));
    assert_eq!(tree.add_to_node(0, list(vec![leaf("b")])), Ok(3));
    assert_eq!(tree.add_to_node(3, leaf("c")), Ok(4));
    assert_eq!(tree.add_to_node(0, leaf("d")), Ok(5));
    assert_eq!(children_of(&tree, 0), vec![1, 3, 5]);
    assert_eq!(children_of(&tree, 3), vec![2, 4]);
    assert_eq!(tree.get_node_type(2), Ok(terminal("b")));
    assert_eq!(tree.get_node_type(4), Ok(terminal("c")));
}

#[test]
fn add_to_node_fails_on_a_missing_parent() {
    let mut tree = PTree::new();
    assert_eq!(tree.add_to_node(0, leaf("a")), Err(StructuralViolation::NotFound));
    assert_eq!(tree.len(), 0);
    tree.add_node(&root());
    assert_eq!(tree.add_to_node(1, leaf("a")), Err(StructuralViolation::NotFound));
    assert_eq!(tree.add_to_node(usize::MAX, leaf("a")), Err(StructuralViolation::NotFound));
    assert_eq!(tree.len(), 1);
    assert!(children_of(&tree, 0).is_empty());
}

#[test]
fn add_to_node_fails_on_a_terminal_parent() {
    let mut tree = PTree::new();
    tree.add_node(&root());
    assert_eq!(tree.add_to_node(0, leaf("a")), Ok(1));
    assert_eq!(
        tree.add_to_node(1, list(vec![leaf("b")])),
        Err(StructuralViolation::InvalidNodeKind)
    );
    assert_eq!(tree.len(), 2);
    assert_eq!(children_of(&tree, 0), vec![1]);
}

#[test]
fn refs_stay_valid_and_name_the_same_nodes() {
    let mut tree = PTree::new();
    tree.add_node(&root());
    let a = tree.add_to_node(0, leaf("a")).unwrap();
    let l = tree.add_to_node(0, list(vec![leaf("b")])).unwrap();
    let mut last = l;
    for i in 0..20 {
        let parent = if i % 2 == 0 { 0 } else { l };
        let child = tree.add_to_node(parent, leaf("x")).unwrap();
        assert!(child > last);
        last = child;
        assert_eq!(tree.get_node_type(a), Ok(terminal("a")));
        assert_eq!(tree.get_node_type(l), Ok(PTNodeType::NonTerminal(NonTerminalType::List)));
        assert_eq!(tree.get_terminal(a), &named("a"));
        assert_eq!(children_of(&tree, 0)[..2], [a, l]);
        assert_eq!(children_of(&tree, l)[0], 2);
    }
    assert_eq!(tree.len(), 24);
}

#[test]
fn getters_read_the_node() {
    let mut tree = PTree::new();
    tree.add_node(&root());
    tree.add_to_node(0, leaf("a")).unwrap();
    assert!(matches!(tree.get_node(0), PTNodeInternal::NonTerminal(_)));
    assert!(matches!(tree.get_node(1), PTNodeInternal::Terminal(_)));
    assert_eq!(tree.get_terminal(1), &named("a"));
    let non_terminal = tree.get_non_terminal(0);
    assert_eq!(non_terminal.node_type, NonTerminalType::Root);
    assert_eq!(non_terminal.children, vec![1]);
}

#[test]
fn traverse_walks_in_pre_order_with_depths() {
    let mut tree = PTree::new();
    tree.add_node(&root());
    tree.add_to_node(0, leaf("a")).unwrap();
    let inner = tree.add_to_node(0, list(vec![leaf("b"), list(vec![leaf("c")])])).unwrap();
    tree.add_to_node(0, leaf("d")).unwrap();
    tree.add_to_node(inner, leaf("e")).unwrap();
    let list_kind = PTNodeType::NonTerminal(NonTerminalType::List);
    assert_eq!(
        tree.traverse(0),
        vec![
            (PTNodeType::NonTerminal(NonTerminalType::Root), 0),
            (terminal("a"), 1),
            (PTNodeType::NonTerminal(NonTerminalType::List), 1),
            (terminal("b"), 2),
            (PTNodeType::NonTerminal(NonTerminalType::List), 2),
            (terminal("c"), 3),
            (terminal("e"), 2),
            (terminal("d"), 1),
        ]
    );
    assert_eq!(
        tree.traverse(inner),
        vec![
            (list_kind, 0),
            (terminal("b"), 1),
            (PTNodeType::NonTerminal(NonTerminalType::List), 1),
            (terminal("c"), 2),
            (terminal("e"), 1),
        ]
    );
    assert_eq!(tree.traverse(1), vec![(terminal("a"), 0)]);
    assert!(tree.traverse(tree.len()).is_empty());
}

#[test]
fn traverse_of_an_inline_subtree_reads_it_back() {
    let mut tree = PTree::new();
    let node_ref = tree.add_node(&list(vec![list(vec![leaf("a")]), leaf("b")]));
    assert_eq!(
        tree.traverse(node_ref),
        vec![
            (PTNodeType::NonTerminal(NonTerminalType::List), 0),
            (PTNodeType::NonTerminal(NonTerminalType::List), 1),
            (terminal("a"), 2),
            (terminal("b"), 1),
        ]
    );
}

#[test]
fn children_iter_shows_children_in_insertion_order() {
    let mut tree = PTree::new();
    tree.add_node(&root());
    tree.add_to_node(0, leaf("a")).unwrap();
    let inner = tree.add_to_node(0, list(vec![leaf("b")])).unwrap();
    tree.add_to_node(0, leaf("c")).unwrap();
    let handle = tree.get_parent_node(PTree::ROOT_NODE_REF);
    assert_eq!(handle.internal.node_type, NonTerminalType::Root);
    let children = handle.children_iter();
    assert_eq!(children.len(), 3);
    assert_eq!(children[0].as_terminal(), named("a"));
    assert_eq!(children[2].as_terminal(), named("c"));
    let nested = children[1].as_non_terminal();
    assert_eq!(nested.internal.node_type, NonTerminalType::List);
    assert_eq!(nested.internal.children, vec![inner - 1]);
    let below = nested.children_iter();
    assert_eq!(below.len(), 1);
    assert_eq!(below[0].as_terminal(), named("b"));
}

#[test]
fn children_iter_can_be_started_again() {
    let mut tree = PTree::new();
    tree.add_node(&root());
    tree.add_to_node(0, leaf("a")).unwrap();
    tree.add_to_node(0, list(vec![leaf("b")])).unwrap();
    tree.add_to_node(0, leaf("c")).unwrap();
    let handle = tree.get_parent_node(0);
    let first = handle.children_iter();
    let second = handle.children_iter();
    assert_eq!(first.len(), second.len());
    for (a, b) in first.iter().zip(second.iter()) {
        match (a, b) {
            (PTDynamicNode::Terminal(x), PTDynamicNode::Terminal(y)) => assert_eq!(x, y),
            (PTDynamicNode::NonTerminal(x), PTDynamicNode::NonTerminal(y)) => {
                assert_eq!(x.internal.node_type, y.internal.node_type);
                assert_eq!(x.internal.children, y.internal.children);
            }
            _ => panic!("the two walks differ"),
        }
    }
}

#[test]
fn children_iter_of_a_childless_node_is_empty() {
    let mut tree = PTree::new();
    tree.add_node(&root());
    assert!(tree.get_parent_node(0).children_iter().is_empty());
}

#[test]
fn tree_can_be_printed_for_debugging() {
    let mut tree = PTree::new();
    tree.add_node(&root());
    tree.add_to_node(0, leaf("a")).unwrap();
    let text = format!("{:?}", tree);
    assert!(text.contains("Root"));
    assert!(text.contains("Name(\"a\")"));
}
