use lisp_front::compiler::lexer::{Lexer, Token, TokenMetadata, TokenType};
use lisp_front::compiler::parse_source;
use lisp_front::compiler::parse_tree::{NonTerminalType, PTDynamicNode, PTNodeType, PTree};
use lisp_front::compiler::parser::Parser;

fn token(token_type: TokenType) -> Token {
    Token {
        token_type,
        metadata: TokenMetadata { start_line: 1, start_col: 1, end_line: 1, end_col: 2 },
    }
}

fn parse(source: &str) -> Parser {
    match parse_source(source.as_bytes().to_vec()) {
        Ok(parser) => parser,
        Err(error) => panic!("unexpected token {:?}", error.token_type()),
    }
}

fn rejected(source: &str) -> TokenType {
    match parse_source(source.as_bytes().to_vec()) {
        Ok(_) => panic!("the source was taken"),
        Err(error) => error.token_type().clone(),
    }
}

fn child_kinds(tree: &PTree, node_ref: usize) -> Vec<PTNodeType> {
    tree.get_parent_node(node_ref)
        .children_iter()
        .iter()
        .map(|child| match child {
            PTDynamicNode::Terminal(token) => PTNodeType::Terminal(token.clone()),
            PTDynamicNode::NonTerminal(handle) => PTNodeType::NonTerminal(handle.internal.node_type),
        })
        .collect()
}

fn shape(tree: &PTree) -> Vec<(String, usize)> {
    tree.traverse(PTree::ROOT_NODE_REF)
        .into_iter()
        .map(|(kind, depth)| {
            let text = match kind {
                PTNodeType::NonTerminal(NonTerminalType::Root) => "Root".to_string(),
                PTNodeType::NonTerminal(NonTerminalType::List) => "List".to_string(),
                PTNodeType::Terminal(token) => match token.token_type {
                    TokenType::LeftParen => "(".to_string(),
                    TokenType::RightParen => ")".to_string(),
                    TokenType::Name(text) => text,
                    TokenType::Symbol(text) => format!(":{}", text),
                    TokenType::Str(text) => format!("\"{}\"", text),
                    other => format!("{:?}", other),
                },
            };
            (text, depth)
        })
        .collect()
}

fn expect(entries: &[(&str, usize)]) -> Vec<(String, usize)> {
    entries.iter().map(|(text, depth)| (text.to_string(), *depth)).collect()
}

#[test]
fn new_parser_holds_the_open_root() {
    let parser = Parser::new();
    assert_eq!(parser.open_count(), 1);
    assert_eq!(parser.tree.len(), 1);
    assert_eq!(
        parser.tree.get_node_type(PTree::ROOT_NODE_REF),
        Ok(PTNodeType::NonTerminal(NonTerminalType::Root))
    );
    assert!(child_kinds(&parser.tree, 0).is_empty());
}

#[test]
fn empty_source_gives_the_root_alone() {
    let parser = parse("");
    assert_eq!(parser.open_count(), 1);
    assert_eq!(shape(&parser.tree), expect(&[("Root", 0)]));
}

#[test]
fn list_with_name_symbol_and_string_becomes_one_list() {
    let source = "(foo :bar \"baz\")";
    let parser = parse(source);
    assert_eq!(parser.open_count(), 1);
    assert_eq!(
        child_kinds(&parser.tree, PTree::ROOT_NODE_REF),
        vec![PTNodeType::NonTerminal(NonTerminalType::List)]
    );
    let list_ref = parser.tree.get_non_terminal(0).children[0];
    let mut lexer = Lexer::new(source.as_bytes().to_vec());
    let mut tokens = Vec::new();
    while let Some(token) = lexer.next() {
        tokens.push(token);
    }
    assert_eq!(tokens.len(), 7);
    // Blanks are dropped in a list as at the top level.
    let kept: Vec<PTNodeType> = tokens
        .into_iter()
        .filter(|token| token.token_type != TokenType::Whitespace)
        .map(PTNodeType::Terminal)
        .collect();
    assert_eq!(kept.len(), 5);
    assert_eq!(child_kinds(&parser.tree, list_ref), kept);
    assert_eq!(
        shape(&parser.tree),
        expect(&[
            ("Root", 0),
            ("List", 1),
            ("(", 2),
            ("foo", 2),
            (":bar", 2),
            ("\"baz\"", 2),
            (")", 2),
        ])
    );
}

#[test]
fn left_paren_is_the_first_child_of_its_list() {
    let mut parser = Parser::new();
    assert!(parser.feed(token(TokenType::LeftParen)).is_ok());
    assert_eq!(parser.open_count(), 2);
    assert_eq!(parser.tree.len(), 3);
    assert_eq!(parser.tree.get_node_type(1), Ok(PTNodeType::Terminal(token(TokenType::LeftParen))));
    assert_eq!(parser.tree.get_node_type(2), Ok(PTNodeType::NonTerminal(NonTerminalType::List)));
    assert_eq!(parser.tree.get_non_terminal(0).children, vec![2]);
    assert_eq!(parser.tree.get_non_terminal(2).children, vec![1]);
}

#[test]
fn pre_order_follows_the_nesting_of_the_parentheses() {
    let parser = parse("(a (b :c) \"d\" ((e)))\n(f)");
    assert_eq!(parser.open_count(), 1);
    assert_eq!(
        shape(&parser.tree),
        expect(&[
            ("Root", 0),
            ("List", 1),
            ("(", 2),
            ("a", 2),
            ("List", 2),
            ("(", 3),
            ("b", 3),
            (":c", 3),
            (")", 3),
            ("\"d\"", 2),
            ("List", 2),
            ("(", 3),
            ("List", 3),
            ("(", 4),
            ("e", 4),
            (")", 4),
            (")", 3),
            (")", 2),
            ("List", 1),
            ("(", 2),
            ("f", 2),
            (")", 2),
        ])
    );
}

#[test]
fn blanks_at_the_top_level_are_dropped() {
    let parser = parse(" \n\t(a)\n \n");
    assert_eq!(parser.open_count(), 1);
    assert_eq!(
        shape(&parser.tree),
        expect(&[("Root", 0), ("List", 1), ("(", 2), ("a", 2), (")", 2)])
    );
}

#[test]
fn unterminated_string_is_rejected() {
    assert_eq!(rejected("(\"unterminated"), TokenType::Unexpected);
}

#[test]
fn right_paren_at_the_top_level_is_rejected_at_once() {
    assert_eq!(rejected("))"), TokenType::RightParen);
    let mut parser = Parser::new();
    let result = parser.feed(token(TokenType::RightParen));
    assert_eq!(result.err().map(|error| error.token_type().clone()), Some(TokenType::RightParen));
    assert_eq!(parser.open_count(), 1);
    assert_eq!(parser.tree.len(), 1);
    assert!(parser.tree.get_non_terminal(0).children.is_empty());
}

#[test]
fn top_level_takes_lists_and_blanks_only() {
    assert_eq!(rejected("a"), TokenType::Name("a".to_string()));
    assert_eq!(rejected(":a"), TokenType::Symbol("a".to_string()));
    assert_eq!(rejected("\"a\""), TokenType::Str("a".to_string()));
    assert_eq!(rejected("["), TokenType::LeftSqrParen);
    assert_eq!(rejected("]"), TokenType::RightSqrParen);
    assert_eq!(rejected("#"), TokenType::Unexpected);
    assert_eq!(rejected("(a) b"), TokenType::Name("b".to_string()));
}

#[test]
fn list_rejects_square_brackets_and_unexpected_tokens() {
    assert_eq!(rejected("(["), TokenType::LeftSqrParen);
    assert_eq!(rejected("(a ]"), TokenType::RightSqrParen);
    assert_eq!(rejected("(a 1)"), TokenType::Unexpected);
    assert_eq!(rejected("(a \"b\nc\")"), TokenType::Unexpected);
}

#[test]
fn rejected_token_leaves_the_parser_as_it_was() {
    let mut parser = Parser::new();
    parser.feed(token(TokenType::LeftParen)).unwrap();
    parser.feed(token(TokenType::Name("a".to_string()))).unwrap();
    let nodes = parser.tree.len();
    let result = parser.feed(token(TokenType::LeftSqrParen));
    assert_eq!(result.err().map(|error| error.token_type().clone()), Some(TokenType::LeftSqrParen));
    assert_eq!(parser.tree.len(), nodes);
    assert_eq!(parser.open_count(), 2);
    parser.feed(token(TokenType::RightParen)).unwrap();
    assert_eq!(parser.open_count(), 1);
}

#[test]
fn open_count_follows_the_parentheses() {
    for n in 0..12usize {
        let mut parser = Parser::new();
        for i in 0..n {
            parser.feed(token(TokenType::LeftParen)).unwrap();
            assert_eq!(parser.open_count(), i + 2);
        }
        assert_eq!(parser.open_count(), n + 1);
        for i in 0..n {
            parser.feed(token(TokenType::RightParen)).unwrap();
            assert_eq!(parser.open_count(), n - i);
        }
        assert_eq!(parser.open_count(), 1);
        assert!(parser.feed(token(TokenType::RightParen)).is_err());
    }
}

#[test]
fn unclosed_lists_show_in_the_open_count() {
    let parser = parse("(((((");
    assert_eq!(parser.open_count(), 6);
    let parser = parse("((((()))))");
    assert_eq!(parser.open_count(), 1);
    let parser = parse("(a (b");
    assert_eq!(parser.open_count(), 3);
    assert_eq!(
        shape(&parser.tree),
        expect(&[("Root", 0), ("List", 1), ("(", 2), ("a", 2), ("List", 2), ("(", 3), ("b", 3)])
    );
}

#[test]
fn blanks_change_nothing() {
    let mut parser = Parser::new();
    parser.feed(token(TokenType::Whitespace)).unwrap();
    parser.feed(token(TokenType::NewLine)).unwrap();
    assert_eq!(parser.tree.len(), 1);
    parser.feed(token(TokenType::LeftParen)).unwrap();
    let nodes = parser.tree.len();
    parser.feed(token(TokenType::Whitespace)).unwrap();
    parser.feed(token(TokenType::NewLine)).unwrap();
    assert_eq!(parser.tree.len(), nodes);
    assert_eq!(parser.open_count(), 2);
}

#[test]
fn closing_appends_the_right_paren_before_it_pops() {
    let mut parser = Parser::new();
    parser.feed(token(TokenType::LeftParen)).unwrap();
    parser.feed(token(TokenType::LeftParen)).unwrap();
    parser.feed(token(TokenType::RightParen)).unwrap();
    parser.feed(token(TokenType::Symbol("s".to_string()))).unwrap();
    assert_eq!(parser.open_count(), 2);
    let tree = parser.into_tree();
    let outer = tree.get_non_terminal(0).children[0];
    let kinds = child_kinds(&tree, outer);
    assert_eq!(kinds.len(), 3);
    assert_eq!(kinds[0], PTNodeType::Terminal(token(TokenType::LeftParen)));
    assert_eq!(kinds[1], PTNodeType::NonTerminal(NonTerminalType::List));
    assert_eq!(kinds[2], PTNodeType::Terminal(token(TokenType::Symbol("s".to_string()))));
    let inner = tree.get_non_terminal(outer).children[1];
    assert_eq!(
        child_kinds(&tree, inner),
        vec![
            PTNodeType::Terminal(token(TokenType::LeftParen)),
            PTNodeType::Terminal(token(TokenType::RightParen)),
        ]
    );
}

#[test]
fn error_names_its_kind() {
    let mut parser = Parser::new();
    let error = parser.feed(token(TokenType::Unexpected)).err().unwrap();
    assert_eq!(error.description(), "Unexpected token");
    assert_eq!(error.token_type(), &TokenType::Unexpected);
}

/// What the tokens of a well-nested source show in the pre-order of its tree:
/// the root, and for each token that is no blank its own entry, one level
/// below the list that holds it, behind an entry for the list where the
/// token opens one.
fn expected_shape(source: &str) -> Vec<(String, usize)> {
    let mut lexer = Lexer::new(source.as_bytes().to_vec());
    let mut shape = vec![("Root".to_string(), 0)];
    let mut nesting = 0;
    while let Some(token) = lexer.next() {
        match token.token_type {
            TokenType::LeftParen => {
                shape.push(("List".to_string(), nesting + 1));
                shape.push(("(".to_string(), nesting + 2));
                nesting += 1;
            }
            TokenType::RightParen => {
                shape.push((")".to_string(), nesting + 1));
                nesting -= 1;
            }
            TokenType::Name(text) => shape.push((text, nesting + 1)),
            TokenType::Symbol(text) => shape.push((format!(":{}", text), nesting + 1)),
            TokenType::Str(text) => shape.push((format!("\"{}\"", text), nesting + 1)),
            _ => {}
        }
    }
    shape
}

#[test]
fn pre_order_is_what_the_tokens_show() {
    let sources = [
        "",
        "()",
        "(a)",
        "(a b c)",
        "(a (b (c (d (e)))))",
        "((((()))))",
        "(a)(b)(c)",
        " ( a\n  ( b :c \"d e\" )\n  ( ) )\n\n( f )\n",
        "(a (b",
        "(\"(\" \")\" :x)",
    ];
    for source in sources {
        let parser = parse(source);
        assert_eq!(shape(&parser.tree), expected_shape(source), "source {:?}", source);
    }
}
