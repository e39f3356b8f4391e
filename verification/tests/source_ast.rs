use lisp_front::compiler::errors::AstError;
use lisp_front::compiler::file_tree::FTree;
use lisp_front::compiler::lexer::TokenType;
use lisp_front::compiler::parse_source;
use lisp_front::compiler::parse_tree::{NonTerminalType, PTNode, PTNonTerminal, PTree};
use lisp_front::compiler::source_ast::{
    ASTBody, ExpressionArg, ExpressionNode, FileBody, FileNode, NodeType, AST,
};

fn tree_of(source: &str) -> PTree {
    match parse_source(source.as_bytes().to_vec()) {
        Ok(parser) => parser.into_tree(),
        Err(error) => panic!("unexpected token {:?}", error.token_type()),
    }
}

fn program(files: &[(&str, &str)]) -> Result<AST, AstError> {
    let results = files.iter().map(|(name, source)| (name.to_string(), tree_of(source))).collect();
    AST::from(FTree::new(results))
}

fn file(ast: &AST, index: usize) -> &FileNode {
    match &ast.body[index] {
        ASTBody::File(file) => file,
    }
}

fn expression(file: &FileNode, index: usize) -> &ExpressionNode {
    match &file.body[index] {
        FileBody::Expression(expression) => expression,
    }
}

fn failure(source: &str) -> AstError {
    match program(&[("main", source)]) {
        Ok(_) => panic!("the source gave a syntax tree"),
        Err(error) => error,
    }
}

#[test]
fn file_tree_keeps_the_files_in_their_order() {
    let files = FTree::new(vec![
        ("b".to_string(), tree_of("(x)")),
        ("a".to_string(), tree_of("")),
        ("c".to_string(), tree_of("(y) (z)")),
    ]);
    assert_eq!(files.len(), 3);
    let entries = files.into_entries();
    let names: Vec<&str> = entries.iter().map(|(name, _)| name.as_str()).collect();
    assert_eq!(names, vec!["b", "a", "c"]);
    let sizes: Vec<usize> = entries.iter().map(|(_, tree)| tree.len()).collect();
    assert_eq!(sizes, vec![5, 1, 9]);
}

#[test]
fn file_tree_keeps_the_last_tree_of_a_name() {
    let files = FTree::new(vec![
        ("a".to_string(), tree_of("(x)")),
        ("b".to_string(), tree_of("")),
        ("a".to_string(), tree_of("(y) (z)")),
        ("b".to_string(), tree_of("(w)")),
        ("a".to_string(), tree_of("")),
    ]);
    assert_eq!(files.len(), 2);
    let entries = files.into_entries();
    assert_eq!(entries[0].0, "a");
    assert_eq!(entries[0].1.len(), 1);
    assert_eq!(entries[1].0, "b");
    assert_eq!(entries[1].1.len(), 5);
}

#[test]
fn empty_file_tree() {
    let files = FTree::new(Vec::new());
    assert_eq!(files.len(), 0);
    let ast = AST::from(files).unwrap();
    assert_eq!(ast.node_type, NodeType::AST);
    assert!(ast.body.is_empty());
}

#[test]
fn call_with_symbol_and_string_arguments() {
    let ast = program(&[("main.lisp", "(foo :bar \"baz\")")]).unwrap();
    assert_eq!(ast.node_type, NodeType::AST);
    assert_eq!(ast.body.len(), 1);
    let file = file(&ast, 0);
    assert_eq!(file.node_type, NodeType::File);
    assert_eq!(file.filename, "main.lisp");
    assert_eq!(file.body.len(), 1);
    let call = expression(file, 0);
    assert_eq!(call.node_type, NodeType::Expression);
    assert_eq!(call.callee.node_type, NodeType::Ident);
    assert_eq!(call.callee.value, "foo");
    assert_eq!(call.args.len(), 3);
    match &call.args[0] {
        ExpressionArg::Symbol(symbol) => {
            assert_eq!(symbol.node_type, NodeType::Symbol);
            assert_eq!(symbol.value, "bar");
        }
        other => panic!("not a symbol: {:?}", other),
    }
    match &call.args[1] {
        ExpressionArg::Str(string) => {
            assert_eq!(string.node_type, NodeType::Str);
            assert_eq!(string.value, "baz");
        }
        other => panic!("not a string: {:?}", other),
    }
    assert!(matches!(call.args[2], ExpressionArg::NoArg));
}

#[test]
fn nested_calls_become_nested_expressions() {
    let ast = program(&[("m", "(f (g :a) \"s\" (h))\n(k)")]).unwrap();
    let file = file(&ast, 0);
    assert_eq!(file.body.len(), 2);
    let f = expression(file, 0);
    assert_eq!(f.callee.value, "f");
    assert_eq!(f.args.len(), 4);
    match &f.args[0] {
        ExpressionArg::Expression(g) => {
            assert_eq!(g.node_type, NodeType::Expression);
            assert_eq!(g.callee.value, "g");
            assert_eq!(g.args.len(), 2);
            assert!(matches!(&g.args[0], ExpressionArg::Symbol(symbol) if symbol.value == "a"));
            assert!(matches!(g.args[1], ExpressionArg::NoArg));
        }
        other => panic!("not an expression: {:?}", other),
    }
    assert!(matches!(&f.args[1], ExpressionArg::Str(string) if string.value == "s"));
    match &f.args[2] {
        ExpressionArg::Expression(h) => {
            assert_eq!(h.callee.value, "h");
            assert_eq!(h.args.len(), 1);
        }
        other => panic!("not an expression: {:?}", other),
    }
    assert!(matches!(f.args[3], ExpressionArg::NoArg));
    let k = expression(file, 1);
    assert_eq!(k.callee.value, "k");
    assert_eq!(k.args.len(), 1);
}

#[test]
fn list_that_is_still_open_has_no_closing_argument() {
    let ast = program(&[("m", "(f :a")]).unwrap();
    let f = expression(file(&ast, 0), 0);
    assert_eq!(f.callee.value, "f");
    assert_eq!(f.args.len(), 1);
    assert!(matches!(&f.args[0], ExpressionArg::Symbol(symbol) if symbol.value == "a"));
}

#[test]
fn files_come_in_the_order_of_the_file_tree() {
    let ast = program(&[("one", "(a)"), ("two", ""), ("three", "(b) (c)")]).unwrap();
    assert_eq!(ast.body.len(), 3);
    assert_eq!(file(&ast, 0).filename, "one");
    assert_eq!(file(&ast, 1).filename, "two");
    assert_eq!(file(&ast, 2).filename, "three");
    assert!(file(&ast, 1).body.is_empty());
    assert_eq!(expression(file(&ast, 2), 1).callee.value, "c");
}

#[test]
fn list_without_a_callee_is_unexpected() {
    assert_eq!(failure("("), AstError::Unexpected);
    assert_eq!(failure("(f ("), AstError::Unexpected);
}

#[test]
fn list_in_the_place_of_the_callee_is_unexpected() {
    assert_eq!(failure("((f))"), AstError::Unexpected);
}

#[test]
fn callee_has_to_be_a_name() {
    assert_eq!(failure("()"), AstError::InvalidToken(TokenType::RightParen));
    assert_eq!(failure("(:f)"), AstError::InvalidToken(TokenType::Symbol("f".to_string())));
    assert_eq!(failure("(\"f\")"), AstError::InvalidToken(TokenType::Str("f".to_string())));
}

#[test]
fn name_is_no_argument() {
    assert_eq!(failure("(f x)"), AstError::InvalidToken(TokenType::Name("x".to_string())));
    assert_eq!(failure("(f :a (g y))"), AstError::InvalidToken(TokenType::Name("y".to_string())));
}

#[test]
fn arguments_are_checked_before_the_callee() {
    assert_eq!(failure("(:f x)"), AstError::InvalidToken(TokenType::Name("x".to_string())));
}

#[test]
fn first_file_that_is_wrong_decides() {
    let result = program(&[("one", "(a)"), ("two", "(f x)"), ("three", "()")]);
    assert_eq!(result.err(), Some(AstError::InvalidToken(TokenType::Name("x".to_string()))));
}

#[test]
fn tree_without_a_root_non_terminal_is_invalid() {
    let empty = PTree::new();
    assert_eq!(AST::from(FTree::new(vec![("e".to_string(), empty)])).err(), Some(AstError::Invalid));
}

#[test]
fn root_with_a_child_that_is_no_list_is_invalid() {
    let token = lisp_front::compiler::lexer::Token {
        token_type: TokenType::Name("a".to_string()),
        metadata: lisp_front::compiler::lexer::TokenMetadata {
            start_line: 1,
            start_col: 1,
            end_line: 1,
            end_col: 2,
        },
    };
    let mut with_terminal = PTree::new();
    with_terminal.add_node(&PTNode::NonTerminal(PTNonTerminal::new(NonTerminalType::Root, None)));
    with_terminal.add_to_node(0, PTNode::Terminal(token)).unwrap();
    assert_eq!(
        AST::from(FTree::new(vec![("t".to_string(), with_terminal)])).err(),
        Some(AstError::Invalid)
    );
    let mut with_root = PTree::new();
    with_root.add_node(&PTNode::NonTerminal(PTNonTerminal::new(NonTerminalType::Root, None)));
    with_root
        .add_to_node(0, PTNode::NonTerminal(PTNonTerminal::new(NonTerminalType::Root, None)))
        .unwrap();
    assert_eq!(
        AST::from(FTree::new(vec![("r".to_string(), with_root)])).err(),
        Some(AstError::Invalid)
    );
}

#[test]
fn parse_builds_the_syntax_tree_of_the_sources() {
    let sources = vec![
        ("one".to_string(), b"(f :a)".to_vec()),
        ("two".to_string(), b"(g \"s\")\n(h)".to_vec()),
    ];
    let ast = lisp_front::compiler::parse(sources).unwrap();
    assert_eq!(ast.node_type, NodeType::AST);
    assert_eq!(ast.body.len(), 2);
    assert_eq!(file(&ast, 0).filename, "one");
    assert_eq!(expression(file(&ast, 0), 0).callee.value, "f");
    assert_eq!(file(&ast, 1).body.len(), 2);
    assert_eq!(expression(file(&ast, 1), 1).callee.value, "h");
}

#[test]
fn parse_keeps_the_last_source_of_a_name() {
    let sources = vec![
        ("one".to_string(), b"(f)".to_vec()),
        ("two".to_string(), b"(g)".to_vec()),
        ("one".to_string(), b"(h)".to_vec()),
    ];
    let ast = lisp_front::compiler::parse(sources).unwrap();
    assert_eq!(ast.body.len(), 2);
    assert_eq!(file(&ast, 0).filename, "one");
    assert_eq!(expression(file(&ast, 0), 0).callee.value, "h");
    assert_eq!(file(&ast, 1).filename, "two");
}

#[test]
fn parse_fails_on_the_first_rejected_token() {
    let sources = vec![
        ("one".to_string(), b"(f)".to_vec()),
        ("two".to_string(), b"(g ]".to_vec()),
        ("three".to_string(), b")".to_vec()),
    ];
    match lisp_front::compiler::parse(sources) {
        Err(lisp_front::compiler::errors::ParseError::UnexpectedToken(error)) => {
            assert_eq!(error.token_type(), &TokenType::RightSqrParen)
        }
        other => panic!("not an unexpected token: {:?}", other),
    }
}

#[test]
fn parse_fails_on_a_tree_that_is_no_program() {
    let sources = vec![("one".to_string(), b"(f x)".to_vec())];
    match lisp_front::compiler::parse(sources) {
        Err(lisp_front::compiler::errors::ParseError::InvalidProgram(error)) => {
            assert_eq!(error, AstError::InvalidToken(TokenType::Name("x".to_string())))
        }
        other => panic!("not an invalid program: {:?}", other),
    }
}

#[test]
fn rejected_token_comes_before_an_invalid_program() {
    let sources = vec![
        ("one".to_string(), b"(f x)".to_vec()),
        ("two".to_string(), b"#".to_vec()),
    ];
    match lisp_front::compiler::parse(sources) {
        Err(lisp_front::compiler::errors::ParseError::UnexpectedToken(error)) => {
            assert_eq!(error.token_type(), &TokenType::Unexpected)
        }
        other => panic!("not an unexpected token: {:?}", other),
    }
}

#[test]
fn parse_of_no_sources_is_an_empty_program() {
    let ast = lisp_front::compiler::parse(Vec::new()).unwrap();
    assert!(ast.body.is_empty());
}
