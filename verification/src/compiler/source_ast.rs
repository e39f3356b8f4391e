//! The syntax tree of a program, built from the parse trees of its files.
//!
//! A file is a sequence of expressions, one for each list at the top level.
//! An expression is a list whose second child, behind the left parenthesis,
//! is the name that is called; the children behind it are the arguments.

use crate::compiler::errors::{AstError, AstErrorView};
use crate::compiler::file_tree::{all_forests, file_views, FTree, FileView};
use crate::compiler::lexer::{Token, TokenKind, TokenType, TokenView};
use crate::compiler::parse_tree::{
    child, children_of, has_child, is_forest, lemma_child, rank, NodeView, NonTerminalType,
    PTDynamicNode, PTNodeType, PTParentNode, PTree,
};
use vstd::prelude::*;

verus! {

/// The kinds of nodes of the syntax tree.
#[derive(Debug, Clone, Copy, PartialEq, Eq, Structural)]
pub enum NodeType {
    AST,
    File,
    Ident,
    Symbol,
    Declaration,
    Expression,
    Str,
}

/// What stands at the top level of a file.
#[derive(Debug)]
pub enum FileBody {
    Expression(ExpressionNode),
}

/// What stands in the body of a declaration.
#[derive(Debug)]
pub enum DeclarationBody {
    Expression(ExpressionNode),
}

/// An argument of an expression. A parenthesis among the children of a list
/// gives `NoArg`.
#[derive(Debug)]
pub enum ExpressionArg {
    Expression(ExpressionNode),
    Symbol(SymbolNode),
    Str(StringNode),
    NoArg,
}

/// What stands at the top level of a program.
#[derive(Debug)]
pub enum ASTBody {
    File(FileNode),
}

/// A string with its text, as the source has it between the quotes.
#[derive(Debug)]
pub struct StringNode {
    pub node_type: NodeType,
    pub value: String,
}

/// A symbol with its name, without the colon.
#[derive(Debug)]
pub struct SymbolNode {
    pub node_type: NodeType,
    pub value: String,
}

/// An identifier with its name.
#[derive(Debug)]
pub struct IdentNode {
    pub node_type: NodeType,
    pub value: String,
}

/// A call: the name that is called and the arguments.
#[derive(Debug)]
pub struct ExpressionNode {
    pub node_type: NodeType,
    pub callee: IdentNode,
    pub args: Vec<ExpressionArg>,
}

/// A declaration: its name, its parameters and its body.
#[derive(Debug)]
pub struct DeclarationNode {
    pub node_type: NodeType,
    pub name: IdentNode,
    pub params: Vec<IdentNode>,
    pub body: Vec<DeclarationBody>,
}

/// A file: its name and the expressions at its top level.
#[derive(Debug)]
pub struct FileNode {
    pub node_type: NodeType,
    pub filename: String,
    pub body: Vec<FileBody>,
}

/// The syntax tree of a program: its files.
#[derive(Debug)]
pub struct AST {
    pub node_type: NodeType,
    pub body: Vec<ASTBody>,
}

/// The mathematical value of an expression: the name that is called and the
/// arguments.
pub struct Expression {
    pub callee: Seq<char>,
    pub args: Seq<Argument>,
}

/// The mathematical value of an argument.
pub enum Argument {
    Expression(Expression),
    Symbol(Seq<char>),
    Str(Seq<char>),
    NoArg,
}

/// The mathematical value of a file: its name and its expressions.
pub struct File {
    pub filename: Seq<char>,
    pub body: Seq<Expression>,
}

impl StringNode {
    /// The node is marked as what it is.
    pub open spec fn tagged(&self) -> bool {
        self.node_type == NodeType::Str
    }
}

impl SymbolNode {
    /// The node is marked as what it is.
    pub open spec fn tagged(&self) -> bool {
        self.node_type == NodeType::Symbol
    }
}

impl IdentNode {
    /// The node is marked as what it is.
    pub open spec fn tagged(&self) -> bool {
        self.node_type == NodeType::Ident
    }
}

impl View for ExpressionNode {
    type V = Expression;

    open spec fn view(&self) -> Expression
        decreases self,
    {
        Expression {
            callee: self.callee.value@,
            args: Seq::new(
                self.args.len() as nat,
                |i: int|
                    if 0 <= i < self.args.len() {
                        self.args[i]@
                    } else {
                        Argument::NoArg
                    },
            ),
        }
    }
}

impl View for ExpressionArg {
    type V = Argument;

    open spec fn view(&self) -> Argument
        decreases self,
    {
        match self {
            ExpressionArg::Expression(expression) => Argument::Expression(expression@),
            ExpressionArg::Symbol(symbol) => Argument::Symbol(symbol.value@),
            ExpressionArg::Str(string) => Argument::Str(string.value@),
            ExpressionArg::NoArg => Argument::NoArg,
        }
    }
}

impl ExpressionNode {
    /// The node and every node below it are marked as what they are.
    pub open spec fn tagged(&self) -> bool
        decreases self,
    {
        &&& self.node_type == NodeType::Expression
        &&& self.callee.tagged()
        &&& forall|i: int| 0 <= i < self.args.len() ==> (#[trigger] self.args[i]).tagged()
    }
}

impl ExpressionArg {
    /// The node and every node below it are marked as what they are.
    pub open spec fn tagged(&self) -> bool
        decreases self,
    {
        match self {
            ExpressionArg::Expression(expression) => expression.tagged(),
            ExpressionArg::Symbol(symbol) => symbol.tagged(),
            ExpressionArg::Str(string) => string.tagged(),
            ExpressionArg::NoArg => true,
        }
    }
}

impl View for FileBody {
    type V = Expression;

    open spec fn view(&self) -> Expression {
        match self {
            FileBody::Expression(expression) => expression@,
        }
    }
}

impl FileBody {
    /// The node and every node below it are marked as what they are.
    pub open spec fn tagged(&self) -> bool {
        match self {
            FileBody::Expression(expression) => expression.tagged(),
        }
    }
}

impl View for FileNode {
    type V = File;

    open spec fn view(&self) -> File {
        File { filename: self.filename@, body: self.body@.map_values(|body: FileBody| body@) }
    }
}

impl FileNode {
    /// The node and every node below it are marked as what they are.
    pub open spec fn tagged(&self) -> bool {
        &&& self.node_type == NodeType::File
        &&& forall|i: int| 0 <= i < self.body.len() ==> (#[trigger] self.body[i]).tagged()
    }
}

impl View for ASTBody {
    type V = File;

    open spec fn view(&self) -> File {
        match self {
            ASTBody::File(file) => file@,
        }
    }
}

impl ASTBody {
    /// The node and every node below it are marked as what they are.
    pub open spec fn tagged(&self) -> bool {
        match self {
            ASTBody::File(file) => file.tagged(),
        }
    }
}

impl View for AST {
    type V = Seq<File>;

    open spec fn view(&self) -> Seq<File> {
        self.body@.map_values(|body: ASTBody| body@)
    }
}

impl AST {
    /// The node and every node below it are marked as what they are.
    pub open spec fn tagged(&self) -> bool {
        &&& self.node_type == NodeType::AST
        &&& forall|i: int| 0 <= i < self.body.len() ==> (#[trigger] self.body[i]).tagged()
    }
}

/// The name that a token gives: the text of a name, and no other token.
pub open spec fn ident_of(token: TokenView) -> Result<Seq<char>, AstErrorView> {
    match token.token_type {
        TokenKind::Name(value) => Ok(value),
        other => Err(AstErrorView::InvalidToken(other)),
    }
}

/// The argument that a token gives: a string or a symbol itself, a
/// parenthesis no argument, and no other token.
pub open spec fn terminal_argument(token: TokenView) -> Result<Argument, AstErrorView> {
    match token.token_type {
        TokenKind::Str(value) => Ok(Argument::Str(value)),
        TokenKind::Symbol(value) => Ok(Argument::Symbol(value)),
        TokenKind::LeftParen => Ok(Argument::NoArg),
        TokenKind::RightParen => Ok(Argument::NoArg),
        other => Err(AstErrorView::InvalidToken(other)),
    }
}

/// The expression that the non-terminal at `node_ref` gives. Its second
/// child is the token of the name that is called; the children behind it
/// give the arguments. The first thing that is wrong decides the error: a
/// missing second child or one that is no token, then the arguments in their
/// order, then the name.
pub open spec fn expression_at(nodes: Seq<NodeView>, node_ref: int) -> Result<
    Expression,
    AstErrorView,
>
    decreases rank(nodes, node_ref), 1nat, 0nat,
{
    let children = children_of(nodes, node_ref);
    if !is_forest(nodes) || !(0 <= node_ref < nodes.len()) || children.len() < 2 {
        Err(AstErrorView::Unexpected)
    } else {
        match nodes[children[1] as int] {
            NodeView::NonTerminal { .. } => Err(AstErrorView::Unexpected),
            NodeView::Terminal(token) => match arguments_at(nodes, node_ref, children.len()) {
                Err(error) => Err(error),
                Ok(args) => match ident_of(token) {
                    Err(error) => Err(error),
                    Ok(callee) => Ok(Expression { callee, args }),
                },
            },
        }
    }
}

/// The arguments that the children of the node at `node_ref` give, from the
/// third child up to the one before `count`.
pub open spec fn arguments_at(nodes: Seq<NodeView>, node_ref: int, count: nat) -> Result<
    Seq<Argument>,
    AstErrorView,
>
    decreases rank(nodes, node_ref), 0nat, count,
{
    if is_forest(nodes) && count > 2 && has_child(nodes, node_ref, count - 1) {
        match arguments_at(nodes, node_ref, (count - 1) as nat) {
            Err(error) => Err(error),
            Ok(args) => {
                proof {
                    lemma_child(nodes, node_ref, count - 1);
                }
                match argument_at(nodes, child(nodes, node_ref, count - 1) as int) {
                    Err(error) => Err(error),
                    Ok(arg) => Ok(args.push(arg)),
                }
            },
        }
    } else {
        Ok(Seq::empty())
    }
}

/// The argument that the node at `node_ref` gives: a token what the token
/// gives, a list its expression, and the root none.
pub open spec fn argument_at(nodes: Seq<NodeView>, node_ref: int) -> Result<Argument, AstErrorView>
    decreases rank(nodes, node_ref), 2nat, 0nat,
{
    match nodes[node_ref] {
        NodeView::Terminal(token) => terminal_argument(token),
        NodeView::NonTerminal { node_type, .. } => match node_type {
            NonTerminalType::List => match expression_at(nodes, node_ref) {
                Err(error) => Err(error),
                Ok(expression) => Ok(Argument::Expression(expression)),
            },
            NonTerminalType::Root => Err(AstErrorView::Invalid),
        },
    }
}

/// The expressions that the first `count` children of the root give. Each
/// of them has to be a list.
pub open spec fn file_body_first(nodes: Seq<NodeView>, count: nat) -> Result<
    Seq<Expression>,
    AstErrorView,
>
    decreases count,
{
    if 0 < count <= children_of(nodes, 0).len() {
        match file_body_first(nodes, (count - 1) as nat) {
            Err(error) => Err(error),
            Ok(body) => match nodes[child(nodes, 0, count - 1) as int] {
                NodeView::Terminal(_) => Err(AstErrorView::Invalid),
                NodeView::NonTerminal { node_type, .. } => match node_type {
                    NonTerminalType::List => match expression_at(
                        nodes,
                        child(nodes, 0, count - 1) as int,
                    ) {
                        Err(error) => Err(error),
                        Ok(expression) => Ok(body.push(expression)),
                    },
                    NonTerminalType::Root => Err(AstErrorView::Invalid),
                },
            },
        }
    } else {
        Ok(Seq::empty())
    }
}

/// The expressions of a file: those that the children of its parse tree's
/// root give. A tree without a non-terminal at ref 0 gives none.
pub open spec fn file_body_of(nodes: Seq<NodeView>) -> Result<Seq<Expression>, AstErrorView> {
    if nodes.len() > 0 && nodes[0] is NonTerminal {
        file_body_first(nodes, children_of(nodes, 0).len())
    } else {
        Err(AstErrorView::Invalid)
    }
}

/// The files that the first `count` of `files` give, up to the first that
/// gives none.
pub open spec fn program_first(files: Seq<FileView>, count: nat) -> Result<Seq<File>, AstErrorView>
    decreases count,
{
    if 0 < count <= files.len() {
        match program_first(files, (count - 1) as nat) {
            Err(error) => Err(error),
            Ok(program) => match file_body_of(files[count - 1].1) {
                Err(error) => Err(error),
                Ok(body) => Ok(program.push(File { filename: files[count - 1].0, body })),
            },
        }
    } else {
        Ok(Seq::empty())
    }
}

/// The program that `files` give: one file for each, in their order.
pub open spec fn program_of(files: Seq<FileView>) -> Result<Seq<File>, AstErrorView> {
    program_first(files, files.len())
}

/// The measure by which the walk over a child ends.
spec fn rank_of(node: PTDynamicNode) -> nat {
    match node {
        PTDynamicNode::Terminal(_) => 0,
        PTDynamicNode::NonTerminal(handle) => rank(handle.nodes(), handle.node_ref() as int),
    }
}

/// The argument that a child gives, as a walk over the children shows it.
spec fn argument_of(node: PTDynamicNode) -> Result<Argument, AstErrorView> {
    match node {
        PTDynamicNode::Terminal(token) => terminal_argument(token@),
        PTDynamicNode::NonTerminal(handle) => argument_at(handle.nodes(), handle.node_ref() as int),
    }
}

impl AST {
    /// Builds the syntax tree of a program from the parse trees of its
    /// files, file by file in their order. Fails with what is wrong in the
    /// first file that is no sequence of expressions.
    pub fn from(file_tree: FTree) -> (ast: Result<AST, AstError>)
        requires
            file_tree.wf(),
        ensures
            match program_of(file_tree@) {
                Ok(program) => ast is Ok && ast->Ok_0@ == program && ast->Ok_0.tagged(),
                Err(error) => ast is Err && ast->Err_0@ == error,
            },
    {
        let ghost files = file_tree@;
        let entries = file_tree.into_entries();
        let mut body_nodes: Vec<ASTBody> = Vec::new();
        proof {
            assert(body_nodes@.map_values(|body: ASTBody| body@) =~= Seq::<File>::empty());
        }
        for entry in it: entries
            invariant
                it.seq() == entries@,
                files == file_tree@,
                file_views(entries@) == files,
                all_forests(files),
                program_first(files, it.index() as nat) == Ok::<Seq<File>, AstErrorView>(
                    body_nodes@.map_values(|body: ASTBody| body@),
                ),
                forall|i: int| 0 <= i < body_nodes@.len() ==> (#[trigger] body_nodes@[i]).tagged(),
        {
            let ghost place = it.index() as int;
            let ghost before = body_nodes@.map_values(|body: ASTBody| body@);
            match map_file(entry) {
                Ok(file) => {
                    body_nodes.push(file);
                    proof {
                        assert(body_nodes@.map_values(|body: ASTBody| body@) =~= before.push(
                            file@,
                        ));
                    }
                },
                Err(error) => {
                    proof {
                        lemma_program_fails(files, place as nat, files.len());
                    }
                    return Err(error);
                },
            }
        }
        Ok(AST { node_type: NodeType::AST, body: body_nodes })
    }
}

/// Once a file gives none, the program gives none, with the same error.
proof fn lemma_program_fails(files: Seq<FileView>, place: nat, count: nat)
    requires
        place < count <= files.len(),
        program_first(files, place) is Ok,
        file_body_of(files[place as int].1) is Err,
    ensures
        program_first(files, count) == Err::<Seq<File>, AstErrorView>(
            file_body_of(files[place as int].1)->Err_0,
        ),
    decreases count,
{
    if count > place + 1 {
        lemma_program_fails(files, place, (count - 1) as nat);
    }
}

/// Once a child of the root gives none, the file gives none, with the same
/// error.
proof fn lemma_file_body_fails(nodes: Seq<NodeView>, place: nat, count: nat, error: AstErrorView)
    requires
        place < count <= children_of(nodes, 0).len(),
        file_body_first(nodes, place) is Ok,
        file_body_first(nodes, place + 1) == Err::<Seq<Expression>, AstErrorView>(error),
    ensures
        file_body_first(nodes, count) == Err::<Seq<Expression>, AstErrorView>(error),
    decreases count,
{
    if count > place + 1 {
        lemma_file_body_fails(nodes, place, (count - 1) as nat, error);
    }
}

/// Once an argument gives none, the arguments give none, with the same
/// error.
proof fn lemma_arguments_fail(
    nodes: Seq<NodeView>,
    node_ref: int,
    place: nat,
    count: nat,
    error: AstErrorView,
)
    requires
        is_forest(nodes),
        0 <= node_ref < nodes.len(),
        2 <= place < count <= children_of(nodes, node_ref).len(),
        arguments_at(nodes, node_ref, place) is Ok,
        arguments_at(nodes, node_ref, place + 1) == Err::<Seq<Argument>, AstErrorView>(error),
    ensures
        arguments_at(nodes, node_ref, count) == Err::<Seq<Argument>, AstErrorView>(error),
    decreases count,
{
    if count > place + 1 {
        lemma_arguments_fail(nodes, node_ref, place, (count - 1) as nat, error);
    }
}

/// The file node of a file with its parse tree.
fn map_file(file: (String, PTree)) -> (node: Result<ASTBody, AstError>)
    requires
        file.1.wf(),
    ensures
        match file_body_of(file.1@) {
            Ok(body) => node is Ok && node->Ok_0@ == (File { filename: file.0@, body })
                && node->Ok_0.tagged(),
            Err(error) => node is Err && node->Err_0@ == error,
        },
{
    let (filename, parse_tree) = file;
    match map_file_body(parse_tree) {
        Ok(body) => Ok(ASTBody::File(FileNode { node_type: NodeType::File, filename, body })),
        Err(error) => Err(error),
    }
}

/// The expressions of a file: one for each child of its parse tree's root.
fn map_file_body(parse_tree: PTree) -> (body: Result<Vec<FileBody>, AstError>)
    requires
        parse_tree.wf(),
    ensures
        match file_body_of(parse_tree@) {
            Ok(expressions) => body is Ok && body->Ok_0@.map_values(|body: FileBody| body@)
                == expressions && forall|i: int|
                0 <= i < body->Ok_0@.len() ==> (#[trigger] body->Ok_0@[i]).tagged(),
            Err(error) => body is Err && body->Err_0@ == error,
        },
{
    let ghost nodes = parse_tree@;
    if parse_tree.len() == 0 {
        return Err(AstError::Invalid);
    }
    match parse_tree.get_node_type(PTree::ROOT_NODE_REF) {
        Ok(PTNodeType::NonTerminal(_)) => {},
        _ => {
            return Err(AstError::Invalid);
        },
    }
    let root_node = parse_tree.get_parent_node(PTree::ROOT_NODE_REF);
    let children = root_node.children_iter();
    let mut body: Vec<FileBody> = Vec::new();
    let mut index: usize = 0;
    proof {
        assert(body@.map_values(|body: FileBody| body@) =~= Seq::<Expression>::empty());
    }
    while index < children.len()
        invariant
            nodes == parse_tree@,
            is_forest(nodes),
            root_node.wf(),
            root_node.nodes() == nodes,
            root_node.node_ref() == 0,
            nodes.len() > 0,
            nodes[0] is NonTerminal,
            root_node.yields(children@),
            index <= children@.len(),
            file_body_first(nodes, index as nat) == Ok::<Seq<Expression>, AstErrorView>(
                body@.map_values(|body: FileBody| body@),
            ),
            forall|i: int| 0 <= i < body@.len() ==> (#[trigger] body@[i]).tagged(),
        decreases children@.len() - index,
    {
        let ghost before = body@.map_values(|body: FileBody| body@);
        match &children[index] {
            PTDynamicNode::Terminal(_) => {
                proof {
                    lemma_file_body_fails(
                        nodes,
                        index as nat,
                        children@.len(),
                        AstErrorView::Invalid,
                    );
                }
                return Err(AstError::Invalid);
            },
            PTDynamicNode::NonTerminal(non_terminal) => {
                match non_terminal.node_type() {
                    NonTerminalType::List => {
                        match map_expression(*non_terminal) {
                            Ok(expression) => {
                                body.push(FileBody::Expression(expression));
                                proof {
                                    assert(body@.map_values(|body: FileBody| body@)
                                        =~= before.push(expression@));
                                }
                            },
                            Err(error) => {
                                proof {
                                    lemma_file_body_fails(
                                        nodes,
                                        index as nat,
                                        children@.len(),
                                        error@,
                                    );
                                }
                                return Err(error);
                            },
                        }
                    },
                    NonTerminalType::Root => {
                        proof {
                            lemma_file_body_fails(
                                nodes,
                                index as nat,
                                children@.len(),
                                AstErrorView::Invalid,
                            );
                        }
                        return Err(AstError::Invalid);
                    },
                }
            },
        }
        index = index + 1;
    }
    Ok(body)
}

/// The identifier that a token names.
fn map_ident(token: Token) -> (ident: Result<IdentNode, AstError>)
    ensures
        match ident_of(token@) {
            Ok(value) => ident is Ok && ident->Ok_0.value@ == value && ident->Ok_0.tagged(),
            Err(error) => ident is Err && ident->Err_0@ == error,
        },
{
    match token.token_type {
        TokenType::Name(name) => Ok(IdentNode { node_type: NodeType::Ident, value: name }),
        other => Err(AstError::InvalidToken(other)),
    }
}

/// The argument that a child of a list gives.
fn map_arg(node: &PTDynamicNode) -> (argument: Result<ExpressionArg, AstError>)
    requires
        node matches PTDynamicNode::NonTerminal(handle) ==> handle.wf(),
    ensures
        match argument_of(*node) {
            Ok(value) => argument is Ok && argument->Ok_0@ == value && argument->Ok_0.tagged(),
            Err(error) => argument is Err && argument->Err_0@ == error,
        },
    decreases rank_of(*node), 2nat,
{
    match node {
        PTDynamicNode::Terminal(token) => match token.clone().token_type {
            TokenType::Str(value) => Ok(
                ExpressionArg::Str(StringNode { node_type: NodeType::Str, value }),
            ),
            TokenType::Symbol(value) => Ok(
                ExpressionArg::Symbol(SymbolNode { node_type: NodeType::Symbol, value }),
            ),
            TokenType::LeftParen => Ok(ExpressionArg::NoArg),
            TokenType::RightParen => Ok(ExpressionArg::NoArg),
            other => Err(AstError::InvalidToken(other)),
        },
        PTDynamicNode::NonTerminal(non_terminal) => {
            match non_terminal.node_type() {
                NonTerminalType::List => match map_expression(*non_terminal) {
                    Ok(expression) => Ok(ExpressionArg::Expression(expression)),
                    Err(error) => Err(error),
                },
                NonTerminalType::Root => Err(AstError::Invalid),
            }
        },
    }
}

/// The expression that a list gives.
fn map_expression<'a>(non_terminal: PTParentNode<'a>) -> (expression: Result<
    ExpressionNode,
    AstError,
>)
    requires
        non_terminal.wf(),
    ensures
        match expression_at(non_terminal.nodes(), non_terminal.node_ref() as int) {
            Ok(value) => expression is Ok && expression->Ok_0@ == value
                && expression->Ok_0.tagged(),
            Err(error) => expression is Err && expression->Err_0@ == error,
        },
    decreases rank(non_terminal.nodes(), non_terminal.node_ref() as int), 1nat,
{
    let ghost nodes = non_terminal.nodes();
    let ghost node_ref = non_terminal.node_ref() as int;
    let children = non_terminal.children_iter();
    if children.len() < 2 {
        return Err(AstError::Unexpected);
    }
    match &children[1] {
        PTDynamicNode::NonTerminal(handle) => {
            return Err(AstError::Unexpected);
        },
        PTDynamicNode::Terminal(_) => {},
    }
    let token = children[1].as_terminal();
    let mut arg_nodes: Vec<ExpressionArg> = Vec::new();
    let mut index: usize = 2;
    while index < children.len()
        invariant
            is_forest(nodes),
            0 <= node_ref < nodes.len(),
            non_terminal.wf(),
            non_terminal.nodes() == nodes,
            non_terminal.node_ref() == node_ref,
            nodes[node_ref] is NonTerminal,
            nodes[child(nodes, node_ref, 1) as int] == NodeView::Terminal(token@),
            non_terminal.yields(children@),
            2 <= index <= children@.len(),
            arguments_at(nodes, node_ref, index as nat) is Ok,
            arguments_at(nodes, node_ref, index as nat)->Ok_0.len() == arg_nodes@.len(),
            forall|i: int|
                0 <= i < arg_nodes@.len() ==> (#[trigger] arg_nodes@[i])@ == arguments_at(
                    nodes,
                    node_ref,
                    index as nat,
                )->Ok_0[i] && arg_nodes@[i].tagged(),
        decreases children@.len() - index,
    {
        proof {
            lemma_child(nodes, node_ref, index as int);
            assert(argument_of(children@[index as int]) == argument_at(
                nodes,
                child(nodes, node_ref, index as int) as int,
            ));
        }
        match map_arg(&children[index]) {
            Ok(arg) => {
                arg_nodes.push(arg);
            },
            Err(error) => {
                proof {
                    lemma_arguments_fail(
                        nodes,
                        node_ref,
                        index as nat,
                        children@.len(),
                        error@,
                    );
                }
                return Err(error);
            },
        }
        index = index + 1;
    }
    match map_ident(token) {
        Ok(callee) => {
            let expression = ExpressionNode {
                node_type: NodeType::Expression,
                callee,
                args: arg_nodes,
            };
            proof {
                assert(expression@.args =~= arguments_at(nodes, node_ref, children@.len())->Ok_0);
            }
            Ok(expression)
        },
        Err(error) => Err(error),
    }
}

} // verus!
