//! The parser: a state machine that takes one token at a time and builds the
//! parse tree, with an explicit stack of the nodes that are still open.

use crate::compiler::errors::UnexpectedTokenError;
use crate::compiler::lexer::{Token, TokenKind, TokenType, TokenView};
use crate::compiler::parse_tree::{
    graft, grafted, grows_into, inline_views, is_forest, is_last_child_path, is_rooted,
    lemma_graft_path, lemma_graft_preorder, lemma_path_prefix, preorder, NodeKind, NodeView,
    NonTerminalType, PTNode, PTNodeType, PTNonTerminal, PTree, Subtree,
};
use vstd::prelude::*;

verus! {

/// What the parser does with a token.
pub enum Step {
    /// Nothing: the token is dropped.
    Skip,
    /// The token is refused and parsing ends.
    Reject,
    /// A new non-terminal of the given kind is opened with the token as its
    /// first child.
    Open(NonTerminalType),
    /// The token becomes the last child of the open node, which is closed.
    Close,
    /// The token becomes a child of the open node.
    Append,
}

/// The transition table: what the parser does with a token of kind `kind`
/// in state `state`.
pub open spec fn step_in(state: NonTerminalType, kind: TokenKind) -> Step {
    match state {
        NonTerminalType::Root => match kind {
            TokenKind::NewLine => Step::Skip,
            TokenKind::Whitespace => Step::Skip,
            TokenKind::LeftParen => Step::Open(NonTerminalType::List),
            _ => Step::Reject,
        },
        NonTerminalType::List => match kind {
            TokenKind::NewLine => Step::Skip,
            TokenKind::Whitespace => Step::Skip,
            TokenKind::Symbol(_) => Step::Append,
            TokenKind::Name(_) => Step::Append,
            TokenKind::Str(_) => Step::Append,
            TokenKind::LeftParen => Step::Open(NonTerminalType::List),
            TokenKind::RightParen => Step::Close,
            _ => Step::Reject,
        },
    }
}

/// A step together with the token that it is taken for.
pub enum ParserAction {
    NoAction,
    UnexpectedToken(Token),
    BeginNonTerminal(NonTerminalType, Token),
    EndNonTerminal(Token),
    Terminal(Token),
}

/// The action that takes `step` for `token`.
pub open spec fn action_for(step: Step, token: Token) -> ParserAction {
    match step {
        Step::Skip => ParserAction::NoAction,
        Step::Reject => ParserAction::UnexpectedToken(token),
        Step::Open(node_type) => ParserAction::BeginNonTerminal(node_type, token),
        Step::Close => ParserAction::EndNonTerminal(token),
        Step::Append => ParserAction::Terminal(token),
    }
}

/// The subtree that a step inserts under the open node for `token`, if any.
pub open spec fn inserted(step: Step, token: TokenView) -> Option<Subtree> {
    match step {
        Step::Skip => None,
        Step::Reject => None,
        Step::Open(node_type) => Some(Subtree::NonTerminal(node_type, seq![Subtree::Terminal(token)])),
        Step::Close => Some(Subtree::Terminal(token)),
        Step::Append => Some(Subtree::Terminal(token)),
    }
}

/// The open stack after a step that inserted `child`.
pub open spec fn stack_after(step: Step, stack: Seq<usize>, child: usize) -> Seq<usize> {
    match step {
        Step::Open(_) => stack.push(child),
        Step::Close => stack.drop_last(),
        _ => stack,
    }
}

/// What a step adds to the pre-order of the whole tree when it is taken for
/// `token` with `open` lists open: the pre-order of the subtree that it
/// inserts, whose root lies one level below the open node.
pub open spec fn visits_for(step: Step, token: TokenView, open: nat) -> Seq<(NodeKind, nat)> {
    match inserted(step, token) {
        Some(tree) => tree.preorder(open + 1),
        None => Seq::empty(),
    }
}

/// The state in which the parser is when `open` lists are open.
pub open spec fn state_at(open: nat) -> NonTerminalType {
    if open == 0 {
        NonTerminalType::Root
    } else {
        NonTerminalType::List
    }
}

/// The mathematical value of a parser: the nodes of its tree and the refs of
/// the open nodes, the root first.
pub struct ParserView {
    pub nodes: Seq<NodeView>,
    pub open: Seq<usize>,
}

/// The state that a parser is in: `Root` at the top level, `List` inside an
/// open list.
pub open spec fn state_of(parser: ParserView) -> NonTerminalType {
    state_at((parser.open.len() - 1) as nat)
}

/// The parser at the start: the root alone, which is open.
pub open spec fn start() -> ParserView {
    ParserView {
        nodes: seq![
            NodeView::NonTerminal { node_type: NonTerminalType::Root, children: Seq::empty() },
        ],
        open: seq![0usize],
    }
}

/// The state machine: the parser after `token`. A token that inserts
/// nothing, because it is dropped or because it is rejected, leaves the
/// parser as it was. Any other is inserted under the node on top of the
/// stack, as a terminal or as the first child of a new list; the new list
/// is pushed on the stack, and a token that closes the open node pops it.
pub open spec fn after(parser: ParserView, token: TokenView) -> ParserView {
    let step = step_in(state_of(parser), token.token_type);
    match inserted(step, token) {
        None => parser,
        Some(tree) => {
            let nodes = graft(parser.nodes, parser.open.last() as int, tree);
            ParserView { nodes, open: stack_after(step, parser.open, (nodes.len() - 1) as usize) }
        },
    }
}

/// The parser after all of `tokens`, fed to it from the start.
pub open spec fn after_all(tokens: Seq<TokenView>) -> ParserView
    decreases tokens.len(),
{
    if tokens.len() == 0 {
        start()
    } else {
        after(after_all(tokens.drop_last()), tokens.last())
    }
}

/// By how much a token of kind `kind` changes the number of open lists.
pub open spec fn nesting_change(kind: TokenKind) -> int {
    match kind {
        TokenKind::LeftParen => 1,
        TokenKind::RightParen => -1,
        _ => 0,
    }
}

/// The nesting behind `tokens`: the number of left parentheses among them
/// less the number of right parentheses.
pub open spec fn nesting(tokens: Seq<TokenView>) -> int
    decreases tokens.len(),
{
    if tokens.len() == 0 {
        0
    } else {
        nesting(tokens.drop_last()) + nesting_change(tokens.last().token_type)
    }
}

/// The grammar, token by token: whether a token of kind `kind` may stand
/// where `nesting` lists are open. Blanks and a left parenthesis may stand
/// anywhere; names, symbols, strings and a right parenthesis only inside a
/// list; nothing else anywhere.
pub open spec fn allowed(nesting: int, kind: TokenKind) -> bool {
    match kind {
        TokenKind::Whitespace => nesting >= 0,
        TokenKind::NewLine => nesting >= 0,
        TokenKind::LeftParen => nesting >= 0,
        TokenKind::RightParen => nesting >= 1,
        TokenKind::Name(_) => nesting >= 1,
        TokenKind::Symbol(_) => nesting >= 1,
        TokenKind::Str(_) => nesting >= 1,
        _ => false,
    }
}

/// Whether the token at `index` may stand where it stands.
pub open spec fn allowed_at(tokens: Seq<TokenView>, index: int) -> bool {
    allowed(nesting(tokens.take(index)), tokens[index].token_type)
}

/// Whether every token of `tokens` may stand where it stands: the
/// parentheses are never closed more often than opened, and what is not a
/// blank stands inside them.
pub open spec fn well_nested(tokens: Seq<TokenView>) -> bool {
    forall|index: int| 0 <= index < tokens.len() ==> #[trigger] allowed_at(tokens, index)
}

/// Whether the token at `index` is the first that may not stand where it
/// stands.
pub open spec fn rejected_at(tokens: Seq<TokenView>, index: int) -> bool {
    &&& 0 <= index < tokens.len()
    &&& well_nested(tokens.take(index))
    &&& !allowed_at(tokens, index)
}

/// The place of the first token that may not stand where it stands, in a
/// sequence that is not well nested.
pub open spec fn first_rejected(tokens: Seq<TokenView>) -> int {
    choose|index: int| rejected_at(tokens, index)
}

/// Only one token is the first that may not stand where it stands.
pub proof fn lemma_rejected_unique(tokens: Seq<TokenView>, index: int)
    requires
        rejected_at(tokens, index),
    ensures
        first_rejected(tokens) == index,
        !well_nested(tokens),
{
    let other = first_rejected(tokens);
    if other < index {
        assert(allowed_at(tokens.take(index), other));
        assert(tokens.take(index).take(other) =~= tokens.take(other));
    } else if index < other {
        assert(allowed_at(tokens.take(other), index));
        assert(tokens.take(other).take(index) =~= tokens.take(index));
    }
}

/// What a token that stands where `nesting` lists are open shows in the
/// pre-order of the tree: a left parenthesis the list that it opens, one
/// level below the open node, and itself below that list; a name, symbol,
/// string or right parenthesis itself, one level below the open node; a
/// blank nothing.
pub open spec fn nested_visit(nesting: int, token: TokenView) -> Seq<(NodeKind, nat)> {
    match token.token_type {
        TokenKind::LeftParen => seq![
            (NodeKind::NonTerminal(NonTerminalType::List), (nesting + 1) as nat),
            (NodeKind::Terminal(token), (nesting + 2) as nat),
        ],
        TokenKind::RightParen => seq![(NodeKind::Terminal(token), (nesting + 1) as nat)],
        TokenKind::Name(_) => seq![(NodeKind::Terminal(token), (nesting + 1) as nat)],
        TokenKind::Symbol(_) => seq![(NodeKind::Terminal(token), (nesting + 1) as nat)],
        TokenKind::Str(_) => seq![(NodeKind::Terminal(token), (nesting + 1) as nat)],
        _ => Seq::empty(),
    }
}

/// What `tokens` show in the pre-order of the tree, below the root.
pub open spec fn nested_visits(tokens: Seq<TokenView>) -> Seq<(NodeKind, nat)>
    decreases tokens.len(),
{
    if tokens.len() == 0 {
        Seq::empty()
    } else {
        nested_visits(tokens.drop_last()) + nested_visit(
            nesting(tokens.drop_last()),
            tokens.last(),
        )
    }
}

/// The transition table is the grammar: with the nodes of `stack` open, the
/// root among them, the parser rejects a token exactly where the grammar
/// does not allow it; a token that it takes changes the number of open nodes
/// as the grammar counts them and shows in the pre-order what the grammar
/// says.
pub proof fn lemma_step_follows_grammar(stack: Seq<usize>, child: usize, token: TokenView)
    requires
        stack.len() >= 1,
    ensures
        step_in(state_at((stack.len() - 1) as nat), token.token_type) is Reject <==> !allowed(
            stack.len() - 1,
            token.token_type,
        ),
        allowed(stack.len() - 1, token.token_type) ==> {
            &&& stack_after(
                step_in(state_at((stack.len() - 1) as nat), token.token_type),
                stack,
                child,
            ).len() == stack.len() + nesting_change(token.token_type)
            &&& visits_for(
                step_in(state_at((stack.len() - 1) as nat), token.token_type),
                token,
                (stack.len() - 1) as nat,
            ) == nested_visit(stack.len() - 1, token)
        },
{
    reveal_with_fuel(Subtree::preorder, 2);
    reveal_with_fuel(Subtree::preorder_first, 2);
}

/// A sequence of tokens stays well nested when a token that may stand behind
/// it is added, and only then.
pub proof fn lemma_well_nested_push(tokens: Seq<TokenView>, token: TokenView)
    ensures
        well_nested(tokens.push(token)) <==> well_nested(tokens) && allowed(
            nesting(tokens),
            token.token_type,
        ),
        nesting(tokens.push(token)) == nesting(tokens) + nesting_change(token.token_type),
        nested_visits(tokens.push(token)) == nested_visits(tokens) + nested_visit(
            nesting(tokens),
            token,
        ),
{
    let longer = tokens.push(token);
    assert(longer.drop_last() =~= tokens);
    if well_nested(longer) {
        assert(allowed_at(longer, tokens.len() as int));
        assert forall|index: int| 0 <= index < tokens.len() implies #[trigger] allowed_at(
            tokens,
            index,
        ) by {
            assert(allowed_at(longer, index));
            assert(longer.take(index) =~= tokens.take(index));
        }
    }
    if well_nested(tokens) && allowed(nesting(tokens), token.token_type) {
        assert forall|index: int| 0 <= index < longer.len() implies #[trigger] allowed_at(
            longer,
            index,
        ) by {
            if index < tokens.len() {
                assert(allowed_at(tokens, index));
                assert(longer.take(index) =~= tokens.take(index));
            }
        }
    }
}

/// Behind a well-nested sequence no more lists are closed than were opened.
pub proof fn lemma_nesting_of_well_nested(tokens: Seq<TokenView>)
    requires
        well_nested(tokens),
    ensures
        nesting(tokens) >= 0,
    decreases tokens.len(),
{
    if tokens.len() > 0 {
        let front = tokens.drop_last();
        assert(front.push(tokens.last()) =~= tokens);
        lemma_well_nested_push(front, tokens.last());
    }
}

/// After well-nested tokens the parser holds one open node more than the
/// nesting behind them.
pub proof fn lemma_open_count(tokens: Seq<TokenView>)
    requires
        well_nested(tokens),
    ensures
        after_all(tokens).open.len() == 1 + nesting(tokens),
    decreases tokens.len(),
{
    if tokens.len() > 0 {
        let front = tokens.drop_last();
        let last = tokens.last();
        assert(front.push(last) =~= tokens);
        lemma_well_nested_push(front, last);
        lemma_open_count(front);
    }
}

/// Left parentheses alone are well nested and each opens one list; as many
/// right parentheses behind them, or fewer, are well nested too and each
/// closes one.
pub proof fn lemma_nesting_of_parens(opening: Seq<TokenView>, closing: Seq<TokenView>)
    requires
        forall|i: int| 0 <= i < opening.len() ==> (#[trigger] opening[i]).token_type is LeftParen,
        forall|i: int| 0 <= i < closing.len() ==> (#[trigger] closing[i]).token_type is RightParen,
        closing.len() <= opening.len(),
    ensures
        well_nested(opening),
        nesting(opening) == opening.len(),
        after_all(opening).open.len() == opening.len() + 1,
        well_nested(opening + closing),
        nesting(opening + closing) == opening.len() - closing.len(),
        after_all(opening + closing).open.len() == opening.len() - closing.len() + 1,
{
    lemma_parens_well_nested(opening, closing);
    lemma_open_count(opening);
    lemma_open_count(opening + closing);
}

/// Left parentheses and as many right parentheses behind them, or fewer, are
/// well nested.
proof fn lemma_parens_well_nested(opening: Seq<TokenView>, closing: Seq<TokenView>)
    requires
        forall|i: int| 0 <= i < opening.len() ==> (#[trigger] opening[i]).token_type is LeftParen,
        forall|i: int| 0 <= i < closing.len() ==> (#[trigger] closing[i]).token_type is RightParen,
        closing.len() <= opening.len(),
    ensures
        well_nested(opening),
        nesting(opening) == opening.len(),
        well_nested(opening + closing),
        nesting(opening + closing) == opening.len() - closing.len(),
    decreases opening.len() + closing.len(),
{
    if closing.len() > 0 {
        let front = closing.drop_last();
        lemma_parens_well_nested(opening, front);
        lemma_well_nested_push(opening + front, closing.last());
        assert((opening + front).push(closing.last()) =~= opening + closing);
    } else if opening.len() > 0 {
        let front = opening.drop_last();
        lemma_parens_well_nested(front, closing);
        lemma_well_nested_push(front, opening.last());
        assert(front.push(opening.last()) =~= opening);
    }
}

/// What holds of a parser at all times: its tree is one tree rooted at ref
/// 0, and the open stack is a path in it that starts at the root and leads
/// through last children, with the root under it and lists above. So the
/// stack is never empty and its top is a non-terminal.
pub open spec fn is_parser(parser: ParserView) -> bool {
    &&& is_forest(parser.nodes)
    &&& is_rooted(parser.nodes)
    &&& is_last_child_path(parser.nodes, parser.open)
    &&& parser.open[0] == 0
    &&& forall|j: int|
        0 <= j < parser.open.len() ==> (#[trigger] parser.nodes[parser.open[j] as int]).kind()
            == NodeKind::NonTerminal(state_at(j as nat))
}

/// The tree under construction and the stack of open nodes: the path from
/// the root to the node that takes the next child.
#[derive(Debug)]
pub struct Parser {
    pub tree: PTree,
    state: Vec<usize>,
}

impl View for Parser {
    type V = ParserView;

    closed spec fn view(&self) -> ParserView {
        ParserView { nodes: self.tree@, open: self.state@ }
    }
}

impl Parser {
    /// The parser holds what holds of a parser at all times.
    pub open spec fn wf(&self) -> bool {
        is_parser(self@)
    }

    /// A parser at the start: the tree holds the root alone, which is open.
    pub fn new() -> (parser: Parser)
        ensures
            parser.wf(),
            parser@ == start(),
            preorder(parser@.nodes, 0, 0) == seq![
                (NodeKind::NonTerminal(NonTerminalType::Root), 0nat),
            ],
    {
        let mut tree = PTree::new();
        let root = PTNode::NonTerminal(PTNonTerminal::new(NonTerminalType::Root, None));
        let root_ref = tree.add_node(&root);
        let mut state: Vec<usize> = Vec::new();
        state.push(root_ref);
        let parser = Parser { tree, state };
        proof {
            let none: Option<Vec<PTNode>> = None;
            let kids = inline_views(none);
            assert(Seq::new(0, |i: int| Subtree::root_ref(kids, 0, i) as usize)
                =~= Seq::<usize>::empty());
            assert(root@.flatten(0) =~= seq![
                NodeView::NonTerminal { node_type: NonTerminalType::Root, children: Seq::empty() },
            ]);
        }
        parser
    }

    /// How many nodes are open, the root among them: 1 at the top level, and
    /// one more for each list that is not closed yet.
    pub fn open_count(&self) -> (count: usize)
        ensures
            count == self@.open.len(),
    {
        self.state.len()
    }

    /// The parse tree, once the last token is fed.
    pub fn into_tree(self) -> (tree: PTree)
        ensures
            tree@ == self@.nodes,
    {
        self.tree
    }

    fn current_state_ref(&self) -> (top: usize)
        requires
            self.wf(),
        ensures
            top == self@.open.last(),
            top < self@.nodes.len(),
    {
        self.state[self.state.len() - 1]
    }

    fn current_state_type(&self) -> (state: NonTerminalType)
        requires
            self.wf(),
        ensures
            state == state_of(self@),
    {
        let current_state_ref = self.current_state_ref();
        match self.tree.get_node_type(current_state_ref) {
            Ok(PTNodeType::NonTerminal(node_type)) => node_type,
            _ => vstd::pervasive::unreached(),
        }
    }

    fn handle_default_state(token: Token) -> (action: ParserAction)
        ensures
            action == action_for(step_in(NonTerminalType::Root, token@.token_type), token),
    {
        match token.token_type {
            TokenType::NewLine => ParserAction::NoAction,
            TokenType::Whitespace => ParserAction::NoAction,
            TokenType::LeftParen => ParserAction::BeginNonTerminal(NonTerminalType::List, token),
            _ => ParserAction::UnexpectedToken(token),
        }
    }

    fn handle_list_state(token: Token) -> (action: ParserAction)
        ensures
            action == action_for(step_in(NonTerminalType::List, token@.token_type), token),
    {
        match token.token_type {
            TokenType::NewLine => ParserAction::NoAction,
            TokenType::Whitespace => ParserAction::NoAction,
            TokenType::Symbol(_) => ParserAction::Terminal(token),
            TokenType::Name(_) => ParserAction::Terminal(token),
            TokenType::Str(_) => ParserAction::Terminal(token),
            TokenType::LeftParen => ParserAction::BeginNonTerminal(NonTerminalType::List, token),
            TokenType::RightParen => ParserAction::EndNonTerminal(token),
            _ => ParserAction::UnexpectedToken(token),
        }
    }

    /// Inserts `node` as the last child of the open node.
    fn add_to_current(&mut self, node: PTNode) -> (child: usize)
        requires
            old(self).wf(),
        ensures
            is_forest(final(self)@.nodes),
            is_rooted(final(self)@.nodes),
            final(self)@.open == old(self)@.open,
            grafted(
                old(self)@.nodes,
                final(self)@.nodes,
                old(self)@.open.last() as int,
                node@,
                child,
            ),
            grows_into(old(self)@.nodes, final(self)@.nodes),
            is_last_child_path(final(self)@.nodes, final(self)@.open),
            node@ is NonTerminal ==> is_last_child_path(
                final(self)@.nodes,
                final(self)@.open.push(child),
            ),
            forall|j: int|
                0 <= j < old(self)@.open.len() ==> (
                #[trigger] final(self)@.nodes[old(self)@.open[j] as int]).kind()
                    == NodeKind::NonTerminal(state_at(j as nat)),
            final(self)@.nodes[child as int].kind() == node@.preorder(0)[0].0,
            child == final(self)@.nodes.len() - 1,
            preorder(final(self)@.nodes, 0, 0) == preorder(old(self)@.nodes, 0, 0)
                + node@.preorder(old(self)@.open.len()),
    {
        let ghost before = self.tree@;
        let current_state_ref = self.current_state_ref();
        match self.tree.add_to_node(current_state_ref, node) {
            Ok(child) => {
                proof {
                    lemma_graft_path(before, self.tree@, self.state@, node@, child);
                    lemma_graft_preorder(before, self.tree@, self.state@, node@, child, 0);
                }
                child
            },
            Err(_) => vstd::pervasive::unreached(),
        }
    }

    /// Opens `non_terminal` as the last child of the open node and makes it
    /// the open node.
    fn new_parser_state(&mut self, non_terminal: PTNonTerminal)
        requires
            old(self).wf(),
            non_terminal@ matches Subtree::NonTerminal(node_type, _) && node_type
                == NonTerminalType::List,
        ensures
            final(self).wf(),
            grafted(
                old(self)@.nodes,
                final(self)@.nodes,
                old(self)@.open.last() as int,
                non_terminal@,
                final(self)@.open.last(),
            ),
            grows_into(old(self)@.nodes, final(self)@.nodes),
            final(self)@.open == old(self)@.open.push(final(self)@.open.last()),
            final(self)@.open.last() == final(self)@.nodes.len() - 1,
            preorder(final(self)@.nodes, 0, 0) == preorder(old(self)@.nodes, 0, 0)
                + non_terminal@.preorder(old(self)@.open.len()),
    {
        let node_ref = self.add_to_current(PTNode::NonTerminal(non_terminal));
        self.state.push(node_ref);
    }

    /// Appends `terminal` to the children of the open node.
    fn add_terminal_to_current(&mut self, terminal: Token) -> (child: usize)
        requires
            old(self).wf(),
        ensures
            final(self).wf(),
            grafted(
                old(self)@.nodes,
                final(self)@.nodes,
                old(self)@.open.last() as int,
                Subtree::Terminal(terminal@),
                child,
            ),
            grows_into(old(self)@.nodes, final(self)@.nodes),
            final(self)@.open == old(self)@.open,
            child == final(self)@.nodes.len() - 1,
            preorder(final(self)@.nodes, 0, 0) == preorder(old(self)@.nodes, 0, 0)
                + Subtree::Terminal(terminal@).preorder(old(self)@.open.len()),
    {
        self.add_to_current(PTNode::Terminal(terminal))
    }

    /// Takes the next token of the stream. What happens is what the
    /// transition table says for the parser's state and the token's kind:
    /// the token is dropped, appended to the open node, opens a list under it
    /// or closes it. A token that the table rejects leaves the parser as it
    /// was and comes back in the error. Every ref of the tree stays valid,
    /// and what the token inserts comes last in the pre-order of the tree.
    pub fn feed(&mut self, token: Token) -> (result: Result<(), UnexpectedTokenError>)
        requires
            old(self).wf(),
        ensures
            final(self).wf(),
            result is Err <==> step_in(state_of(old(self)@), token@.token_type) is Reject,
            result matches Err(error) ==> error.token() == token.token_type && *final(self)
                == *old(self),
            final(self)@ == after(old(self)@, token@),
            grows_into(old(self)@.nodes, final(self)@.nodes),
            preorder(final(self)@.nodes, 0, 0) == preorder(old(self)@.nodes, 0, 0) + visits_for(
                step_in(state_of(old(self)@), token@.token_type),
                token@,
                (old(self)@.open.len() - 1) as nat,
            ),
    {
        let ghost fed = token@;
        let parser_action = match self.current_state_type() {
            NonTerminalType::Root => Self::handle_default_state(token),
            NonTerminalType::List => Self::handle_list_state(token),
        };
        match parser_action {
            ParserAction::NoAction => Ok(()),
            ParserAction::Terminal(token) => {
                self.add_terminal_to_current(token);
                Ok(())
            },
            ParserAction::UnexpectedToken(token) => Err(UnexpectedTokenError::new(token.token_type)),
            ParserAction::BeginNonTerminal(non_terminal_type, token) => {
                let mut children: Vec<PTNode> = Vec::new();
                children.push(PTNode::Terminal(token));
                let ghost kids = inline_views(Some(children));
                assert(kids =~= seq![Subtree::Terminal(fed)]);
                self.new_parser_state(PTNonTerminal::new(non_terminal_type, Some(children)));
                Ok(())
            },
            ParserAction::EndNonTerminal(token) => {
                self.add_terminal_to_current(token);
                proof {
                    lemma_path_prefix(self.tree@, self.state@, self.state@.len() - 1);
                }
                self.state.pop();
                Ok(())
            },
        }
    }
}

} // verus!
