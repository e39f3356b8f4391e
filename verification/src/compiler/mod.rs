//! The compiler front end: tokens, parse tree and parser, the syntax tree,
//! and the runs that lead from source texts to them.

pub mod errors;
pub mod file_tree;
pub mod lexer;
pub mod parse_tree;
pub mod parser;
pub mod source_ast;

use crate::compiler::errors::{ParseError, ParseErrorView, UnexpectedTokenError};
use crate::compiler::file_tree::{all_forests, collected, file_views, FTree, FileView};
use crate::compiler::lexer::{tokens_from, tokens_of, Lexer, TokenView};
use crate::compiler::parse_tree::{preorder, NodeKind, NonTerminalType, PTree};
use crate::compiler::parser::{
    after_all, first_rejected, lemma_rejected_unique, lemma_step_follows_grammar,
    lemma_well_nested_push, nested_visits, nesting, rejected_at, well_nested, Parser,
};
use crate::compiler::source_ast::{program_of, File, AST};
use vstd::prelude::*;

verus! {

/// Parses a source text: reads its tokens one by one and feeds each to a new
/// parser, up to the end of the text or to the first token that the parser
/// rejects.
///
/// It succeeds exactly on the texts whose tokens are well nested. The parser
/// that comes back has then taken every token: it holds one open node more
/// than the nesting behind the last token, and the pre-order of its tree is
/// the root followed by what the tokens show, in their order. The caller
/// sees by `open_count` whether the text ended with lists still open.
/// Otherwise the error holds the first token that may not stand where it
/// stands.
pub fn parse_source(source: Vec<u8>) -> (result: Result<Parser, UnexpectedTokenError>)
    requires
        source.len() < usize::MAX,
    ensures
        result is Ok <==> well_nested(tokens_of(source@)),
        result matches Ok(parser) ==> {
            &&& parser.wf()
            &&& parser@ == after_all(tokens_of(source@))
            &&& parser@.open.len() == 1 + nesting(tokens_of(source@))
            &&& preorder(parser@.nodes, 0, 0) == seq![
                (NodeKind::NonTerminal(NonTerminalType::Root), 0nat),
            ] + nested_visits(tokens_of(source@))
        },
        result matches Err(error) ==> {
            &&& rejected_at(tokens_of(source@), first_rejected(tokens_of(source@)))
            &&& error.token()@ == tokens_of(source@)[first_rejected(
                tokens_of(source@),
            )].token_type
        },
{
    let ghost input = source@;
    let ghost mut fed: Seq<TokenView> = Seq::empty();
    let mut lexer = Lexer::new(source);
    let mut parser = Parser::new();
    assert(preorder(parser@.nodes, 0, 0) =~= seq![
        (NodeKind::NonTerminal(NonTerminalType::Root), 0nat),
    ] + nested_visits(fed));
    loop
        invariant
            input == source@,
            lexer.wf(),
            lexer.input() == input,
            lexer.offset() <= input.len(),
            parser.wf(),
            parser@ == after_all(fed),
            tokens_of(input) == fed + tokens_from(input, lexer.offset()),
            well_nested(fed),
            parser@.open.len() == 1 + nesting(fed),
            preorder(parser@.nodes, 0, 0) == seq![
                (NodeKind::NonTerminal(NonTerminalType::Root), 0nat),
            ] + nested_visits(fed),
        decreases input.len() - lexer.offset(),
    {
        let ghost stack = parser@.open;
        match lexer.next() {
            None => {
                return Ok(parser);
            },
            Some(token) => {
                let ghost shown = token@;
                proof {
                    lemma_well_nested_push(fed, shown);
                    assert(tokens_of(input) =~= fed.push(shown) + tokens_from(
                        input,
                        lexer.offset(),
                    ));
                    assert(tokens_of(input).take(fed.len() as int) =~= fed);
                }
                match parser.feed(token) {
                    Ok(()) => {
                        proof {
                            lemma_step_follows_grammar(
                                stack,
                                (parser@.nodes.len() - 1) as usize,
                                shown,
                            );
                            assert(fed.push(shown).drop_last() =~= fed);
                            fed = fed.push(shown);
                        }
                    },
                    Err(error) => {
                        proof {
                            lemma_rejected_unique(tokens_of(input), fed.len() as int);
                        }
                        return Err(error);
                    },
                }
            },
        }
    }
}

/// The mathematical value of a source file: its name and its bytes.
pub type SourceView = (Seq<char>, Seq<u8>);

/// The mathematical values of source files.
pub open spec fn source_views(sources: Seq<(String, Vec<u8>)>) -> Seq<SourceView> {
    sources.map_values(|source: (String, Vec<u8>)| (source.0@, source.1@))
}

/// The parse trees of the first `count` of `sources`, each with the name of
/// its file, or the kind of the first token that is rejected in the first
/// source that is not well nested.
pub open spec fn parse_trees_first(sources: Seq<SourceView>, count: nat) -> Result<
    Seq<FileView>,
    ParseErrorView,
>
    decreases count,
{
    if 0 < count <= sources.len() {
        match parse_trees_first(sources, (count - 1) as nat) {
            Err(error) => Err(error),
            Ok(trees) => {
                let tokens = tokens_of(sources[count - 1].1);
                if well_nested(tokens) {
                    Ok(trees.push((sources[count - 1].0, after_all(tokens).nodes)))
                } else {
                    Err(ParseErrorView::UnexpectedToken(tokens[first_rejected(tokens)].token_type))
                }
            },
        }
    } else {
        Ok(Seq::empty())
    }
}

/// The syntax tree of the program that `sources` hold: each source is
/// parsed, the parse trees are collected by file name, and each file gives
/// its expressions. The first source that is not well nested decides the
/// error; where all are, the first file that is no program does.
pub open spec fn ast_of(sources: Seq<SourceView>) -> Result<Seq<File>, ParseErrorView> {
    match parse_trees_first(sources, sources.len()) {
        Err(error) => Err(error),
        Ok(trees) => match program_of(collected(trees, trees.len())) {
            Err(error) => Err(ParseErrorView::InvalidProgram(error)),
            Ok(program) => Ok(program),
        },
    }
}

/// Once a source is rejected, the run is, with the same error.
proof fn lemma_parse_trees_fail(sources: Seq<SourceView>, place: nat, count: nat)
    requires
        place < count <= sources.len(),
        parse_trees_first(sources, place) is Ok,
        parse_trees_first(sources, place + 1) is Err,
    ensures
        parse_trees_first(sources, count) == parse_trees_first(sources, place + 1),
    decreases count,
{
    if count > place + 1 {
        lemma_parse_trees_fail(sources, place, (count - 1) as nat);
    }
}

/// Parses the source files of a program, in their order, and builds the
/// syntax tree of the program from their parse trees.
pub fn parse(sources: Vec<(String, Vec<u8>)>) -> (ast: Result<AST, ParseError>)
    requires
        forall|i: int| 0 <= i < sources@.len() ==> (#[trigger] sources@[i]).1@.len() < usize::MAX,
    ensures
        match ast_of(source_views(sources@)) {
            Ok(program) => ast is Ok && ast->Ok_0@ == program && ast->Ok_0.tagged(),
            Err(error) => ast is Err && ast->Err_0@ == error,
        },
{
    let ghost all = source_views(sources@);
    let mut results: Vec<(String, PTree)> = Vec::new();
    proof {
        assert(file_views(results@) =~= Seq::<FileView>::empty());
    }
    for source in it: sources
        invariant
            it.seq() == sources@,
            all == source_views(sources@),
            forall|i: int|
                0 <= i < sources@.len() ==> (#[trigger] sources@[i]).1@.len() < usize::MAX,
            parse_trees_first(all, it.index() as nat) == Ok::<Seq<FileView>, ParseErrorView>(
                file_views(results@),
            ),
            all_forests(file_views(results@)),
    {
        let ghost place = it.index() as int;
        let ghost before = file_views(results@);
        let (filename, bytes) = source;
        match parse_source(bytes) {
            Ok(parser) => {
                let tree = parser.into_tree();
                results.push((filename, tree));
                proof {
                    assert(file_views(results@) =~= before.push((filename@, tree@)));
                }
            },
            Err(error) => {
                proof {
                    lemma_parse_trees_fail(all, place as nat, all.len());
                }
                return Err(ParseError::UnexpectedToken(error));
            },
        }
    }
    match AST::from(FTree::new(results)) {
        Ok(ast) => Ok(ast),
        Err(error) => Err(ParseError::InvalidProgram(error)),
    }
}

} // verus!
