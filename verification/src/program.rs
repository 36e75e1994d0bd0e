//! The two stages in sequence.

use vstd::prelude::*;
use crate::ast::{nodes, Expr};
use crate::grammar::parse_program;
use crate::laws::lemma_tokens_are_parseable;
use crate::lexer::{tokenize, views, Lexer, LexerError, Token};
use crate::parser::{Parser, ParserError};

verus! {

/// What the front end makes of a source text without lexical errors: its
/// tokens, and its declarations or its syntactic errors.
#[derive(Debug)]
pub struct Analysis {
    pub tokens: Vec<Token>,
    pub program: Result<Vec<Expr>, Vec<ParserError>>,
}

/// Tokenizes `code` and, where that succeeds, parses the tokens.
pub fn analyze(code: &str) -> (r: Result<Analysis, Vec<LexerError>>)
    ensures
        match r {
            Ok(analysis) => {
                &&& tokenize(code@).errors.len() == 0
                &&& views(analysis.tokens@) == tokenize(code@).tokens
                &&& match analysis.program {
                    Ok(decls) => {
                        &&& parse_program(tokenize(code@).tokens).errors.len() == 0
                        &&& nodes(decls@) == parse_program(tokenize(code@).tokens).decls
                    },
                    Err(errors) => {
                        &&& errors@.len() > 0
                        &&& views(errors@) == parse_program(tokenize(code@).tokens).errors
                    },
                }
            },
            Err(errors) => errors@.len() > 0 && views(errors@) == tokenize(code@).errors,
        },
{
    let mut lexer = Lexer::new(code);
    lexer.parse();
    let tokens = match lexer.result() {
        Ok(tokens) => tokens,
        Err(errors) => {
            return Err(errors);
        },
    };
    proof {
        lemma_tokens_are_parseable(code@);
        assert forall|i: int| 0 <= i < tokens.len() implies (#[trigger] tokens[i])@.parseable() by {
            assert(views(tokens@)[i] == tokens[i]@);
            assert(tokenize(code@).tokens[i].parseable());
        }
    }
    let mut parser = Parser::new(code, tokens.clone());
    parser.parse();
    Ok(Analysis { tokens, program: parser.result() })
}

} // verus!
