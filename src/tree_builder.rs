use vstd::prelude::*;

use crate::combinators::{kinds_of, parse_spec, ParseError, Parser, TokenIter};
use crate::node::{tree_of, Node};
use crate::token::{Token, TokenValue};

verus! {

/// Builds a parse tree from a whole token stream with a root parser.
#[derive(Debug)]
pub struct TreeBuilder {
    pub root_parser: Parser,
}

impl TreeBuilder {
    /// A builder that parses with `root_parser`.
    pub fn new(root_parser: Parser) -> (r: TreeBuilder)
        ensures
            r.root_parser == root_parser,
    {
        TreeBuilder { root_parser }
    }

    /// Runs the root parser from the cursor. It succeeds only if the parser
    /// matches and reads every token left; tokens left after a match give
    /// `UnhandledTokens`.
    pub fn parse(&self, tokens: &mut TokenIter) -> (r: Result<Node, ParseError>)
        requires
            old(tokens).wf(),
        ensures
            final(tokens).wf(),
            match parse_spec(self.root_parser, old(tokens).kinds_spec(), old(tokens).pos_spec()) {
                Some((t, n)) => if n == old(tokens).kinds_spec().len() {
                    r matches Ok(node) && tree_of(node) == t
                } else {
                    r == Err::<Node, ParseError>(ParseError::UnhandledTokens)
                },
                None => r == Err::<Node, ParseError>(ParseError::NoMatch),
            },
    {
        let result = self.root_parser.parse(tokens);
        if tokens.len() > 0 {
            return match result {
                Ok(_) => Err(ParseError::UnhandledTokens),
                Err(e) => Err(e),
            };
        }
        result
    }

    /// Runs the root parser over all of `tokens`, matched by the kind each
    /// reports; see `parse`.
    pub fn parse_tokens<T: TokenValue>(&self, tokens: &[Token<T>]) -> (r: Result<Node, ParseError>)
        ensures
            match parse_spec(self.root_parser, kinds_of(tokens@), 0) {
                Some((t, n)) => if n == tokens@.len() {
                    r matches Ok(node) && tree_of(node) == t
                } else {
                    r == Err::<Node, ParseError>(ParseError::UnhandledTokens)
                },
                None => r == Err::<Node, ParseError>(ParseError::NoMatch),
            },
    {
        let mut iter = TokenIter::new(tokens);
        self.parse(&mut iter)
    }
}

} // verus!
