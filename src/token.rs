use vstd::prelude::*;

use crate::error::LexError;
use crate::span::Span;
use crate::stream::{GraphemeLocation, Graphemes};

verus! {

/// The value of a lexical token, supplied by a grammar.
pub trait TokenValue: Sized {
    /// Whether the lexer drops tokens with this value. A verified impl gives
    /// it a definition; for other impls it is only what `should_skip` returns.
    closed spec fn skip_spec(&self) -> bool {
        arbitrary()
    }

    /// The lexical category of the value. A verified impl gives it a
    /// definition; for other impls it is only what `kind` returns.
    closed spec fn kind_spec(&self) -> u64 {
        arbitrary()
    }

    /// Whether the lexer drops tokens with this value (whitespace, comments).
    fn should_skip(&self) -> (r: bool)
        ensures
            r == self.skip_spec(),
    ;

    /// The lexical category of the value; parsers match tokens by it.
    fn kind(&self) -> (r: u64)
        ensures
            r == self.kind_spec(),
    ;
}

/// An optional text seen as an optional sequence.
pub open spec fn opt_view(s: Option<String>) -> Option<Seq<char>> {
    match s {
        Some(t) => Some(t@),
        None => None,
    }
}

/// A token: a value with the span of input it was read from.
#[derive(Debug, Clone)]
pub struct Token<T> {
    span: Span,
    value: T,
}

impl<T> Token<T> {
    /// The value carried.
    pub closed spec fn value_spec(&self) -> T {
        self.value
    }

    /// The span carried.
    pub closed spec fn span_spec(&self) -> Span {
        self.span
    }

    /// A token with `token` as its value, read from `span`.
    pub fn new(token: T, span: Span) -> (r: Token<T>)
        ensures
            r.value_spec() == token,
            r.span_spec() == span,
    {
        Token { span, value: token }
    }

    /// A token that was not read from the input, with the empty span.
    pub fn from(token: T) -> (r: Token<T>)
        ensures
            r.value_spec() == token,
            r.span_spec().lines@.len() == 0,
            r.span_spec().grapheme_range is None,
            r.span_spec().byte_range is None,
            r.span_spec().source@.len() == 0,
    {
        Token::new(token, Span::default())
    }

    /// The token's value.
    pub fn token(&self) -> (r: &T)
        ensures
            *r == self.value_spec(),
    {
        &self.value
    }

    /// The token's value, to change.
    pub fn token_mut(&mut self) -> (r: &mut T)
        ensures
            *r == old(self).value_spec(),
            final(self).value_spec() == *final(r),
            final(self).span_spec() == old(self).span_spec(),
    {
        &mut self.value
    }

    /// The token's span.
    pub fn span(&self) -> (r: &Span)
        ensures
            *r == self.span_spec(),
    {
        &self.span
    }

    /// The token's span, to change.
    pub fn span_mut(&mut self) -> (r: &mut Span)
        ensures
            *r == old(self).span_spec(),
            final(self).span_spec() == *final(r),
            final(self).value_spec() == old(self).value_spec(),
    {
        &mut self.span
    }
}

/// A strategy that recognises and reads one lexical category.
///
/// The lexer makes a fresh tokenizer from a registered one for each
/// grapheme at which a token may start.
pub trait Tokenizer<T: TokenValue>: Sized {
    /// Whether this tokenizer accepts a token starting at `grapheme`. A
    /// verified impl gives it a definition; for other impls it is only what
    /// `can_tokenize` returns.
    closed spec fn claims(
        &self,
        tokens: Seq<Token<T>>,
        grapheme: Seq<char>,
        grapheme_location: GraphemeLocation,
        next: Option<Seq<char>>,
    ) -> bool {
        arbitrary()
    }

    /// The state of this tokenizer once it has been asked about `grapheme`. A
    /// verified impl gives it a definition; for other impls it is only what
    /// `can_tokenize` leaves.
    closed spec fn primed(
        &self,
        tokens: Seq<Token<T>>,
        grapheme: Seq<char>,
        grapheme_location: GraphemeLocation,
        next: Option<Seq<char>>,
    ) -> Self {
        arbitrary()
    }

    /// What this tokenizer reads from `incoming`, after `tokens`. A verified
    /// impl gives it a definition; for other impls it is only what `lex`
    /// returns.
    closed spec fn lexed(&self, tokens: Seq<Token<T>>, incoming: Graphemes) -> Result<T, LexError> {
        arbitrary()
    }

    /// A fresh tokenizer like this one, to read one token.
    fn fresh(&self) -> (r: Self)
        ensures
            r == *self,
    ;

    /// Whether a token of this category starts at `grapheme`, given the tokens
    /// read so far, its location and the grapheme after it.
    fn can_tokenize(
        &mut self,
        tokens: &[Token<T>],
        grapheme: &str,
        grapheme_location: &GraphemeLocation,
        next: &Option<String>,
    ) -> (r: bool)
        ensures
            r == old(self).claims(tokens@, grapheme@, *grapheme_location, opt_view(*next)),
            *final(self) == old(self).primed(
                tokens@,
                grapheme@,
                *grapheme_location,
                opt_view(*next),
            ),
    ;

    /// Reads the rest of the token from `incoming`, which has just handed out
    /// the grapheme that `can_tokenize` accepted. `NoTokenizer` is the lexer's
    /// own error, which a tokenizer does not report.
    fn lex(&mut self, tokens: &[Token<T>], incoming: &mut Graphemes) -> (r: Result<
        T,
        LexError,
    >)
        requires
            old(incoming).wf(),
        ensures
            final(incoming).wf(),
            final(incoming).upcoming().len() <= old(incoming).upcoming().len(),
            final(incoming).count_spec() >= old(incoming).count_spec(),
            !(r matches Err(LexError::NoTokenizer { .. })),
            r == old(self).lexed(tokens@, *old(incoming)),
    ;
}

} // verus!
