use vstd::prelude::*;

use crate::decode::{units_of, InclusiveRange};
use crate::error::LexError;
use crate::clusters::as_scalars;
use crate::decode::invalid;
use crate::span::{span_lines, Span};
use crate::stream::GraphemeLocation;
use crate::stream::{lines_view, Graphemes};
use crate::token::{opt_view, Token, TokenValue, Tokenizer};

verus! {

/// The index of the last `true` among `claims`, if any.
pub open spec fn last_claim(claims: Seq<bool>) -> Option<int>
    decreases claims.len(),
{
    if claims.len() == 0 {
        None
    } else if claims.last() {
        Some(claims.len() - 1)
    } else {
        last_claim(claims.drop_last())
    }
}

/// Picks the tokenizer that reads the next token: of those that accept the
/// grapheme, the one registered last, so that a later, more specific
/// tokenizer overrides an earlier, general one.
pub fn last_claimant(claims: &[bool]) -> (r: Option<usize>)
    ensures
        match r {
            Some(i) => last_claim(claims@) == Some(i as int),
            None => last_claim(claims@) is None,
        },
{
    let mut i = claims.len();
    assert(claims@.subrange(0, i as int) =~= claims@);
    while i > 0
        invariant
            i <= claims@.len(),
            last_claim(claims@) == last_claim(claims@.subrange(0, i as int)),
        decreases i,
    {
        if claims[i - 1] {
            return Some(i - 1);
        }
        assert(claims@.subrange(0, i as int).drop_last() =~= claims@.subrange(0, i - 1));
        i = i - 1;
    }
    None
}

/// Reads graphemes from the input and lexes them into tokens.
pub struct Lexer<T: TokenValue, K: Tokenizer<T>> {
    tokens: Vec<Token<T>>,
    tokenizers: Vec<K>,
    eof_token: Option<T>,
    source: String,
    pub(crate) incoming: Graphemes,
    step: Ghost<(Seq<char>, GraphemeLocation, Graphemes)>,
}

impl<T: TokenValue, K: Tokenizer<T>> Lexer<T, K> {
    /// The tokens read so far.
    pub closed spec fn tokens_spec(&self) -> Seq<Token<T>> {
        self.tokens@
    }

    /// The end-of-input token, until it is appended.
    pub closed spec fn eof_spec(&self) -> Option<T> {
        self.eof_token
    }

    /// The registered tokenizers, in order.
    pub closed spec fn tokenizers_spec(&self) -> Seq<K> {
        self.tokenizers@
    }

    /// The description of the input's source.
    pub closed spec fn source_spec(&self) -> Seq<char> {
        self.source@
    }

    /// The grapheme the last step of `next` read, its location, and the stream
    /// as the chosen tokenizer found it, once the grapheme after it had been
    /// looked at.
    pub closed spec fn last_step(&self) -> (Seq<char>, GraphemeLocation, Graphemes) {
        self.step@
    }

    /// The grapheme stream read from.
    pub closed spec fn stream(&self) -> Graphemes {
        self.incoming
    }

    pub closed spec fn wf(&self) -> bool {
        self.incoming.wf()
    }

    /// What is left to do: graphemes to read, and the end-of-input token.
    pub open spec fn work_left(&self) -> nat {
        self.stream().upcoming().len() + if self.eof_spec() is Some {
            1nat
        } else {
            0nat
        }
    }

    /// A lexer over `input`, whose origin `source` describes. `is_lossy` replaces
    /// invalid sequences, `store_bytes` keeps the decoded text, and `eof_token`
    /// is appended once the input ends.
    pub fn new(
        input: Vec<u8>,
        source: String,
        is_lossy: bool,
        store_bytes: bool,
        eof_token: Option<T>,
    ) -> (r: Lexer<T, K>)
        requires
            input@.len() <= usize::MAX / 8,
        ensures
            r.wf(),
            r.tokens_spec().len() == 0,
            r.tokenizers_spec().len() == 0,
            r.eof_spec() == eof_token,
            r.source_spec() == source@,
            r.stream().upcoming() == crate::clusters::effective(units_of(input@), is_lossy),
            r.stream().count_spec() == 0,
            r.stream().clusters().decoder().lossy() == is_lossy,
            r.stream().clusters().decoder().collected().is_void() == !store_bytes,
    {
        let incoming = Graphemes::new(input, is_lossy, !store_bytes);
        let ghost start = incoming;
        Lexer {
            tokens: Vec::new(),
            tokenizers: Vec::new(),
            eof_token,
            source,
            incoming,
            step: Ghost(
                (
                    Seq::empty(),
                    GraphemeLocation {
                        index: 0,
                        byte_range: InclusiveRange { start: 0, end: 0 },
                        line: 0,
                        column: 0,
                    },
                    start,
                ),
            ),
        }
    }

    /// Registers a tokenizer after the others, and returns the lexer.
    pub fn tokenizer(self, f: K) -> (r: Lexer<T, K>)
        ensures
            r.tokenizers_spec() == self.tokenizers_spec().push(f),
            r.tokens_spec() == self.tokens_spec(),
            r.eof_spec() == self.eof_spec(),
            r.stream() == self.stream(),
            r.source_spec() == self.source_spec(),
    {
        let mut s = self;
        s.add_tokenizer(f);
        s
    }

    /// Registers a tokenizer after the others.
    pub fn add_tokenizer(&mut self, f: K)
        ensures
            final(self).tokenizers_spec() == old(self).tokenizers_spec().push(f),
            final(self).tokens_spec() == old(self).tokens_spec(),
            final(self).eof_spec() == old(self).eof_spec(),
            final(self).stream() == old(self).stream(),
            final(self).source_spec() == old(self).source_spec(),
    {
        self.tokenizers.push(f);
    }

    /// The tokens read so far.
    pub fn tokens(&self) -> (r: &Vec<Token<T>>)
        ensures
            r@ == self.tokens_spec(),
    {
        &self.tokens
    }

    /// The tokens read so far, to change.
    pub fn tokens_mut(&mut self) -> (r: &mut Vec<Token<T>>)
        ensures
            r@ == old(self).tokens_spec(),
            final(self).tokens_spec() == final(r)@,
            final(self).stream() == old(self).stream(),
            final(self).eof_spec() == old(self).eof_spec(),
            final(self).tokenizers_spec() == old(self).tokenizers_spec(),
    {
        &mut self.tokens
    }

    /// The tokens read, giving up the lexer.
    pub fn take(self) -> (r: Vec<Token<T>>)
        ensures
            r@ == self.tokens_spec(),
    {
        self.tokens
    }

    /// The text of each line read so far.
    pub fn lines(&self) -> (r: &[String])
        ensures
            lines_view(r@) == self.stream().lines_spec(),
    {
        self.incoming.lines()
    }

    /// The number of lines read so far; a line ends at LF or CRLF.
    pub fn line_count(&self) -> (r: usize)
        ensures
            r == self.stream().lines_spec().len(),
    {
        self.incoming.lines().len()
    }

    /// The number of graphemes read (not counting those only looked at).
    pub fn graphemes(&self) -> (r: usize)
        ensures
            r == self.stream().count_spec(),
    {
        self.incoming.grapheme_count()
    }

    /// The number of input bytes that belonged to invalid sequences.
    pub fn invalid_bytes(&self) -> (r: usize)
        ensures
            r == self.stream().clusters().decoder().invalid_count(),
    {
        self.incoming.invalid_bytes()
    }

    /// The number of input bytes that decoded to scalar values.
    pub fn valid_bytes(&self) -> (r: usize)
        requires
            self.wf(),
        ensures
            r == self.stream().clusters().decoder().valid_count(),
    {
        self.incoming.valid_bytes()
    }

    /// The number of input bytes read.
    pub fn total_bytes(&self) -> (r: usize)
        requires
            self.wf(),
        ensures
            r == self.stream().clusters().decoder().valid_count()
                + self.stream().clusters().decoder().invalid_count(),
    {
        let valid = self.incoming.valid_bytes();
        valid + self.incoming.invalid_bytes()
    }

    /// The decoded text kept, with replacement characters for invalid
    /// sequences in lossy mode; it includes text only looked at so far.
    pub fn bytes(&self) -> (r: &[u8])
        ensures
            r@ == self.stream().clusters().decoder().collected().bytes_spec(),
    {
        self.incoming.bytes()
    }
}

/// The span of a token that starts at `loc` and ends where the stream `after`
/// stands, with `source` describing the input.
pub open spec fn token_span(loc: GraphemeLocation, after: Graphemes, source: Seq<char>, span: Span) -> bool {
    let end_line = if after.current_line_spec() >= loc.line {
        after.current_line_spec()
    } else {
        loc.line as nat
    };
    &&& span.lines@ == span_lines(
        after.lines_spec(),
        InclusiveRange { start: loc.line, end: end_line as usize },
        InclusiveRange { start: loc.column, end: after.column_spec() as usize },
    )
    &&& span.grapheme_range == Some(
        InclusiveRange { start: loc.index, end: after.current_index_spec() as usize },
    )
    &&& span.byte_range == Some(
        InclusiveRange { start: loc.byte_range.start, end: after.last_byte_spec() as usize },
    )
    &&& span.source@ == source
}

/// The location at which the stream `s` hands out its next grapheme, whose
/// bytes start at `byte_start`.
pub open spec fn next_location(s: Graphemes, byte_start: usize) -> GraphemeLocation {
    GraphemeLocation {
        index: s.count_spec() as usize,
        byte_range: InclusiveRange { start: byte_start, end: 0 },
        line: s.next_line_spec() as usize,
        column: s.next_column_spec() as usize,
    }
}

/// Whether each of `tokenizers` accepts `grapheme` at `location`, after
/// `tokens`, with `next` after it.
pub open spec fn claims_of<T: TokenValue, K: Tokenizer<T>>(
    tokenizers: Seq<K>,
    tokens: Seq<Token<T>>,
    grapheme: Seq<char>,
    location: GraphemeLocation,
    next: Option<Seq<char>>,
) -> Seq<bool> {
    tokenizers.map_values(|k: K| k.claims(tokens, grapheme, location, next))
}

/// The grapheme that `peek` finds first in `s`, if it finds one.
pub open spec fn lookahead_grapheme(s: Graphemes) -> Option<Seq<char>> {
    if s.lookahead_len() > 0 {
        match s.looked_ahead(0) {
            Ok((g, _)) => Some(g@),
            Err(_) => None,
        }
    } else {
        None
    }
}

impl<T: TokenValue, K: Tokenizer<T>> Lexer<T, K> {
    /// What a step that read `grapheme` at `location` gives, with `found` the
    /// stream as the tokenizer finds it: the last registered tokenizer that
    /// accepts the grapheme reads the token; its error is passed on, a value
    /// to skip gives `Ok(false)`, any other value is appended as a token and
    /// gives `Ok(true)`; with no tokenizer that accepts it, `NoTokenizer`.
    pub open spec fn dispatched(
        &self,
        after: Seq<Token<T>>,
        r: Option<Result<bool, LexError>>,
        grapheme: Seq<char>,
        location: GraphemeLocation,
        found: Graphemes,
    ) -> bool {
        let next = lookahead_grapheme(found);
        let claims = claims_of(self.tokenizers_spec(), self.tokens_spec(), grapheme, location, next);
        match last_claim(claims) {
            None => (r matches Some(Err(LexError::NoTokenizer { grapheme: g, location: l }))
                && g@ == grapheme && l == location) && after == self.tokens_spec(),
            Some(j) => {
                let t = self.tokenizers_spec()[j].primed(self.tokens_spec(), grapheme, location, next);
                match t.lexed(self.tokens_spec(), found) {
                    Err(e) => r == Some(Err::<bool, LexError>(e)) && after == self.tokens_spec(),
                    Ok(v) => if v.skip_spec() {
                        r == Some(Ok::<bool, LexError>(false)) && after == self.tokens_spec()
                    } else {
                        &&& r == Some(Ok::<bool, LexError>(true))
                        &&& after.len() == self.tokens_spec().len() + 1
                        &&& after.drop_last() == self.tokens_spec()
                        &&& after.last().value_spec() == v
                    },
                }
            },
        }
    }

    /// The last step of `next` ended in the error `e`, as `dispatched` says.
    pub open spec fn step_failed(&self, e: LexError) -> bool {
        let (g, loc, found) = self.last_step();
        self.dispatched(self.tokens_spec(), Some(Err::<bool, LexError>(e)), g, loc, found)
    }

    /// Whether no registered tokenizer accepts `grapheme` at `location`, with
    /// `next` after it.
    pub open spec fn unclaimed(
        &self,
        grapheme: Seq<char>,
        location: GraphemeLocation,
        next: Option<Seq<char>>,
    ) -> bool {
        forall|i: int|
            0 <= i < self.tokenizers_spec().len() ==> !(#[trigger] self.tokenizers_spec()[i]).claims(
                self.tokens_spec(),
                grapheme,
                location,
                next,
            )
    }

    /// Reads one token. Gives `Ok(true)` when a token was appended, `Ok(false)`
    /// when the token read is one to skip, an error when the input holds an
    /// invalid sequence, no tokenizer accepts the grapheme or the tokenizer
    /// fails, and `None` once the input and the end-of-input token are used up.
    ///
    /// The tokenizer used is the last registered one that accepts the grapheme
    /// (see `last_claimant`). Its token's span runs from that grapheme to the
    /// last grapheme the tokenizer read. An error or a skipped token leaves the
    /// tokens as they were.
    pub fn next(&mut self) -> (r: Option<Result<bool, LexError>>)
        requires
            old(self).wf(),
        ensures
            final(self).wf(),
            final(self).tokenizers_spec() == old(self).tokenizers_spec(),
            final(self).source_spec() == old(self).source_spec(),
            r is None <==> old(self).work_left() == 0,
            r is None ==> final(self).tokens_spec() == old(self).tokens_spec()
                && final(self).work_left() == 0,
            r is Some ==> final(self).work_left() < old(self).work_left(),
            final(self).stream().count_spec() >= old(self).stream().count_spec(),
            final(self).tokens_spec().len() >= old(self).tokens_spec().len(),
            final(self).tokens_spec().subrange(0, old(self).tokens_spec().len() as int)
                == old(self).tokens_spec(),
            old(self).stream().upcoming().len() == 0 && old(self).eof_spec() is Some ==> {
                &&& r == Some(Ok::<bool, LexError>(true))
                &&& final(self).eof_spec() is None
                &&& final(self).tokens_spec().len() == old(self).tokens_spec().len() + 1
                &&& final(self).tokens_spec().drop_last() == old(self).tokens_spec()
                &&& final(self).tokens_spec().last().value_spec() == old(self).eof_spec()->Some_0
                &&& final(self).tokens_spec().last().span_spec().lines@.len() == 0
                &&& final(self).tokens_spec().last().span_spec().grapheme_range is None
                &&& final(self).tokens_spec().last().span_spec().byte_range is None
                &&& final(self).tokens_spec().last().span_spec().source@.len() == 0
            },
            old(self).stream().upcoming().len() > 0 ==> final(self).eof_spec()
                == old(self).eof_spec(),
            !(r == Some(Ok::<bool, LexError>(true))) ==> final(self).tokens_spec()
                == old(self).tokens_spec(),
            old(self).stream().upcoming().len() > 0 && old(self).stream().upcoming()[0] is Err
                ==> (r matches Some(Err(e)) && (e matches LexError::InvalidBytes { bytes, index }
                && invalid(bytes@) == old(self).stream().upcoming()[0] && index
                == old(self).stream().count_spec())),
            old(self).stream().upcoming().len() > 0 && old(self).stream().upcoming()[0] is Ok ==> {
                let (g, loc, found) = final(self).last_step();
                &&& g.len() > 0
                &&& old(self).stream().upcoming().subrange(0, g.len() as int) == as_scalars(g)
                &&& found.upcoming() == old(self).stream().upcoming().subrange(
                    g.len() as int,
                    old(self).stream().upcoming().len() as int,
                )
                &&& loc.index == old(self).stream().count_spec()
                &&& loc.line == old(self).stream().next_line_spec()
                &&& loc.column == old(self).stream().next_column_spec()
                &&& loc.byte_range.start == old(self).stream().next_byte()
                &&& old(self).dispatched(final(self).tokens_spec(), r, g, loc, found)
            },
            r matches Some(Err(LexError::NoTokenizer { grapheme, location })) ==> {
                &&& location.index == old(self).stream().count_spec()
                &&& location.line == old(self).stream().next_line_spec()
                &&& location.column == old(self).stream().next_column_spec()
                &&& old(self).stream().upcoming().subrange(0, grapheme@.len() as int) == as_scalars(
                    grapheme@,
                )
                &&& exists|next: Option<Seq<char>>| old(self).unclaimed(grapheme@, location, next)
            },
            r == Some(Ok::<bool, LexError>(true)) && old(self).stream().upcoming().len() > 0 ==> {
                let t = final(self).tokens_spec().last();
                &&& final(self).tokens_spec().len() == old(self).tokens_spec().len() + 1
                &&& final(self).tokens_spec().drop_last() == old(self).tokens_spec()
                &&& !t.value_spec().skip_spec()
                &&& final(self).stream().count_spec() > old(self).stream().count_spec()
                &&& token_span(
                    next_location(old(self).stream(), old(self).stream().next_byte() as usize),
                    final(self).stream(),
                    old(self).source_spec(),
                    t.span_spec(),
                )
            },
    {
        let ghost start_stream = self.incoming;
        let (grapheme, location) = match self.incoming.next() {
            Some(Ok(gl)) => gl,
            Some(Err(error)) => {
                return Some(Err(error));
            },
            None => {
                let mut eof: Option<T> = None;
                std::mem::swap(&mut self.eof_token, &mut eof);
                return match eof {
                    Some(value) => {
                        self.tokens.push(Token::from(value));
                        Some(Ok(true))
                    },
                    None => None,
                };
            },
        };
        let next = match self.incoming.peek() {
            Some((g, _)) => Some(g),
            None => None,
        };
        self.incoming.reset_peek();
        let ghost after_grapheme = self.incoming;
        self.step = Ghost((grapheme@, location, after_grapheme));
        proof {
            assert(start_stream.upcoming().subrange(0, grapheme@.len() as int) =~= as_scalars(grapheme@));
            assert(after_grapheme.upcoming() =~= start_stream.upcoming().subrange(
                grapheme@.len() as int,
                start_stream.upcoming().len() as int,
            ));
            assert(opt_view(next) == lookahead_grapheme(after_grapheme));
        }

        let mut claims: Vec<bool> = Vec::new();
        let mut candidates: Vec<K> = Vec::new();
        let mut i: usize = 0;
        while i < self.tokenizers.len()
            invariant
                i <= self.tokenizers@.len(),
                claims@.len() == i,
                candidates@.len() == i,
                forall|j: int|
                    0 <= j < i ==> #[trigger] claims@[j] == self.tokenizers@[j].claims(
                        self.tokens@,
                        grapheme@,
                        location,
                        opt_view(next),
                    ),
                forall|j: int|
                    0 <= j < i ==> #[trigger] candidates@[j] == self.tokenizers@[j].primed(
                        self.tokens@,
                        grapheme@,
                        location,
                        opt_view(next),
                    ),
                self.incoming == after_grapheme,
                self.step@ == (grapheme@, location, after_grapheme),
                self.tokenizers@ == old(self).tokenizers@,
                self.tokens@ == old(self).tokens@,
                self.source == old(self).source,
                self.eof_token == old(self).eof_token,
            decreases self.tokenizers@.len() - i,
        {
            let mut candidate = self.tokenizers[i].fresh();
            let claimed = candidate.can_tokenize(
                self.tokens.as_slice(),
                grapheme.as_str(),
                &location,
                &next,
            );
            claims.push(claimed);
            candidates.push(candidate);
            i = i + 1;
        }
        proof {
            assert(claims@ =~= claims_of(
                old(self).tokenizers_spec(),
                old(self).tokens_spec(),
                grapheme@,
                location,
                opt_view(next),
            ));
        }
        let chosen = match last_claimant(claims.as_slice()) {
            Some(k) => k,
            None => {
                proof {
                    lemma_no_claim(claims@);
                    assert forall|j: int| 0 <= j < old(self).tokenizers_spec().len() implies !(
                    #[trigger] old(self).tokenizers_spec()[j]).claims(
                        old(self).tokens_spec(),
                        grapheme@,
                        location,
                        opt_view(next),
                    ) by {
                        assert(!claims@[j]);
                    }
                    assert(old(self).unclaimed(grapheme@, location, opt_view(next)));
                    assert(start_stream.upcoming().subrange(0, grapheme@.len() as int)
                        =~= as_scalars(grapheme@));
                    assert(exists|nx: Option<Seq<char>>| old(self).unclaimed(grapheme@, location, nx));
                }
                return Some(Err(LexError::NoTokenizer { grapheme, location }));
            },
        };
        proof {
            assert(claims@.len() > 0) by {
                if claims@.len() == 0 {
                    assert(last_claim(claims@) is None);
                }
            }
            lemma_last_claim_bound(claims@);
        }
        let mut tokenizer = candidates.swap_remove(chosen);
        let start_line = location.line;
        let result = tokenizer.lex(self.tokens.as_slice(), &mut self.incoming);
        self.incoming.reset_peek();
        let value = match result {
            Ok(value) => value,
            Err(error) => {
                return Some(Err(error));
            },
        };
        if value.should_skip() {
            return Some(Ok(false));
        }
        let end_line = if self.incoming.current_line() >= start_line {
            self.incoming.current_line()
        } else {
            start_line
        };
        let span = Span::new(
            self.incoming.lines(),
            InclusiveRange::new(location.index, self.incoming.current_index()),
            InclusiveRange::new(location.byte_range.start, self.incoming.current_byte_index()),
            InclusiveRange::new(start_line, end_line),
            InclusiveRange::new(location.column, self.incoming.current_column()),
            self.source.clone(),
        );
        self.tokens.push(Token::new(value, span));
        proof {
            let t = self.tokens@.last();
            assert(self.tokens@.drop_last() =~= old(self).tokens@);
            assert(token_span(
                next_location(start_stream, location.byte_range.start),
                self.incoming,
                old(self).source@,
                t.span_spec(),
            ));
        }
        Some(Ok(true))
    }

    /// Reads tokens until the input and the end-of-input token are used up, or
    /// until an error, which ends lexing.
    pub fn tokenize(&mut self) -> (r: Result<&[Token<T>], LexError>)
        requires
            old(self).wf(),
        ensures
            final(self).wf(),
            r is Ok ==> final(self).work_left() == 0,
            r matches Ok(t) ==> t@ == final(self).tokens_spec(),
            old(self).stream().upcoming().len() == 0 ==> r is Ok && eof_appended(
                old(self).tokens_spec(),
                final(self).tokens_spec(),
                old(self).eof_spec(),
            ),
            old(self).stream().upcoming().len() > 0 && old(self).stream().upcoming()[0] is Err
                ==> (r matches Err(e) && e is InvalidBytes) && final(self).tokens_spec()
                == old(self).tokens_spec(),
            final(self).tokens_spec().subrange(0, old(self).tokens_spec().len() as int)
                == old(self).tokens_spec(),
            r matches Err(e) ==> e is InvalidBytes || final(self).step_failed(e),
            r is Ok && old(self).eof_spec() is Some ==> eof_last(
                final(self).tokens_spec(),
                old(self).eof_spec()->Some_0,
            ),
            forall|i: int|
                old(self).tokens_spec().len() <= i < final(self).tokens_spec().len() - 1
                    ==> #[trigger] spans_ordered(
                    final(self).tokens_spec()[i],
                    final(self).tokens_spec()[i + 1],
                ),
    {
        let ghost start = old(self).tokens_spec().len() as int;
        let ghost before = *self;
        match self.next() {
            None => {
                return Ok(self.tokens.as_slice());
            },
            Some(Ok(_)) => {},
            Some(Err(error)) => {
                return Err(error);
            },
        }
        proof {
            before.stream().lemma_counters_fit();
            self.stream().lemma_counters_fit();
            assert(old(self).tokens_spec().subrange(0, start) =~= old(self).tokens_spec());
            lemma_append_step(
                before.tokens_spec(),
                self.tokens_spec(),
                start,
                before.stream().count_spec(),
                self.stream().count_spec(),
            );
        }
        let ghost first = *self;
        loop
            invariant
                self.wf(),
                old(self).stream().upcoming().len() == 0 ==> eof_appended(
                    old(self).tokens_spec(),
                    first.tokens_spec(),
                    old(self).eof_spec(),
                ),
                !(old(self).stream().upcoming().len() > 0 && old(self).stream().upcoming()[0] is Err),
                start == old(self).tokens_spec().len(),
                self.tokens_spec().len() >= start,
                self.tokens_spec().subrange(0, start) == old(self).tokens_spec(),
                appended_in_order(self.tokens_spec(), start, self.stream().count_spec()),
                old(self).stream().upcoming().len() == 0 ==> self.work_left() == 0
                    && self.tokens_spec() == first.tokens_spec(),
                self.tokenizers_spec() == old(self).tokenizers_spec(),
                self.eof_spec() is Some ==> self.eof_spec() == old(self).eof_spec(),
                old(self).eof_spec() is Some && self.eof_spec() is None ==> eof_last(
                    self.tokens_spec(),
                    old(self).eof_spec()->Some_0,
                ) && self.work_left() == 0,
            decreases self.work_left(),
        {
            let ghost prev = *self;
            let r = self.next();
            proof {
                prev.stream().lemma_counters_fit();
                self.stream().lemma_counters_fit();
                assert(self.tokens_spec().subrange(0, prev.tokens_spec().len() as int).subrange(0, start)
                    =~= self.tokens_spec().subrange(0, start));
                assert(prev.tokens_spec().subrange(0, start) == old(self).tokens_spec());
                lemma_append_step(
                    prev.tokens_spec(),
                    self.tokens_spec(),
                    start,
                    prev.stream().count_spec(),
                    self.stream().count_spec(),
                );
                assert(self.tokens_spec().subrange(0, start) =~= prev.tokens_spec().subrange(0, start));
            }
            match r {
                None => {
                    return Ok(self.tokens.as_slice());
                },
                Some(Ok(_)) => {},
                Some(Err(error)) => {
                    return Err(error);
                },
            }
        }
    }
}

/// `after` is `before` with the end-of-input token `eof` appended, if there is one.
pub open spec fn eof_appended<T>(before: Seq<Token<T>>, after: Seq<Token<T>>, eof: Option<T>) -> bool {
    match eof {
        Some(e) => {
            &&& after.len() == before.len() + 1
            &&& after.drop_last() == before
            &&& after.last().value_spec() == e
            &&& after.last().span_spec().lines@.len() == 0
            &&& after.last().span_spec().grapheme_range is None
            &&& after.last().span_spec().byte_range is None
            &&& after.last().span_spec().source@.len() == 0
        },
        None => after == before,
    }
}

/// The grapheme ranges of two tokens, where both have one, come in order
/// without overlapping.
pub open spec fn spans_ordered<T>(t: Token<T>, u: Token<T>) -> bool {
    match (t.span_spec().grapheme_range, u.span_spec().grapheme_range) {
        (Some(a), Some(b)) => a.start <= a.end < b.start,
        _ => true,
    }
}

/// The tokens from `from` on have grapheme ranges in order, each ending
/// before grapheme `count`.
pub open spec fn appended_in_order<T>(tokens: Seq<Token<T>>, from: int, count: nat) -> bool {
    &&& forall|i: int|
        from <= i < tokens.len() - 1 ==> #[trigger] spans_ordered(tokens[i], tokens[i + 1])
    &&& forall|i: int|
        from <= i < tokens.len() ==> (#[trigger] tokens[i].span_spec().grapheme_range matches Some(
            a,
        ) ==> a.start <= a.end < count)
}

/// Appending a token that starts at grapheme `count` keeps appended tokens in order.
proof fn lemma_append_step<T>(
    a: Seq<Token<T>>,
    b: Seq<Token<T>>,
    start: int,
    count_a: nat,
    count_b: nat,
)
    requires
        0 <= start <= a.len(),
        appended_in_order(a, start, count_a),
        count_b >= count_a,
        b == a || (b.len() == a.len() + 1 && b.drop_last() == a && (b.last().span_spec().grapheme_range matches Some(
            g,
        ) ==> g.start == count_a && g.start <= g.end < count_b)),
    ensures
        appended_in_order(b, start, count_b),
{
    if b != a {
        assert forall|i: int| start <= i < b.len() - 1 implies #[trigger] spans_ordered(
            b[i],
            b[i + 1],
        ) by {
            assert(b[i] == a[i]);
            if i + 1 < a.len() {
                assert(b[i + 1] == a[i + 1]);
                assert(spans_ordered(a[i], a[i + 1]));
            } else {
                assert(b[i + 1] == b.last());
                assert(a[i].span_spec().grapheme_range matches Some(x) ==> x.start <= x.end
                    < count_a);
            }
        }
        assert forall|i: int| start <= i < b.len() implies (
        #[trigger] b[i].span_spec().grapheme_range matches Some(x) ==> x.start <= x.end
            < count_b) by {
            if i < a.len() {
                assert(b[i] == a[i]);
                assert(a[i].span_spec().grapheme_range matches Some(x) ==> x.start <= x.end
                    < count_a);
            }
        }
    }
}

/// The last of `tokens` is the end-of-input token `e`, with the empty span.
pub open spec fn eof_last<T>(tokens: Seq<Token<T>>, e: T) -> bool {
    &&& tokens.len() > 0
    &&& tokens.last().value_spec() == e
    &&& tokens.last().span_spec().grapheme_range is None
    &&& tokens.last().span_spec().byte_range is None
    &&& tokens.last().span_spec().lines@.len() == 0
}

/// With no claim at all, no claim is true.
proof fn lemma_no_claim(claims: Seq<bool>)
    requires
        last_claim(claims) is None,
    ensures
        forall|j: int| 0 <= j < claims.len() ==> !claims[j],
    decreases claims.len(),
{
    if claims.len() > 0 {
        lemma_no_claim(claims.drop_last());
        assert forall|j: int| 0 <= j < claims.len() implies !claims[j] by {
            if j < claims.len() - 1 {
                assert(claims.drop_last()[j] == claims[j]);
            }
        }
    }
}

/// The last claim found is within the claims.
proof fn lemma_last_claim_bound(claims: Seq<bool>)
    ensures
        last_claim(claims) matches Some(i) ==> 0 <= i < claims.len() && claims[i],
    decreases claims.len(),
{
    if claims.len() > 0 && !claims.last() {
        lemma_last_claim_bound(claims.drop_last());
    }
}

} // verus!
