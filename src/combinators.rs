use vstd::prelude::*;

use crate::node::{empty_tree, tree_of, trees_of, Node, NodeValue, Tree, ValueView};
use crate::token::{Token, TokenValue};

verus! {

/// The kind that the end-of-input token reports.
pub const EOF_KIND: u64 = 0xffff_ffff_ffff_ffff;

/// A parser, built from combinators and run against a token cursor.
#[derive(Debug)]
pub enum Parser {
    /// One token of the given kind; gives a leaf that refers to it.
    Token(u64),
    /// Each parser in turn; gives a node over their results.
    Sequence(Vec<Parser>),
    /// The parser, whose result's children must all be tokens of the given
    /// kind; gives a node holding their indices in order.
    Flatten(u64, Box<Parser>),
    /// The first of the parsers that succeeds.
    AnyOf(Vec<Parser>),
    /// The element as often as it matches, with an optional separator between.
    Repeated(Box<Parser>, Option<Box<Parser>>),
    /// The end-of-input token.
    Eof,
    /// Nothing: succeeds without reading.
    Nothing,
}

/// The outcome of running a parser: the tree and the position after it, or
/// `None` on failure.
pub type Outcome = Option<(Tree, nat)>;

/// The leaf for the token at `i`.
pub open spec fn token_leaf(i: nat) -> Tree {
    Tree::Branch(Some(ValueView::One(i as usize)), Seq::empty())
}

/// A single token of kind `k` at `pos`.
pub open spec fn token_outcome(k: u64, kinds: Seq<u64>, pos: nat) -> Outcome {
    if pos < kinds.len() && kinds[pos as int] == k {
        Some((token_leaf(pos), pos + 1))
    } else {
        None
    }
}

/// The token indices that a flattened node gathers from `children`, if each
/// child is a leaf for a token of kind `k`.
pub open spec fn gather(children: Seq<Tree>, k: u64, kinds: Seq<u64>) -> Option<Seq<usize>>
    decreases children.len(),
{
    if children.len() == 0 {
        Some(Seq::empty())
    } else {
        match (children.last(), gather(children.drop_last(), k, kinds)) {
            (Tree::Branch(Some(ValueView::One(i)), _), Some(is)) => if i < kinds.len() && kinds[i as int] == k {
                Some(is.push(i))
            } else {
                None
            },
            _ => None,
        }
    }
}

/// What running `p` on the token kinds `kinds` from `pos` gives.
pub open spec fn parse_spec(p: Parser, kinds: Seq<u64>, pos: nat) -> Outcome
    decreases p, kinds.len() + 1,
{
    match p {
        Parser::Token(k) => token_outcome(k, kinds, pos),
        Parser::Eof => match token_outcome(EOF_KIND, kinds, pos) {
            Some((_, n)) => Some((empty_tree(), n)),
            None => None,
        },
        Parser::Nothing => Some((empty_tree(), pos)),
        Parser::Sequence(ps) => match sequence_spec(ps@, 0, kinds, pos) {
            Some((ts, n)) => Some((Tree::Branch(None, ts), n)),
            None => None,
        },
        Parser::AnyOf(ps) => any_spec(ps@, 0, kinds, pos),
        Parser::Flatten(k, inner) => match parse_spec(*inner, kinds, pos) {
            Some((Tree::Branch(_, children), n)) => match gather(children, k, kinds) {
                Some(is) => Some((Tree::Branch(Some(ValueView::Many(is)), Seq::empty()), n)),
                None => None,
            },
            None => None,
        },
        Parser::Repeated(element, separator) => if pos <= kinds.len() {
            match separator {
                None => match repeat_spec(p, kinds, pos) {
                    Some((ts, n)) => Some((Tree::Branch(None, ts), n)),
                    None => None,
                },
                Some(_) => match parse_spec(*element, kinds, pos) {
                    Some((t, n)) => if n <= kinds.len() {
                        match repeat_spec(p, kinds, n) {
                            Some((ts, m)) => Some((Tree::Branch(None, seq![t] + ts), m)),
                            None => None,
                        }
                    } else {
                        None
                    },
                    None => None,
                },
            }
        } else {
            None
        },
    }
}

/// The parsers `ps[i..]` in turn from `pos`: their trees and the end position.
pub open spec fn sequence_spec(ps: Seq<Parser>, i: nat, kinds: Seq<u64>, pos: nat) -> Option<
    (Seq<Tree>, nat),
>
    decreases ps, ps.len() - i,
{
    if i >= ps.len() {
        Some((Seq::empty(), pos))
    } else {
        match parse_spec(ps[i as int], kinds, pos) {
            Some((t, n)) => match sequence_spec(ps, i + 1, kinds, n) {
                Some((ts, m)) => Some((seq![t] + ts, m)),
                None => None,
            },
            None => None,
        }
    }
}

/// The first of `ps[i..]` that succeeds from `pos`.
pub open spec fn any_spec(ps: Seq<Parser>, i: nat, kinds: Seq<u64>, pos: nat) -> Outcome
    decreases ps, ps.len() - i,
{
    if i >= ps.len() {
        None
    } else {
        match parse_spec(ps[i as int], kinds, pos) {
            Some(r) => Some(r),
            None => any_spec(ps, i + 1, kinds, pos),
        }
    }
}

/// The further repetitions of a `Repeated` parser from `pos`. Without a
/// separator, each is an element; with one, a separator then an element. The
/// repetition stops where the next one fails, or reads nothing; with a
/// separator, an element missing after a separator fails the whole.
pub open spec fn repeat_spec(p: Parser, kinds: Seq<u64>, pos: nat) -> Option<(Seq<Tree>, nat)>
    decreases p, kinds.len() - pos,
{
    match p {
        Parser::Repeated(element, None) => match parse_spec(*element, kinds, pos) {
            Some((t, n)) => if pos < n <= kinds.len() {
                match repeat_spec(p, kinds, n) {
                    Some((ts, m)) => Some((seq![t] + ts, m)),
                    None => None,
                }
            } else {
                Some((Seq::empty(), pos))
            },
            None => Some((Seq::empty(), pos)),
        },
        Parser::Repeated(element, Some(separator)) => match parse_spec(*separator, kinds, pos) {
            Some((_, n)) => match parse_spec(*element, kinds, n) {
                Some((t, m)) => if pos < m <= kinds.len() {
                    match repeat_spec(p, kinds, m) {
                        Some((ts, e)) => Some((seq![t] + ts, e)),
                        None => None,
                    }
                } else {
                    Some((Seq::empty(), pos))
                },
                None => None,
            },
            None => Some((Seq::empty(), pos)),
        },
        _ => None,
    }
}

/// A run's result seen as an outcome.
pub open spec fn outcome_of(r: Option<(Node, usize)>) -> Outcome {
    match r {
        Some((node, n)) => Some((tree_of(node), n as nat)),
        None => None,
    }
}

/// A run's list of results seen as trees.
pub open spec fn outcomes_of(r: Option<(Vec<Node>, usize)>) -> Option<(Seq<Tree>, nat)> {
    match r {
        Some((nodes, n)) => Some((trees_of(nodes@), n as nat)),
        None => None,
    }
}

fn run_token(k: u64, kinds: &Vec<u64>, pos: usize) -> (r: Option<(Node, usize)>)
    ensures
        outcome_of(r) == token_outcome(k, kinds@, pos as nat),
{
    if pos < kinds.len() && kinds[pos] == k {
        Some((Node::leaf(NodeValue::Token(pos)), pos + 1))
    } else {
        None
    }
}

/// Gathering fails on a list whose prefix it fails on.
proof fn lemma_gather_prefix_fails(t: Seq<Tree>, j: int, k: u64, kinds: Seq<u64>)
    requires
        0 <= j <= t.len(),
        gather(t.subrange(0, j), k, kinds) is None,
    ensures
        gather(t, k, kinds) is None,
    decreases t.len(),
{
    if j == t.len() {
        assert(t.subrange(0, j) =~= t);
    } else {
        assert(t.drop_last().subrange(0, j) =~= t.subrange(0, j));
        lemma_gather_prefix_fails(t.drop_last(), j, k, kinds);
    }
}

/// The token indices of `children`, if each is a leaf for a token of kind `k`.
fn gather_exec(children: &Vec<Node>, k: u64, kinds: &Vec<u64>) -> (r: Option<Vec<usize>>)
    ensures
        match r {
            Some(is) => gather(trees_of(children@), k, kinds@) == Some(is@),
            None => gather(trees_of(children@), k, kinds@) is None,
        },
{
    let ghost trees = trees_of(children@);
    let mut out: Vec<usize> = Vec::new();
    let mut j: usize = 0;
    assert(trees.subrange(0, 0) =~= Seq::<Tree>::empty());
    while j < children.len()
        invariant
            j <= children@.len(),
            trees == trees_of(children@),
            gather(trees.subrange(0, j as int), k, kinds@) == Some(out@),
        decreases children@.len() - j,
    {
        let ghost prefix = trees.subrange(0, j as int + 1);
        assert(prefix.drop_last() =~= trees.subrange(0, j as int));
        proof {
            crate::node::lemma_tree_of_children(children@[j as int]);
        }
        match &children[j].value {
            Some(NodeValue::Token(i)) => {
                if *i < kinds.len() && kinds[*i] == k {
                    out.push(*i);
                } else {
                    proof {
                        lemma_gather_prefix_fails(trees, j + 1, k, kinds@);
                    }
                    return None;
                }
            },
            _ => {
                proof {
                    lemma_gather_prefix_fails(trees, j + 1, k, kinds@);
                }
                return None;
            },
        }
        j = j + 1;
    }
    assert(trees.subrange(0, j as int) =~= trees);
    Some(out)
}

/// Runs `p` on `kinds` from `pos`.
fn run(p: &Parser, kinds: &Vec<u64>, pos: usize) -> (r: Option<(Node, usize)>)
    ensures
        outcome_of(r) == parse_spec(*p, kinds@, pos as nat),
    decreases p, kinds@.len() + 1,
{
    match p {
        Parser::Token(k) => run_token(*k, kinds, pos),
        Parser::Eof => match run_token(EOF_KIND, kinds, pos) {
            Some((_, n)) => Some((Node::empty(), n)),
            None => None,
        },
        Parser::Nothing => Some((Node::empty(), pos)),
        Parser::Sequence(ps) => match run_sequence(ps, 0, kinds, pos) {
            Some((nodes, n)) => Some((Node::branch(nodes), n)),
            None => None,
        },
        Parser::AnyOf(ps) => run_any(ps, 0, kinds, pos),
        Parser::Flatten(k, inner) => match run(inner, kinds, pos) {
            Some((node, n)) => {
                proof {
                    crate::node::lemma_tree_of_children(node);
                }
                match gather_exec(&node.children, *k, kinds) {
                    Some(is) => Some((Node::leaf(NodeValue::Tokens(is)), n)),
                    None => None,
                }
            },
            None => None,
        },
        Parser::Repeated(element, separator) => {
            if pos > kinds.len() {
                return None;
            }
            match separator {
                None => match run_repeat(p, kinds, pos) {
                    Some((nodes, n)) => Some((Node::branch(nodes), n)),
                    None => None,
                },
                Some(_) => match run(element, kinds, pos) {
                    Some((first, n)) => {
                        if n > kinds.len() {
                            return None;
                        }
                        match run_repeat(p, kinds, n) {
                            Some((mut nodes, m)) => {
                                let ghost rest = nodes@;
                                nodes.insert(0, first);
                                proof {
                                    assert(trees_of(nodes@) =~= seq![tree_of(first)] + trees_of(rest));
                                }
                                Some((Node::branch(nodes), m))
                            },
                            None => None,
                        }
                    },
                    None => None,
                },
            }
        },
    }
}

/// Runs `ps[i..]` in turn from `pos`.
fn run_sequence(ps: &Vec<Parser>, i: usize, kinds: &Vec<u64>, pos: usize) -> (r: Option<
    (Vec<Node>, usize),
>)
    ensures
        outcomes_of(r) == sequence_spec(ps@, i as nat, kinds@, pos as nat),
    decreases ps@, ps@.len() - i,
{
    if i >= ps.len() {
        assert(trees_of(Seq::<Node>::empty()) =~= Seq::<Tree>::empty());
        return Some((Vec::new(), pos));
    }
    match run(&ps[i], kinds, pos) {
        Some((node, n)) => match run_sequence(ps, i + 1, kinds, n) {
            Some((mut nodes, m)) => {
                let ghost rest = nodes@;
                nodes.insert(0, node);
                proof {
                    assert(trees_of(nodes@) =~= seq![tree_of(node)] + trees_of(rest));
                }
                Some((nodes, m))
            },
            None => None,
        },
        None => None,
    }
}

/// Runs the first of `ps[i..]` that succeeds from `pos`.
fn run_any(ps: &Vec<Parser>, i: usize, kinds: &Vec<u64>, pos: usize) -> (r: Option<(Node, usize)>)
    ensures
        outcome_of(r) == any_spec(ps@, i as nat, kinds@, pos as nat),
    decreases ps@, ps@.len() - i,
{
    if i >= ps.len() {
        return None;
    }
    match run(&ps[i], kinds, pos) {
        Some(r) => Some(r),
        None => run_any(ps, i + 1, kinds, pos),
    }
}

/// Runs the further repetitions of the `Repeated` parser `p` from `pos`.
fn run_repeat(p: &Parser, kinds: &Vec<u64>, pos: usize) -> (r: Option<(Vec<Node>, usize)>)
    ensures
        outcomes_of(r) == repeat_spec(*p, kinds@, pos as nat),
    decreases p, kinds@.len() - pos,
{
    proof {
        assert(trees_of(Seq::<Node>::empty()) =~= Seq::<Tree>::empty());
    }
    match p {
        Parser::Repeated(element, None) => match run(element, kinds, pos) {
            Some((node, n)) => {
                if pos < n && n <= kinds.len() {
                    match run_repeat(p, kinds, n) {
                        Some((mut nodes, m)) => {
                            let ghost rest = nodes@;
                            nodes.insert(0, node);
                            proof {
                                assert(trees_of(nodes@) =~= seq![tree_of(node)] + trees_of(rest));
                            }
                            Some((nodes, m))
                        },
                        None => None,
                    }
                } else {
                    Some((Vec::new(), pos))
                }
            },
            None => Some((Vec::new(), pos)),
        },
        Parser::Repeated(element, Some(separator)) => match run(separator, kinds, pos) {
            Some((_, n)) => match run(element, kinds, n) {
                Some((node, m)) => {
                    if pos < m && m <= kinds.len() {
                        match run_repeat(p, kinds, m) {
                            Some((mut nodes, e)) => {
                                let ghost rest = nodes@;
                                nodes.insert(0, node);
                                proof {
                                    assert(trees_of(nodes@) =~= seq![tree_of(node)] + trees_of(rest));
                                }
                                Some((nodes, e))
                            },
                            None => None,
                        }
                    } else {
                        Some((Vec::new(), pos))
                    }
                },
                None => None,
            },
            None => Some((Vec::new(), pos)),
        },
        _ => None,
    }
}

/// The kind each token reports.
pub open spec fn kinds_of<T: TokenValue>(tokens: Seq<Token<T>>) -> Seq<u64> {
    tokens.map_values(|t: Token<T>| t.value_spec().kind_spec())
}

/// A cursor over the kinds of a token stream. Parsers read from it; a failed
/// parser leaves it where it was.
#[derive(Debug, Clone)]
pub struct TokenIter {
    kinds: Vec<u64>,
    pos: usize,
}

impl TokenIter {
    /// The kinds of the tokens, in order.
    pub closed spec fn kinds_spec(&self) -> Seq<u64> {
        self.kinds@
    }

    /// The index of the next token.
    pub closed spec fn pos_spec(&self) -> nat {
        self.pos as nat
    }

    pub closed spec fn wf(&self) -> bool {
        self.pos <= self.kinds@.len()
    }

    /// A cursor at the first of `tokens`, over the kind each one reports.
    pub fn new<T: TokenValue>(tokens: &[Token<T>]) -> (r: TokenIter)
        ensures
            r.wf(),
            r.kinds_spec() == kinds_of(tokens@),
            r.pos_spec() == 0,
    {
        let mut kinds: Vec<u64> = Vec::new();
        let mut i: usize = 0;
        while i < tokens.len()
            invariant
                i <= tokens@.len(),
                kinds@ == kinds_of(tokens@.subrange(0, i as int)),
            decreases tokens@.len() - i,
        {
            kinds.push(tokens[i].token().kind());
            i = i + 1;
            assert(kinds@ =~= kinds_of(tokens@.subrange(0, i as int)));
        }
        assert(tokens@.subrange(0, i as int) =~= tokens@);
        TokenIter { kinds, pos: 0 }
    }

    /// A cursor at the first of the tokens whose kinds are `kinds`.
    pub fn from_kinds(kinds: Vec<u64>) -> (r: TokenIter)
        ensures
            r.wf(),
            r.kinds_spec() == kinds@,
            r.pos_spec() == 0,
    {
        TokenIter { kinds, pos: 0 }
    }

    /// The number of tokens not read yet.
    pub fn len(&self) -> (r: usize)
        requires
            self.wf(),
        ensures
            r == self.kinds_spec().len() - self.pos_spec(),
    {
        self.kinds.len() - self.pos
    }

    /// The index of the next token.
    pub fn position(&self) -> (r: usize)
        ensures
            r == self.pos_spec(),
    {
        self.pos
    }
}

/// Why parsing failed.
#[derive(Debug, Clone, Copy, PartialEq, Eq)]
pub enum ParseError {
    /// The parser did not match the tokens.
    NoMatch,
    /// The parser matched, but tokens were left after it.
    UnhandledTokens,
}

impl Parser {
    /// Runs the parser from the cursor. On success the cursor moves past what
    /// was read; on failure it stays where it was.
    pub fn parse(&self, tokens: &mut TokenIter) -> (r: Result<Node, ParseError>)
        requires
            old(tokens).wf(),
        ensures
            final(tokens).wf(),
            final(tokens).kinds_spec() == old(tokens).kinds_spec(),
            match parse_spec(*self, old(tokens).kinds_spec(), old(tokens).pos_spec()) {
                Some((t, n)) => r matches Ok(node) && tree_of(node) == t && final(tokens).pos_spec()
                    == n,
                None => r == Err::<Node, ParseError>(ParseError::NoMatch) && final(tokens).pos_spec()
                    == old(tokens).pos_spec(),
            },
    {
        proof {
            lemma_parse_within(*self, tokens.kinds@, tokens.pos as nat);
        }
        match run(self, &tokens.kinds, tokens.pos) {
            Some((node, n)) => {
                tokens.pos = n;
                Ok(node)
            },
            None => Err(ParseError::NoMatch),
        }
    }
}

/// Running a parser from a position within the tokens ends within them, no
/// earlier than it started.
pub proof fn lemma_parse_within(p: Parser, kinds: Seq<u64>, pos: nat)
    requires
        pos <= kinds.len(),
    ensures
        parse_spec(p, kinds, pos) matches Some((_, n)) ==> pos <= n <= kinds.len(),
    decreases p, kinds.len() + 1,
{
    match p {
        Parser::Sequence(ps) => lemma_sequence_within(ps@, 0, kinds, pos),
        Parser::AnyOf(ps) => lemma_any_within(ps@, 0, kinds, pos),
        Parser::Flatten(_, inner) => lemma_parse_within(*inner, kinds, pos),
        Parser::Repeated(element, separator) => {
            match separator {
                None => lemma_repeat_within(p, kinds, pos),
                Some(_) => {
                    lemma_parse_within(*element, kinds, pos);
                    if let Some((_, n)) = parse_spec(*element, kinds, pos) {
                        lemma_repeat_within(p, kinds, n);
                    }
                },
            }
        },
        _ => {},
    }
}

proof fn lemma_sequence_within(ps: Seq<Parser>, i: nat, kinds: Seq<u64>, pos: nat)
    requires
        pos <= kinds.len(),
    ensures
        sequence_spec(ps, i, kinds, pos) matches Some((_, n)) ==> pos <= n <= kinds.len(),
    decreases ps, ps.len() - i,
{
    if i < ps.len() {
        lemma_parse_within(ps[i as int], kinds, pos);
        if let Some((_, n)) = parse_spec(ps[i as int], kinds, pos) {
            lemma_sequence_within(ps, i + 1, kinds, n);
        }
    }
}

proof fn lemma_any_within(ps: Seq<Parser>, i: nat, kinds: Seq<u64>, pos: nat)
    requires
        pos <= kinds.len(),
    ensures
        any_spec(ps, i, kinds, pos) matches Some((_, n)) ==> pos <= n <= kinds.len(),
    decreases ps, ps.len() - i,
{
    if i < ps.len() {
        lemma_parse_within(ps[i as int], kinds, pos);
        lemma_any_within(ps, i + 1, kinds, pos);
    }
}

proof fn lemma_repeat_within(p: Parser, kinds: Seq<u64>, pos: nat)
    requires
        pos <= kinds.len(),
    ensures
        repeat_spec(p, kinds, pos) matches Some((_, n)) ==> pos <= n <= kinds.len(),
    decreases p, kinds.len() - pos,
{
    match p {
        Parser::Repeated(element, None) => {
            if let Some((_, n)) = parse_spec(*element, kinds, pos) {
                if pos < n <= kinds.len() {
                    lemma_repeat_within(p, kinds, n);
                }
            }
        },
        Parser::Repeated(element, Some(separator)) => {
            if let Some((_, n)) = parse_spec(*separator, kinds, pos) {
                if let Some((_, m)) = parse_spec(*element, kinds, n) {
                    if pos < m <= kinds.len() {
                        lemma_repeat_within(p, kinds, m);
                    }
                }
            }
        },
        _ => {},
    }
}

/// A parser for one token of kind `kind`, giving a leaf that refers to it.
pub fn token(kind: u64) -> (r: Parser)
    ensures
        r == Parser::Token(kind),
{
    Parser::Token(kind)
}

/// A parser that runs `parsers` in turn and gives a node over their results;
/// if one fails, the whole fails and reads nothing.
pub fn sequence(parsers: Vec<Parser>) -> (r: Parser)
    ensures
        r == Parser::Sequence(parsers),
{
    Parser::Sequence(parsers)
}

/// A parser that runs `sequence` and gives a node holding the indices of the
/// tokens its result's children refer to; it fails unless each child is a
/// leaf for a token of kind `kind`.
pub fn flatten(kind: u64, sequence: Parser) -> (r: Parser)
    ensures
        r == Parser::Flatten(kind, Box::new(sequence)),
{
    Parser::Flatten(kind, Box::new(sequence))
}

/// A parser for the end-of-input token.
pub fn eof() -> (r: Parser)
    ensures
        r == Parser::Eof,
{
    Parser::Eof
}

/// A parser that tries `parsers` in order, each from the same position, and
/// gives the result of the first that succeeds.
pub fn any_of(parsers: Vec<Parser>) -> (r: Parser)
    requires
        parsers@.len() > 0,
    ensures
        r == Parser::AnyOf(parsers),
{
    Parser::AnyOf(parsers)
}

/// A parser for `element` repeated as often as it matches. Without a
/// separator, zero matches is a success. With one, at least one element is
/// needed, then separator and element pairs; an element missing after a
/// separator fails the whole. A repetition that reads no token ends the
/// repetition and is left out. Separators are left out of the result.
pub fn repeated(element: Parser, separator: Option<Parser>) -> (r: Parser)
    ensures
        r == Parser::Repeated(
            Box::new(element),
            match separator {
                Some(s) => Some(Box::new(s)),
                None => None,
            },
        ),
{
    let separator = match separator {
        Some(s) => Some(Box::new(s)),
        None => None,
    };
    Parser::Repeated(Box::new(element), separator)
}

/// A parser that always succeeds, reads nothing and gives the empty node.
pub fn nothing() -> (r: Parser)
    ensures
        r == Parser::Nothing,
{
    Parser::Nothing
}

/// A sequence of two parsers fails, reading nothing, when the second fails
/// after the first succeeded.
pub proof fn lemma_sequence_second_fails(a: Parser, b: Parser, ps: Vec<Parser>, kinds: Seq<u64>, pos: nat)
    requires
        ps@ == seq![a, b],
        parse_spec(a, kinds, pos) is Some,
        parse_spec(b, kinds, parse_spec(a, kinds, pos)->Some_0.1) is None,
    ensures
        parse_spec(Parser::Sequence(ps), kinds, pos) is None,
{
    let n = parse_spec(a, kinds, pos)->Some_0.1;
    assert(ps@[0] == a);
    assert(ps@[1] == b);
    assert(sequence_spec(ps@, 1, kinds, n) is None);
    assert(sequence_spec(ps@, 0, kinds, pos) is None);
}

/// A choice of two parsers whose first fails gives exactly what the second
/// gives from the same position, tree and end position alike.
pub proof fn lemma_any_of_second(a: Parser, b: Parser, ps: Vec<Parser>, kinds: Seq<u64>, pos: nat)
    requires
        ps@ == seq![a, b],
        parse_spec(a, kinds, pos) is None,
    ensures
        parse_spec(Parser::AnyOf(ps), kinds, pos) == parse_spec(b, kinds, pos),
{
    assert(ps@[0] == a);
    assert(ps@[1] == b);
    assert(any_spec(ps@, 2, kinds, pos) is None);
    assert(any_spec(ps@, 1, kinds, pos) == parse_spec(b, kinds, pos));
    assert(any_spec(ps@, 0, kinds, pos) == parse_spec(b, kinds, pos));
}

/// Repeating an element without a separator where the element does not
/// match succeeds with no children and reads nothing.
pub proof fn lemma_repeated_zero(element: Parser, kinds: Seq<u64>, pos: nat)
    requires
        pos <= kinds.len(),
        parse_spec(element, kinds, pos) is None,
    ensures
        parse_spec(Parser::Repeated(Box::new(element), None), kinds, pos) == Some(
            (Tree::Branch(None, Seq::empty()), pos),
        ),
{
    let p = Parser::Repeated(Box::new(element), None);
    assert(repeat_spec(p, kinds, pos) == Some((Seq::<Tree>::empty(), pos)));
}

/// Flattening a sequence of three parsers for tokens of one kind, over three
/// such tokens, gives their indices in order and reads the three.
pub proof fn lemma_flatten_three(kind: u64, ps: Vec<Parser>, kinds: Seq<u64>, pos: nat)
    requires
        ps@ == seq![Parser::Token(kind), Parser::Token(kind), Parser::Token(kind)],
        pos + 3 <= kinds.len(),
        kinds[pos as int] == kind,
        kinds[pos as int + 1] == kind,
        kinds[pos as int + 2] == kind,
        kinds.len() <= usize::MAX,
    ensures
        parse_spec(Parser::Flatten(kind, Box::new(Parser::Sequence(ps))), kinds, pos) == Some(
            (
                Tree::Branch(
                    Some(ValueView::Many(seq![pos as usize, (pos + 1) as usize, (pos + 2) as usize])),
                    Seq::empty(),
                ),
                pos + 3,
            ),
        ),
{
    let s = ps@;
    assert(s[0] == Parser::Token(kind));
    assert(s[1] == Parser::Token(kind));
    assert(s[2] == Parser::Token(kind));
    assert(sequence_spec(s, 3, kinds, pos + 3) == Some((Seq::<Tree>::empty(), pos + 3)));
    let l2 = token_leaf(pos + 2);
    let l1 = token_leaf(pos + 1);
    let l0 = token_leaf(pos);
    assert(parse_spec(s[2], kinds, (pos + 2) as nat) == Some((l2, pos + 3)));
    assert(parse_spec(s[1], kinds, (pos + 1) as nat) == Some((l1, pos + 2)));
    assert(parse_spec(s[0], kinds, pos) == Some((l0, pos + 1)));
    assert(sequence_spec(s, 2, kinds, pos + 2) == Some((seq![l2] + Seq::<Tree>::empty(), pos + 3)));
    assert(sequence_spec(s, 1, kinds, pos + 1) == Some((seq![l1] + (seq![l2] + Seq::<Tree>::empty()), pos + 3)));
    assert(sequence_spec(s, 0, kinds, pos) == Some((seq![l0] + (seq![l1] + (seq![l2] + Seq::<Tree>::empty())), pos + 3)));
    let children = seq![l0] + (seq![l1] + (seq![l2] + Seq::<Tree>::empty()));
    assert(children =~= seq![l0, l1, l2]);
    assert(seq![l0, l1, l2].drop_last() =~= seq![l0, l1]);
    assert(seq![l0, l1].drop_last() =~= seq![l0]);
    assert(seq![l0].drop_last() =~= Seq::<Tree>::empty());
    assert(gather(Seq::<Tree>::empty(), kind, kinds) == Some(Seq::<usize>::empty()));
    assert(seq![l0].last() == l0);
    assert((pos as usize) as int == pos);
    assert(Seq::<usize>::empty().push(pos as usize) =~= seq![pos as usize]);
    assert(gather(seq![l0], kind, kinds) == Some(seq![pos as usize]));
    assert(gather(seq![l0, l1], kind, kinds) == Some(seq![pos as usize].push((pos + 1) as usize)));
    assert(gather(seq![l0, l1, l2], kind, kinds) == Some(
        seq![pos as usize].push((pos + 1) as usize).push((pos + 2) as usize),
    ));
    assert(parse_spec(Parser::Sequence(ps), kinds, pos) == Some(
        (Tree::Branch(None, seq![l0, l1, l2]), pos + 3),
    ));
    assert(seq![pos as usize].push((pos + 1) as usize).push((pos + 2) as usize) =~= seq![
        pos as usize,
        (pos + 1) as usize,
        (pos + 2) as usize,
    ]);
}

} // verus!
