use parsley::{
    any_of, eof, flatten, nothing, repeated, sequence, token, Node, NodeValue, ParseError,
    Parser, TokenIter, TreeBuilder, EOF_KIND,
};

const NUM: u64 = 1;
const COMMA: u64 = 2;
const PLUS: u64 = 3;

fn cursor(kinds: &[u64]) -> TokenIter {
    TokenIter::from_kinds(kinds.to_vec())
}

fn leaf_index(node: &Node) -> Option<usize> {
    match &node.value {
        Some(NodeValue::Token(i)) => Some(*i),
        _ => None,
    }
}

#[test]
fn token_matches_its_kind_only() {
    let mut it = cursor(&[NUM, PLUS]);
    let node = token(NUM).parse(&mut it).unwrap();
    assert_eq!(leaf_index(&node), Some(0));
    assert_eq!(it.position(), 1);
    assert_eq!(token(NUM).parse(&mut it).err(), Some(ParseError::NoMatch));
    assert_eq!(it.position(), 1);
    let mut empty = cursor(&[]);
    assert_eq!(token(NUM).parse(&mut empty).err(), Some(ParseError::NoMatch));
}

#[test]
fn failed_sequence_reads_nothing() {
    let mut it = cursor(&[NUM, NUM]);
    let parser = sequence(vec![token(NUM), token(PLUS)]);
    assert_eq!(parser.parse(&mut it).err(), Some(ParseError::NoMatch));
    assert_eq!(it.position(), 0);
    assert_eq!(it.len(), 2);
}

#[test]
fn sequence_gives_children_in_order() {
    let mut it = cursor(&[NUM, PLUS, NUM]);
    let node = sequence(vec![token(NUM), token(PLUS), token(NUM)]).parse(&mut it).unwrap();
    let indices: Vec<Option<usize>> = node.children().iter().map(leaf_index).collect();
    assert_eq!(indices, vec![Some(0), Some(1), Some(2)]);
    assert!(node.value.is_none());
    assert_eq!(it.len(), 0);
}

#[test]
fn any_of_falls_back_to_the_second() {
    let mut alone = cursor(&[PLUS, NUM]);
    let b_alone = sequence(vec![token(PLUS), token(NUM)]).parse(&mut alone).unwrap();

    let mut it = cursor(&[PLUS, NUM]);
    let choice = any_of(vec![
        sequence(vec![token(PLUS), token(PLUS)]),
        sequence(vec![token(PLUS), token(NUM)]),
    ]);
    let node = choice.parse(&mut it).unwrap();
    assert_eq!(it.position(), alone.position());
    let a: Vec<Option<usize>> = node.children().iter().map(leaf_index).collect();
    let b: Vec<Option<usize>> = b_alone.children().iter().map(leaf_index).collect();
    assert_eq!(a, b);
}

#[test]
fn any_of_fails_when_all_fail() {
    let mut it = cursor(&[COMMA]);
    let choice = any_of(vec![token(NUM), token(PLUS)]);
    assert_eq!(choice.parse(&mut it).err(), Some(ParseError::NoMatch));
    assert_eq!(it.position(), 0);
}

#[test]
fn repeated_without_matches_is_empty() {
    let mut it = cursor(&[PLUS]);
    let node = repeated(token(NUM), None).parse(&mut it).unwrap();
    assert!(node.children().is_empty());
    assert_eq!(it.position(), 0);
}

#[test]
fn repeated_is_greedy() {
    let mut it = cursor(&[NUM, NUM, NUM, PLUS]);
    let node = repeated(token(NUM), None).parse(&mut it).unwrap();
    assert_eq!(node.children().len(), 3);
    assert_eq!(it.position(), 3);
}

#[test]
fn repeated_with_separator() {
    let list = || repeated(token(NUM), Some(token(COMMA)));
    let mut it = cursor(&[NUM, COMMA, NUM, COMMA, NUM, PLUS]);
    let node = list().parse(&mut it).unwrap();
    let indices: Vec<Option<usize>> = node.children().iter().map(leaf_index).collect();
    assert_eq!(indices, vec![Some(0), Some(2), Some(4)]);
    assert_eq!(it.position(), 5);

    let mut dangling = cursor(&[NUM, COMMA, PLUS]);
    assert_eq!(list().parse(&mut dangling).err(), Some(ParseError::NoMatch));
    assert_eq!(dangling.position(), 0);

    let mut none = cursor(&[PLUS]);
    assert_eq!(list().parse(&mut none).err(), Some(ParseError::NoMatch));
}

#[test]
fn repeated_stops_at_an_empty_match() {
    let mut it = cursor(&[NUM]);
    let node = repeated(nothing(), None).parse(&mut it).unwrap();
    assert!(node.children().is_empty());
    assert_eq!(it.position(), 0);
}

#[test]
fn flatten_gathers_token_indices() {
    let mut it = cursor(&[PLUS, NUM, NUM, NUM]);
    token(PLUS).parse(&mut it).unwrap();
    let parser = flatten(NUM, sequence(vec![token(NUM), token(NUM), token(NUM)]));
    let node = parser.parse(&mut it).unwrap();
    assert_eq!(node.value, Some(NodeValue::Tokens(vec![1, 2, 3])));
    assert!(node.children().is_empty());
    assert_eq!(it.position(), 4);
}

#[test]
fn flatten_rejects_other_kinds() {
    let mut it = cursor(&[NUM, PLUS]);
    let parser = flatten(NUM, sequence(vec![token(NUM), token(PLUS)]));
    assert_eq!(parser.parse(&mut it).err(), Some(ParseError::NoMatch));
    assert_eq!(it.position(), 0);
    let mut it = cursor(&[NUM]);
    let parser = flatten(NUM, sequence(vec![token(NUM), nothing()]));
    assert_eq!(parser.parse(&mut it).err(), Some(ParseError::NoMatch));
}

#[test]
fn eof_and_nothing() {
    let mut it = cursor(&[NUM, EOF_KIND]);
    assert_eq!(eof().parse(&mut it).err(), Some(ParseError::NoMatch));
    let node = nothing().parse(&mut it).unwrap();
    assert!(node.value.is_none() && node.children().is_empty());
    assert_eq!(it.position(), 0);
    token(NUM).parse(&mut it).unwrap();
    let end = eof().parse(&mut it).unwrap();
    assert!(end.value.is_none());
    assert_eq!(it.position(), 2);
}

#[test]
fn tree_builder_rejects_unhandled_tokens() {
    let builder = TreeBuilder::new(token(NUM));
    let mut it = cursor(&[NUM, NUM]);
    assert_eq!(builder.parse(&mut it).err(), Some(ParseError::UnhandledTokens));

    let builder = TreeBuilder::new(sequence(vec![repeated(token(NUM), None), eof()]));
    let mut it = cursor(&[NUM, NUM, EOF_KIND]);
    let node = builder.parse(&mut it).unwrap();
    assert_eq!(node.children().len(), 2);
    assert_eq!(node.children()[0].children().len(), 2);

    let builder = TreeBuilder::new(token(PLUS));
    let mut it = cursor(&[NUM]);
    assert_eq!(builder.parse(&mut it).err(), Some(ParseError::NoMatch));
}

#[test]
fn node_take_leaves_empty() {
    let mut it = cursor(&[NUM, NUM]);
    let mut node = repeated(token(NUM), None).parse(&mut it).unwrap();
    let taken = node.take();
    assert_eq!(taken.children().len(), 2);
    assert!(node.children().is_empty() && node.value.is_none());
    let empty = Node::empty();
    assert!(empty.children().is_empty());
    let p: Parser = token(NUM);
    assert!(matches!(p, Parser::Token(NUM)));
}
