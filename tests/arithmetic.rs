use parsley::{GraphemeLocation, Graphemes, LexError, Lexer, Token, TokenValue, Tokenizer};

#[derive(Debug, Clone, PartialEq)]
enum Operation {
    Addition,
    Subtraction,
    OpeningParan,
    ClosingParan,
}

#[derive(Debug, Clone, PartialEq)]
enum Arith {
    Number(String),
    Operation(Operation, String),
}

impl TokenValue for Arith {
    fn should_skip(&self) -> bool {
        false
    }

    fn kind(&self) -> u64 {
        match self {
            Arith::Number(_) => 1,
            Arith::Operation(..) => 2,
        }
    }
}

#[derive(Debug, Clone)]
enum ArithTokenizer {
    Number(String),
    Operation(Option<char>),
}

impl Tokenizer<Arith> for ArithTokenizer {
    fn fresh(&self) -> Self {
        self.clone()
    }

    fn can_tokenize(
        &mut self,
        _: &[Token<Arith>],
        grapheme: &str,
        _: &GraphemeLocation,
        _: &Option<String>,
    ) -> bool {
        match self {
            ArithTokenizer::Number(digits) => {
                if grapheme.chars().all(|c| c.is_ascii_digit()) {
                    digits.push_str(grapheme);
                    true
                } else {
                    false
                }
            }
            ArithTokenizer::Operation(op) => match grapheme {
                "+" | "-" | "(" | ")" => {
                    *op = grapheme.chars().next();
                    true
                }
                _ => false,
            },
        }
    }

    fn lex(
        &mut self,
        _: &[Token<Arith>],
        incoming: &mut Graphemes,
    ) -> Result<Arith, LexError> {
        match self {
            ArithTokenizer::Number(digits) => {
                while let Some((g, _)) = incoming.peek() {
                    if !g.chars().all(|c| c.is_ascii_digit()) {
                        break;
                    }
                    incoming.next();
                    digits.push_str(&g);
                }
                Ok(Arith::Number(digits.clone()))
            }
            ArithTokenizer::Operation(op) => {
                let (operation, text) = match op {
                    Some('+') => (Operation::Addition, "+"),
                    Some('-') => (Operation::Subtraction, "-"),
                    Some('(') => (Operation::OpeningParan, "("),
                    Some(')') => (Operation::ClosingParan, ")"),
                    _ => return Err(LexError::other("no operation".to_string())),
                };
                Ok(Arith::Operation(operation, text.to_string()))
            }
        }
    }
}

fn text_of(value: &Arith) -> String {
    match value {
        Arith::Number(s) => s.clone(),
        Arith::Operation(_, s) => s.clone(),
    }
}

#[test]
fn test_lexer_creation() {
    let mut lexer: Lexer<Arith, ArithTokenizer> =
        Lexer::new("123+145-78(".as_bytes().to_vec(), String::new(), true, true, None)
            .tokenizer(ArithTokenizer::Number(String::new()))
            .tokenizer(ArithTokenizer::Operation(None));
    lexer.tokenize().unwrap();

    let texts: Vec<String> = lexer.tokens().iter().map(|t| text_of(t.token())).collect();
    assert_eq!(texts, vec!["123", "+", "145", "-", "78", "("]);
    assert_eq!(
        lexer.tokens()[5].token(),
        &Arith::Operation(Operation::OpeningParan, "(".to_string())
    );
    assert_eq!(lexer.tokens()[3].token().kind(), 2);
    let span = lexer.tokens()[2].span();
    assert_eq!(span.grapheme_range().unwrap().start, 4);
    assert_eq!(span.grapheme_range().unwrap().end, 6);
    assert_eq!(span.lines()[0].range.start, 4);
    assert_eq!(span.lines()[0].range.end, 6);
}

#[test]
fn closing_paren_and_source_description() {
    let mut lexer: Lexer<Arith, ArithTokenizer> =
        Lexer::new("(1)".as_bytes().to_vec(), "memory".to_string(), true, false, None)
            .tokenizer(ArithTokenizer::Number(String::new()))
            .tokenizer(ArithTokenizer::Operation(None));
    lexer.tokenize().unwrap();
    assert_eq!(lexer.tokens().len(), 3);
    assert_eq!(
        lexer.tokens()[2].token(),
        &Arith::Operation(Operation::ClosingParan, ")".to_string())
    );
    assert_eq!(lexer.tokens()[0].span().source(), "memory");
    assert!(lexer.bytes().is_empty());
}
