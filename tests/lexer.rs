use parsley::{
    last_claimant, GraphemeLocation, Graphemes, LexError, Lexer, Token, TokenValue, Tokenizer,
};

#[derive(Debug, Clone, PartialEq)]
enum Value {
    Eof,
    DoubleQuotedString(String),
    Whitespace,
}

impl TokenValue for Value {
    fn should_skip(&self) -> bool {
        matches!(self, Value::Whitespace)
    }

    fn kind(&self) -> u64 {
        match self {
            Value::Eof => parsley::EOF_KIND,
            Value::DoubleQuotedString(_) => 1,
            Value::Whitespace => 2,
        }
    }
}

#[derive(Debug, Clone, Default)]
struct DoubleQuotedStringLexer {
    internal_value: String,
}

impl Tokenizer<Value> for DoubleQuotedStringLexer {
    fn fresh(&self) -> Self {
        self.clone()
    }

    fn can_tokenize(
        &mut self,
        _: &[Token<Value>],
        grapheme: &str,
        _: &GraphemeLocation,
        next_grapheme: &Option<String>,
    ) -> bool {
        if let ("\"", Some(next_g)) = (grapheme, next_grapheme) {
            if !matches!(next_g.as_str(), "\n" | "\r") {
                return true;
            }
        }
        false
    }

    fn lex(
        &mut self,
        _: &[Token<Value>],
        incoming: &mut Graphemes,
    ) -> Result<Value, LexError> {
        loop {
            let mut character = match incoming.next() {
                Some(Ok((grapheme, _location))) => grapheme,
                Some(Err(error)) => return Err(error),
                None => return Err(LexError::UnexpectedEndOfStream),
            };

            if let Some('\\') = self.internal_value.chars().last() {
                character = match character.as_str() {
                    "r" => '\r',
                    "n" => '\n',
                    "t" => '\t',
                    "\"" => '\"',
                    _ => {
                        return Err(LexError::other(format!(
                            "Invalid escape character '\\{}'",
                            character
                        )))
                    }
                }
                .to_string();
                self.internal_value.pop();
            } else if character == "\"" {
                return Ok(Value::DoubleQuotedString(self.internal_value.clone()));
            }

            self.internal_value.push_str(&character)
        }
    }
}

fn is_white(is_whitespace: bool, character: char) -> bool {
    is_whitespace && (character.is_whitespace() || character == '\u{FFFD}')
}

#[derive(Debug, Clone)]
struct Whitespace;

impl Tokenizer<Value> for Whitespace {
    fn fresh(&self) -> Self {
        self.clone()
    }

    fn can_tokenize(
        &mut self,
        _: &[Token<Value>],
        grapheme: &str,
        _: &GraphemeLocation,
        _next: &Option<String>,
    ) -> bool {
        grapheme.chars().fold(true, is_white)
    }

    fn lex(
        &mut self,
        _: &[Token<Value>],
        incoming: &mut Graphemes,
    ) -> Result<Value, LexError> {
        loop {
            match incoming.peek() {
                Some((grapheme, _)) if grapheme.chars().fold(true, is_white) => {
                    incoming.next();
                }
                _ => break,
            }
        }
        Ok(Value::Whitespace)
    }
}

#[derive(Debug, Clone)]
enum QuoteOrSpace {
    Quoted(DoubleQuotedStringLexer),
    Space(Whitespace),
}

impl Tokenizer<Value> for QuoteOrSpace {
    fn fresh(&self) -> Self {
        self.clone()
    }

    fn can_tokenize(
        &mut self,
        tokens: &[Token<Value>],
        grapheme: &str,
        location: &GraphemeLocation,
        next: &Option<String>,
    ) -> bool {
        match self {
            QuoteOrSpace::Quoted(t) => t.can_tokenize(tokens, grapheme, location, next),
            QuoteOrSpace::Space(t) => t.can_tokenize(tokens, grapheme, location, next),
        }
    }

    fn lex(
        &mut self,
        tokens: &[Token<Value>],
        incoming: &mut Graphemes,
    ) -> Result<Value, LexError> {
        match self {
            QuoteOrSpace::Quoted(t) => t.lex(tokens, incoming),
            QuoteOrSpace::Space(t) => t.lex(tokens, incoming),
        }
    }
}

fn quote_lexer(input: Vec<u8>) -> Lexer<Value, QuoteOrSpace> {
    Lexer::new(input, String::new(), true, true, Some(Value::Eof))
        .tokenizer(QuoteOrSpace::Quoted(DoubleQuotedStringLexer::default()))
        .tokenizer(QuoteOrSpace::Space(Whitespace))
}

fn values(lexer: &Lexer<Value, QuoteOrSpace>) -> Vec<Value> {
    lexer.tokens().iter().map(|t| t.token().clone()).collect()
}

#[test]
fn test_lexer() {
    let input: Vec<u8> = "\"My name is\"\n \"Noah Scott\" \" HIIII\"\n  \"Shanaberger\""
        .as_bytes()
        .to_vec()
        .into_iter()
        .chain([0xADu8; 100])
        .collect();

    let mut lexer = quote_lexer(input);
    if let Err(error) = lexer.tokenize() {
        panic!("{:?}", error)
    }

    assert_eq!(
        values(&lexer),
        vec![
            Value::DoubleQuotedString("My name is".to_string()),
            Value::DoubleQuotedString("Noah Scott".to_string()),
            Value::DoubleQuotedString(" HIIII".to_string()),
            Value::DoubleQuotedString("Shanaberger".to_string()),
            Value::Eof,
        ]
    );
    assert_eq!(lexer.invalid_bytes(), 100);
    let first = lexer.tokens()[0].span().byte_range().unwrap();
    assert_eq!(
        String::from_utf8_lossy(&lexer.bytes()[first.start..=first.end]),
        "\"My name is\""
    );
    assert!(lexer.tokens()[4].span().byte_range().is_none());
    assert_eq!(lexer.tokens()[4].span().source(), "No Source");
}

#[test]
fn test_spans() {
    let input = "\"Hi My Name is Noah\"\n\n      \t\n\"My Name is Noah!\"";

    let mut lexer = quote_lexer(input.as_bytes().to_vec());
    if let Err(error) = lexer.tokenize() {
        panic!("{:?}", error)
    }

    let text = String::from_utf8(lexer.bytes().to_vec()).unwrap();
    assert_eq!(text, input);
    let tokens = lexer.tokens();
    assert_eq!(tokens.len(), 3);
    let first = tokens[0].span().byte_range().unwrap();
    assert_eq!(&text[first.start..=first.end], "\"Hi My Name is Noah\"");
    let second = tokens[1].span().byte_range().unwrap();
    assert_eq!(&text[second.start..=second.end], "\"My Name is Noah!\"");
    assert_eq!(tokens[1].span().lines().len(), 1);
    assert_eq!(tokens[1].span().lines()[0].index, 3);
    assert_eq!(lexer.invalid_bytes(), 0);
    assert_eq!(lexer.line_count(), 4);
}

#[test]
fn quoted_string_escapes_are_decoded() {
    let mut lexer = quote_lexer("\"Hi\\t\\\"\"".as_bytes().to_vec());
    lexer.tokenize().unwrap();
    assert_eq!(
        values(&lexer),
        vec![Value::DoubleQuotedString("Hi\t\"".to_string()), Value::Eof]
    );
}

#[test]
fn unterminated_quoted_string_fails() {
    let mut lexer = quote_lexer("\"Hi\\t".as_bytes().to_vec());
    assert_eq!(lexer.tokenize().err(), Some(LexError::UnexpectedEndOfStream));
}

#[test]
fn unclaimed_grapheme_is_an_error() {
    let mut lexer = quote_lexer("  x".as_bytes().to_vec());
    match lexer.tokenize() {
        Err(LexError::NoTokenizer { grapheme, location }) => {
            assert_eq!(grapheme, "x");
            assert_eq!(location.index, 2);
            assert_eq!(location.line, 0);
            assert_eq!(location.column, 2);
            assert_eq!(lexer.tokens().len(), 0);
        }
        other => panic!("unexpected {:?}", other),
    }
}

#[test]
fn strict_mode_reports_invalid_bytes() {
    let mut lexer: Lexer<Value, QuoteOrSpace> =
        Lexer::new(vec![b' ', 0xFF, b' '], String::new(), false, true, None)
            .tokenizer(QuoteOrSpace::Space(Whitespace));
    match lexer.tokenize() {
        Err(LexError::InvalidBytes { bytes, index }) => {
            assert_eq!(bytes, vec![0xFF]);
            assert_eq!(index, 1);
        }
        other => panic!("unexpected {:?}", other),
    }
}

#[test]
fn end_of_input_token_is_appended_once() {
    let mut lexer = quote_lexer(Vec::new());
    assert_eq!(lexer.next(), Some(Ok(true)));
    assert_eq!(lexer.next(), None);
    assert_eq!(lexer.next(), None);
    assert_eq!(values(&lexer), vec![Value::Eof]);
}

#[test]
fn multi_line_token_span() {
    let mut lexer = quote_lexer(" \"x\nyy\nzz\"".as_bytes().to_vec());
    lexer.tokenize().unwrap();
    let span = lexer.tokens()[0].span();
    assert_eq!(span.lines().len(), 3);
    assert_eq!(span.lines()[0].index, 0);
    assert_eq!((span.lines()[0].range.start, span.lines()[0].range.end), (1, 2));
    assert_eq!(span.lines()[1].index, 1);
    assert_eq!((span.lines()[1].range.start, span.lines()[1].range.end), (0, 1));
    assert_eq!(span.lines()[2].index, 2);
    assert_eq!((span.lines()[2].range.start, span.lines()[2].range.end), (0, 2));
    assert_eq!(span.grapheme_range().unwrap().start, 1);
    assert_eq!(span.grapheme_range().unwrap().end, 9);
}

#[test]
fn last_registered_claimant_wins() {
    assert_eq!(last_claimant(&[true, false, true, false]), Some(2));
    assert_eq!(last_claimant(&[true]), Some(0));
    assert_eq!(last_claimant(&[false, false]), None);
    assert_eq!(last_claimant(&[]), None);
}

#[test]
fn lexer_counters() {
    let mut lexer = quote_lexer(vec![b' ', 0xFF, 0xC2, 0xA0, b' ']);
    lexer.tokenize().unwrap();
    assert_eq!(lexer.valid_bytes(), 4);
    assert_eq!(lexer.invalid_bytes(), 1);
    assert_eq!(lexer.total_bytes(), 5);
    assert_eq!(lexer.graphemes(), 4);
    assert_eq!(lexer.lines().len(), 1);
    let tokens = lexer.take();
    assert_eq!(tokens.len(), 1);
}

#[test]
fn invalid_escape_is_reported() {
    let mut lexer = quote_lexer("\"a\\q\"".as_bytes().to_vec());
    assert_eq!(
        lexer.tokenize().err(),
        Some(LexError::Other("Invalid escape character '\\q'".to_string()))
    );
}
