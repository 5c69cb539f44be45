use verseconf::context::{ContextStateMachine, LexerContext};
use verseconf::lexer::Lexer;
use verseconf::token::Token;

#[test]
fn test_lexer_basic() {
    let mut lexer = Lexer::new("name = \"test\"");
    let tokens = lexer.tokenize_all().unwrap();
    assert!(tokens.iter().any(|(t, _)| matches!(t, Token::BareKey(_))));
    assert!(tokens.iter().any(|(t, _)| matches!(t, Token::Assign)));
    assert!(tokens.iter().any(|(t, _)| matches!(t, Token::StringLiteral(_))));
}

#[test]
fn test_lexer_context_sensitive() {
    let mut lexer = Lexer::new("my-key = 10");
    lexer.context_mut().push(LexerContext::InKey);
    let token = lexer.next_token().unwrap();
    assert!(matches!(token, Token::BareKey(_)));
}

#[test]
fn test_lexer_accepts_crlf_line_endings() {
    let mut lexer = Lexer::new("a = 1\r\nb = 2\r\n");
    let tokens = lexer.tokenize_all().unwrap();
    let newlines = tokens.iter().filter(|(t, _)| matches!(t, Token::Newline)).count();
    assert_eq!(newlines, 2, "CRLF should produce exactly two newline tokens");
    assert!(tokens.iter().any(|(t, _)| matches!(t, Token::BareKey(k) if k == "b")));
}

#[test]
fn test_lexer_accepts_lone_cr_line_endings() {
    let mut lexer = Lexer::new("a = 1\rb = 2\r");
    let tokens = lexer.tokenize_all().unwrap();
    let newlines = tokens.iter().filter(|(t, _)| matches!(t, Token::Newline)).count();
    assert_eq!(newlines, 2);
}

#[test]
fn test_lexer_crlf_tracks_line_numbers() {
    let mut lexer = Lexer::new("a = 1\r\nb = 2\r\n");
    let tokens = lexer.tokenize_all().unwrap();
    let b_span = tokens
        .iter()
        .find_map(|(t, s)| match t {
            Token::BareKey(k) if k == "b" => Some(*s),
            _ => None,
        })
        .expect("token 'b' should exist");
    assert_eq!(b_span.line, 2);
    assert_eq!(b_span.column, 1);
}

#[test]
fn test_lexer_error_reports_location() {
    let mut lexer = Lexer::new("a = 1\nb = $\n");
    let err = lexer.tokenize_all().unwrap_err();
    assert_eq!(err.span.line, 2);
    assert_eq!(err.span.column, 5);
}

#[test]
fn test_lexer_reads_block_comments() {
    let mut lexer = Lexer::new("a = 1 /* note\ncontinued */\nb = 2");
    let tokens = lexer.tokenize_all().unwrap();
    let comment = tokens
        .iter()
        .find_map(|(token, span)| match token {
            Token::BlockComment(content) => Some((content.as_str(), *span)),
            _ => None,
        })
        .expect("block comment should be tokenized");
    assert_eq!(comment.0, " note\ncontinued ");
    assert_eq!(comment.1.line, 1);
    assert_eq!(comment.1.column, 7);
    assert!(tokens
        .iter()
        .any(|(token, span)| matches!(token, Token::BareKey(key) if key == "b") && span.line == 3));
}

#[test]
fn test_lexer_rejects_unterminated_block_comment() {
    let mut lexer = Lexer::new("value = 1 /* missing close");
    let error = lexer.tokenize_all().unwrap_err();
    assert!(error.message.contains("unterminated block comment"));
    assert_eq!(error.span.line, 1);
    assert_eq!(error.span.column, 11);
}

#[test]
fn test_lexer_crlf_comment_not_including_carriage_return() {
    let mut lexer = Lexer::new("# hello\r\n");
    let tokens = lexer.tokenize_all().unwrap();
    let comment = tokens
        .iter()
        .find_map(|(t, _)| match t {
            Token::LineComment(c) => Some(c.clone()),
            _ => None,
        })
        .expect("comment token");
    assert_eq!(comment, "hello");
}

#[test]
fn test_context_push_pop() {
    let mut ctx = ContextStateMachine::new();
    assert!(ctx.is_in_key());
    ctx.push(LexerContext::InValue);
    assert!(ctx.is_in_value());
    ctx.pop();
    assert!(ctx.is_in_key());
}

#[test]
fn test_context_nested() {
    let mut ctx = ContextStateMachine::new();
    ctx.push(LexerContext::InTableBlock);
    ctx.push(LexerContext::InValue);
    assert!(ctx.is_in_value());
    ctx.pop();
    assert!(ctx.is_in_table_block());
    ctx.pop();
    assert!(ctx.is_in_key());
}

#[test]
fn lexer_error_describes_message_and_position() {
    let mut lexer = Lexer::new("a = 1\nb = $\n");
    let err = lexer.tokenize_all().unwrap_err();
    let text = err.describe();
    assert!(text.ends_with(" at 2:5"), "{text}");
}

#[test]
fn popping_the_last_context_keeps_the_key_context() {
    let mut ctx = ContextStateMachine::new();
    ctx.pop();
    assert!(ctx.is_in_key());
}
