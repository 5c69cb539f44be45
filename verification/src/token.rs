//! Lexical tokens.

use vstd::prelude::*;

verus! {

/// A lexical token. Literal tokens keep the text they were read from.
#[derive(Debug, Clone, PartialEq, Eq)]
pub enum Token {
    /// `"..."` with escapes resolved
    StringLiteral(String),
    /// digits, optionally with one `.`; kept as written
    NumberLiteral(String),
    BooleanLiteral(bool),
    /// `YYYY-MM-DDTHH:MM:SS[Z|+HH:MM]`, kept as written
    DateTimeLiteral(String),
    /// a number followed by `s`, `m`, `h` or `d`, kept as written
    DurationLiteral(String),
    /// `[a-zA-Z0-9_-]+`
    BareKey(String),
    QuotedKey(String),
    /// `=` or `:`
    Assign,
    Operator(Operator),
    Comma,
    Dot,
    /// `..`
    RangeOp,
    LBrace,
    RBrace,
    LBracket,
    RBracket,
    /// `[[`
    LDoubleBracket,
    /// `]]`
    RDoubleBracket,
    LParen,
    RParen,
    /// `@include`
    Include,
    /// the `merge` keyword
    Merge,
    /// `#@`
    MetadataPrefix,
    /// `# ...`, trimmed
    LineComment(String),
    /// `/* ... */`, verbatim
    BlockComment(String),
    Eof,
    Newline,
}

/// An arithmetic operator in a value expression.
#[derive(Debug, Clone, Copy, PartialEq, Eq)]
pub enum Operator {
    Add,
    Subtract,
    Multiply,
    Divide,
}

impl Operator {
    /// The operator's symbol.
    pub fn symbol(&self) -> (s: &'static str)
        ensures
            s@ == operator_symbol(*self),
    {
        proof {
            reveal_strlit("+");
            reveal_strlit("-");
            reveal_strlit("*");
            reveal_strlit("/");
        }
        match self {
            Operator::Add => "+",
            Operator::Subtract => "-",
            Operator::Multiply => "*",
            Operator::Divide => "/",
        }
    }
}

/// The symbol of each operator.
pub open spec fn operator_symbol(op: Operator) -> Seq<char> {
    match op {
        Operator::Add => seq!['+'],
        Operator::Subtract => seq!['-'],
        Operator::Multiply => seq!['*'],
        Operator::Divide => seq!['/'],
    }
}

} // verus!

verus! {

/// How a token reads in messages.
pub open spec fn token_display(t: Token) -> Seq<char> {
    match t {
        Token::StringLiteral(s) => "string("@ + s@ + ")"@,
        Token::NumberLiteral(s) => "number("@ + s@ + ")"@,
        Token::BooleanLiteral(b) => if b { "bool(true)"@ } else { "bool(false)"@ },
        Token::DateTimeLiteral(s) => "datetime("@ + s@ + ")"@,
        Token::DurationLiteral(s) => "duration("@ + s@ + ")"@,
        Token::BareKey(s) => "bare_key("@ + s@ + ")"@,
        Token::QuotedKey(s) => "quoted_key("@ + s@ + ")"@,
        Token::Assign => "="@,
        Token::Operator(op) => operator_symbol(op),
        Token::Comma => ","@,
        Token::Dot => "."@,
        Token::RangeOp => ".."@,
        Token::LBrace => "{"@,
        Token::RBrace => "}"@,
        Token::LBracket => "["@,
        Token::RBracket => "]"@,
        Token::LDoubleBracket => "[["@,
        Token::RDoubleBracket => "]]"@,
        Token::LParen => "("@,
        Token::RParen => ")"@,
        Token::Include => "@include"@,
        Token::Merge => "merge"@,
        Token::MetadataPrefix => "#@"@,
        Token::LineComment(s) => "# "@ + s@,
        Token::BlockComment(s) => "/*"@ + s@ + "*/"@,
        Token::Eof => "EOF"@,
        Token::Newline => "newline"@,
    }
}

fn wrapped(out: &mut String, head: &str, body: &str, tail: &str)
    ensures
        final(out)@ == old(out)@ + (head@ + body@ + tail@),
{
    out.push_str(head);
    out.push_str(body);
    out.push_str(tail);
    assert(out@ =~= old(out)@ + (head@ + body@ + tail@));
}

impl Token {
    /// Appends [`token_display`] of the token to `out`.
    pub fn describe_into(&self, out: &mut String)
        ensures
            final(out)@ == old(out)@ + token_display(*self),
    {
        proof {
            reveal_strlit("");
        }
        match self {
            Token::StringLiteral(s) => wrapped(out, "string(", s.as_str(), ")"),
            Token::NumberLiteral(s) => wrapped(out, "number(", s.as_str(), ")"),
            Token::BooleanLiteral(b) => if *b { out.push_str("bool(true)") } else { out.push_str("bool(false)") },
            Token::DateTimeLiteral(s) => wrapped(out, "datetime(", s.as_str(), ")"),
            Token::DurationLiteral(s) => wrapped(out, "duration(", s.as_str(), ")"),
            Token::BareKey(s) => wrapped(out, "bare_key(", s.as_str(), ")"),
            Token::QuotedKey(s) => wrapped(out, "quoted_key(", s.as_str(), ")"),
            Token::Assign => out.push_str("="),
            Token::Operator(op) => out.push_str(op.symbol()),
            Token::Comma => out.push_str(","),
            Token::Dot => out.push_str("."),
            Token::RangeOp => out.push_str(".."),
            Token::LBrace => out.push_str("{"),
            Token::RBrace => out.push_str("}"),
            Token::LBracket => out.push_str("["),
            Token::RBracket => out.push_str("]"),
            Token::LDoubleBracket => out.push_str("[["),
            Token::RDoubleBracket => out.push_str("]]"),
            Token::LParen => out.push_str("("),
            Token::RParen => out.push_str(")"),
            Token::Include => out.push_str("@include"),
            Token::Merge => out.push_str("merge"),
            Token::MetadataPrefix => out.push_str("#@"),
            Token::LineComment(s) => {
                out.push_str("# ");
                out.push_str(s.as_str());
                assert(out@ =~= old(out)@ + ("# "@ + s@));
            },
            Token::BlockComment(s) => wrapped(out, "/*", s.as_str(), "*/"),
            Token::Eof => out.push_str("EOF"),
            Token::Newline => out.push_str("newline"),
        }
    }
}

} // verus!
