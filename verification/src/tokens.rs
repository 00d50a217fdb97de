use vstd::prelude::*;

verus! {

/// The kinds of token produced by the lexer.
#[derive(Debug, Clone, Copy, PartialEq, Eq, Structural)]
pub enum TokenType {
    // Arithmetic
    Plus,
    Minus,
    Multiply,
    Divide,
    // Comparison
    Eq,
    Neq,
    Lt,
    Gt,
    Lte,
    Gte,
    // Keywords
    Select,
    Case,
    When,
    Then,
    Else,
    End,
    And,
    Or,
    Not,
    Null,
    True,
    False,
    Is,
    In,
    Like,
    // Functions
    FnUpper,
    FnLower,
    FnRound,
    FnCoalesce,
    FnAbs,
    FnConcat,
    FnEvent,
    // Literals & identifiers
    Number,
    String,
    Identifier,
    // Structural
    LParen,
    RParen,
    Comma,
}

/// The name under which a token type is printed in messages (its variant name).
pub open spec fn token_type_name(t: TokenType) -> Seq<char> {
    match t {
        TokenType::Plus => "Plus"@,
        TokenType::Minus => "Minus"@,
        TokenType::Multiply => "Multiply"@,
        TokenType::Divide => "Divide"@,
        TokenType::Eq => "Eq"@,
        TokenType::Neq => "Neq"@,
        TokenType::Lt => "Lt"@,
        TokenType::Gt => "Gt"@,
        TokenType::Lte => "Lte"@,
        TokenType::Gte => "Gte"@,
        TokenType::Select => "Select"@,
        TokenType::Case => "Case"@,
        TokenType::When => "When"@,
        TokenType::Then => "Then"@,
        TokenType::Else => "Else"@,
        TokenType::End => "End"@,
        TokenType::And => "And"@,
        TokenType::Or => "Or"@,
        TokenType::Not => "Not"@,
        TokenType::Null => "Null"@,
        TokenType::True => "True"@,
        TokenType::False => "False"@,
        TokenType::Is => "Is"@,
        TokenType::In => "In"@,
        TokenType::Like => "Like"@,
        TokenType::FnUpper => "FnUpper"@,
        TokenType::FnLower => "FnLower"@,
        TokenType::FnRound => "FnRound"@,
        TokenType::FnCoalesce => "FnCoalesce"@,
        TokenType::FnAbs => "FnAbs"@,
        TokenType::FnConcat => "FnConcat"@,
        TokenType::FnEvent => "FnEvent"@,
        TokenType::Number => "Number"@,
        TokenType::String => "String"@,
        TokenType::Identifier => "Identifier"@,
        TokenType::LParen => "LParen"@,
        TokenType::RParen => "RParen"@,
        TokenType::Comma => "Comma"@,
    }
}

impl TokenType {
    /// The variant name of this token type, as used in error messages.
    pub fn name(&self) -> (r: &'static str)
        ensures
            r@ == token_type_name(*self),
    {
        match self {
            TokenType::Plus => "Plus",
            TokenType::Minus => "Minus",
            TokenType::Multiply => "Multiply",
            TokenType::Divide => "Divide",
            TokenType::Eq => "Eq",
            TokenType::Neq => "Neq",
            TokenType::Lt => "Lt",
            TokenType::Gt => "Gt",
            TokenType::Lte => "Lte",
            TokenType::Gte => "Gte",
            TokenType::Select => "Select",
            TokenType::Case => "Case",
            TokenType::When => "When",
            TokenType::Then => "Then",
            TokenType::Else => "Else",
            TokenType::End => "End",
            TokenType::And => "And",
            TokenType::Or => "Or",
            TokenType::Not => "Not",
            TokenType::Null => "Null",
            TokenType::True => "True",
            TokenType::False => "False",
            TokenType::Is => "Is",
            TokenType::In => "In",
            TokenType::Like => "Like",
            TokenType::FnUpper => "FnUpper",
            TokenType::FnLower => "FnLower",
            TokenType::FnRound => "FnRound",
            TokenType::FnCoalesce => "FnCoalesce",
            TokenType::FnAbs => "FnAbs",
            TokenType::FnConcat => "FnConcat",
            TokenType::FnEvent => "FnEvent",
            TokenType::Number => "Number",
            TokenType::String => "String",
            TokenType::Identifier => "Identifier",
            TokenType::LParen => "LParen",
            TokenType::RParen => "RParen",
            TokenType::Comma => "Comma",
        }
    }
}

/// A lexical token: its type and the source text it carries (empty for
/// operators and punctuation).
#[derive(Debug, Clone)]
pub struct Token {
    pub ty: TokenType,
    pub text: String,
}

/// The mathematical model of a token.
pub struct TokenView {
    pub ty: TokenType,
    pub text: Seq<char>,
}

impl View for Token {
    type V = TokenView;

    open spec fn view(&self) -> TokenView {
        TokenView { ty: self.ty, text: self.text@ }
    }
}

impl Token {
    /// A token of type `ty` carrying `text`.
    pub fn new(ty: TokenType, text: String) -> (r: Self)
        ensures
            r.ty == ty,
            r.text@ == text@,
    {
        Token { ty, text }
    }

    /// A token of type `ty` with empty text.
    pub fn simple(ty: TokenType) -> (r: Self)
        ensures
            r.ty == ty,
            r.text@ == Seq::<char>::empty(),
    {
        Token { ty, text: String::new() }
    }

    /// A copy of this token.
    pub fn duplicate(&self) -> (r: Self)
        ensures
            r@ == self@,
    {
        Token { ty: self.ty, text: self.text.clone() }
    }
}

/// The model of a sequence of tokens.
pub open spec fn tokens_view(ts: Seq<Token>) -> Seq<TokenView> {
    ts.map_values(|t: Token| t@)
}

} // verus!
