use vstd::prelude::*;
use vstd::string::*;

use crate::text::{chars_equal_str, chars_of, owned, push_char, string_of_chars};
use crate::tokens::{tokens_view, Token, TokenType, TokenView};
use crate::DsqlexError;

verus! {

// ── character classes ──

pub open spec fn is_ascii_ws(c: char) -> bool {
    c == ' ' || c == '\t' || c == '\n' || c == '\x0C' || c == '\r'
}

pub open spec fn is_ascii_digit(c: char) -> bool {
    '0' <= c && c <= '9'
}

pub open spec fn is_ascii_alpha(c: char) -> bool {
    ('a' <= c && c <= 'z') || ('A' <= c && c <= 'Z')
}

pub open spec fn is_ascii_alnum(c: char) -> bool {
    is_ascii_alpha(c) || is_ascii_digit(c)
}

/// Characters that may continue a number literal.
pub open spec fn is_number_char(c: char) -> bool {
    is_ascii_digit(c) || c == '.'
}

/// Characters that may continue an identifier.
pub open spec fn is_ident_char(c: char) -> bool {
    is_ascii_alnum(c) || c == '_' || c == '.'
}

/// ASCII upper-casing of one character; other characters are unchanged.
pub open spec fn ascii_upper(c: char) -> char {
    if 'a' <= c && c <= 'z' {
        ((c as int) - 32) as char
    } else {
        c
    }
}

pub open spec fn ascii_upper_seq(s: Seq<char>) -> Seq<char> {
    s.map_values(|c: char| ascii_upper(c))
}

fn ws(c: char) -> (r: bool)
    ensures
        r == is_ascii_ws(c),
{
    c == ' ' || c == '\t' || c == '\n' || c == '\x0C' || c == '\r'
}

fn digit(c: char) -> (r: bool)
    ensures
        r == is_ascii_digit(c),
{
    '0' <= c && c <= '9'
}

fn alpha(c: char) -> (r: bool)
    ensures
        r == is_ascii_alpha(c),
{
    ('a' <= c && c <= 'z') || ('A' <= c && c <= 'Z')
}

fn upper(c: char) -> (r: char)
    ensures
        r == ascii_upper(c),
{
    if 'a' <= c && c <= 'z' {
        let b: u8 = (c as u8) - 32;
        b as char
    } else {
        c
    }
}

// ── keywords ──

/// The keyword (or built-in function name) spelled by `upper`, which is
/// already upper-cased.
pub open spec fn keyword_of_upper(upper: Seq<char>) -> Option<TokenType> {
    if upper == "SELECT"@ {
        Some(TokenType::Select)
    } else if upper == "CASE"@ {
        Some(TokenType::Case)
    } else if upper == "WHEN"@ {
        Some(TokenType::When)
    } else if upper == "THEN"@ {
        Some(TokenType::Then)
    } else if upper == "ELSE"@ {
        Some(TokenType::Else)
    } else if upper == "END"@ {
        Some(TokenType::End)
    } else if upper == "AND"@ {
        Some(TokenType::And)
    } else if upper == "OR"@ {
        Some(TokenType::Or)
    } else if upper == "NOT"@ {
        Some(TokenType::Not)
    } else if upper == "NULL"@ {
        Some(TokenType::Null)
    } else if upper == "TRUE"@ {
        Some(TokenType::True)
    } else if upper == "FALSE"@ {
        Some(TokenType::False)
    } else if upper == "IS"@ {
        Some(TokenType::Is)
    } else if upper == "IN"@ {
        Some(TokenType::In)
    } else if upper == "LIKE"@ {
        Some(TokenType::Like)
    } else if upper == "UPPER"@ {
        Some(TokenType::FnUpper)
    } else if upper == "LOWER"@ {
        Some(TokenType::FnLower)
    } else if upper == "ROUND"@ {
        Some(TokenType::FnRound)
    } else if upper == "COALESCE"@ || upper == "NVL"@ {
        Some(TokenType::FnCoalesce)
    } else if upper == "ABS"@ {
        Some(TokenType::FnAbs)
    } else if upper == "CONCAT"@ {
        Some(TokenType::FnConcat)
    } else if upper == "EVENT"@ {
        Some(TokenType::FnEvent)
    } else {
        None
    }
}

/// The keyword a word stands for, compared without regard to ASCII case.
pub open spec fn spec_keyword(word: Seq<char>) -> Option<TokenType> {
    keyword_of_upper(ascii_upper_seq(word))
}

fn keyword_of_upper_chars(u: &Vec<char>) -> (r: Option<TokenType>)
    ensures
        r == keyword_of_upper(u@),
{
    if chars_equal_str(u, "SELECT") {
        Some(TokenType::Select)
    } else if chars_equal_str(u, "CASE") {
        Some(TokenType::Case)
    } else if chars_equal_str(u, "WHEN") {
        Some(TokenType::When)
    } else if chars_equal_str(u, "THEN") {
        Some(TokenType::Then)
    } else if chars_equal_str(u, "ELSE") {
        Some(TokenType::Else)
    } else if chars_equal_str(u, "END") {
        Some(TokenType::End)
    } else if chars_equal_str(u, "AND") {
        Some(TokenType::And)
    } else if chars_equal_str(u, "OR") {
        Some(TokenType::Or)
    } else if chars_equal_str(u, "NOT") {
        Some(TokenType::Not)
    } else if chars_equal_str(u, "NULL") {
        Some(TokenType::Null)
    } else if chars_equal_str(u, "TRUE") {
        Some(TokenType::True)
    } else if chars_equal_str(u, "FALSE") {
        Some(TokenType::False)
    } else if chars_equal_str(u, "IS") {
        Some(TokenType::Is)
    } else if chars_equal_str(u, "IN") {
        Some(TokenType::In)
    } else if chars_equal_str(u, "LIKE") {
        Some(TokenType::Like)
    } else if chars_equal_str(u, "UPPER") {
        Some(TokenType::FnUpper)
    } else if chars_equal_str(u, "LOWER") {
        Some(TokenType::FnLower)
    } else if chars_equal_str(u, "ROUND") {
        Some(TokenType::FnRound)
    } else if chars_equal_str(u, "COALESCE") || chars_equal_str(u, "NVL") {
        Some(TokenType::FnCoalesce)
    } else if chars_equal_str(u, "ABS") {
        Some(TokenType::FnAbs)
    } else if chars_equal_str(u, "CONCAT") {
        Some(TokenType::FnConcat)
    } else if chars_equal_str(u, "EVENT") {
        Some(TokenType::FnEvent)
    } else {
        None
    }
}

fn keyword_of_chars(w: &Vec<char>) -> (r: Option<TokenType>)
    ensures
        r == spec_keyword(w@),
{
    let mut u: Vec<char> = Vec::new();
    let mut i: usize = 0;
    while i < w.len()
        invariant
            i <= w.len(),
            u@ == ascii_upper_seq(w@.take(i as int)),
        decreases w.len() - i,
    {
        u.push(upper(w[i]));
        assert(w@.take(i + 1) == w@.take(i as int).push(w@[i as int]));
        i += 1;
    }
    assert(w@.take(w.len() as int) == w@);
    keyword_of_upper_chars(&u)
}

/// Looks a word up among the keywords and built-in function names,
/// ignoring ASCII case (`NVL` is another name for `COALESCE`).
pub fn keyword_lookup(word: &str) -> (r: Option<TokenType>)
    ensures
        r == spec_keyword(word@),
{
    let w = chars_of(word);
    keyword_of_chars(&w)
}

// ── scanning ──

/// Position of the first newline at or after `i` (or the end).
pub open spec fn line_end(cs: Seq<char>, i: int) -> int
    decreases cs.len() - i,
{
    if i >= cs.len() || cs[i] == '\n' {
        i
    } else {
        line_end(cs, i + 1)
    }
}

/// Position just after the first `*/` whose `*` is at or after `i`.
pub open spec fn block_end(cs: Seq<char>, i: int) -> Option<int>
    decreases cs.len() - i,
{
    if i + 1 >= cs.len() {
        None
    } else if cs[i] == '*' && cs[i + 1] == '/' {
        Some(i + 2)
    } else {
        block_end(cs, i + 1)
    }
}

/// Position of the first quote at or after `i` (or the end).
pub open spec fn quote_end(cs: Seq<char>, i: int) -> int
    decreases cs.len() - i,
{
    if i >= cs.len() || cs[i] == '\'' {
        i
    } else {
        quote_end(cs, i + 1)
    }
}

/// End of the run of number characters that starts at `i`.
pub open spec fn number_end(cs: Seq<char>, i: int) -> int
    decreases cs.len() - i,
{
    if i >= cs.len() || !is_number_char(cs[i]) {
        i
    } else {
        number_end(cs, i + 1)
    }
}

/// End of the run of identifier characters that starts at `i`.
pub open spec fn ident_end(cs: Seq<char>, i: int) -> int
    decreases cs.len() - i,
{
    if i >= cs.len() || !is_ident_char(cs[i]) {
        i
    } else {
        ident_end(cs, i + 1)
    }
}

pub proof fn lemma_line_end(cs: Seq<char>, i: int)
    requires
        0 <= i <= cs.len(),
    ensures
        i <= line_end(cs, i) <= cs.len(),
        forall|k: int| i <= k < line_end(cs, i) ==> cs[k] != '\n',
    decreases cs.len() - i,
{
    if i < cs.len() && cs[i] != '\n' {
        lemma_line_end(cs, i + 1);
    }
}

pub proof fn lemma_block_end(cs: Seq<char>, i: int)
    requires
        0 <= i,
    ensures
        block_end(cs, i) matches Some(j) ==> i + 2 <= j <= cs.len(),
    decreases cs.len() - i,
{
    if i + 1 < cs.len() && !(cs[i] == '*' && cs[i + 1] == '/') {
        lemma_block_end(cs, i + 1);
    }
}

pub proof fn lemma_quote_end(cs: Seq<char>, i: int)
    requires
        0 <= i <= cs.len(),
    ensures
        i <= quote_end(cs, i) <= cs.len(),
        quote_end(cs, i) < cs.len() ==> cs[quote_end(cs, i)] == '\'',
    decreases cs.len() - i,
{
    if i < cs.len() && cs[i] != '\'' {
        lemma_quote_end(cs, i + 1);
    }
}

pub proof fn lemma_number_end(cs: Seq<char>, i: int)
    requires
        0 <= i <= cs.len(),
    ensures
        i <= number_end(cs, i) <= cs.len(),
    decreases cs.len() - i,
{
    if i < cs.len() && is_number_char(cs[i]) {
        lemma_number_end(cs, i + 1);
    }
}

pub proof fn lemma_ident_end(cs: Seq<char>, i: int)
    requires
        0 <= i <= cs.len(),
    ensures
        i <= ident_end(cs, i) <= cs.len(),
    decreases cs.len() - i,
{
    if i < cs.len() && is_ident_char(cs[i]) {
        lemma_ident_end(cs, i + 1);
    }
}

// ── the lexer, stated ──

/// A token with no text.
pub open spec fn simple_tok(ty: TokenType) -> TokenView {
    TokenView { ty, text: Seq::empty() }
}

/// The operator or punctuation token a single character stands for.
pub open spec fn single_char_token(c: char) -> Option<TokenType> {
    if c == '+' {
        Some(TokenType::Plus)
    } else if c == '-' {
        Some(TokenType::Minus)
    } else if c == '*' {
        Some(TokenType::Multiply)
    } else if c == '/' {
        Some(TokenType::Divide)
    } else if c == '=' {
        Some(TokenType::Eq)
    } else if c == '<' {
        Some(TokenType::Lt)
    } else if c == '>' {
        Some(TokenType::Gt)
    } else if c == '(' {
        Some(TokenType::LParen)
    } else if c == ')' {
        Some(TokenType::RParen)
    } else if c == ',' {
        Some(TokenType::Comma)
    } else {
        None
    }
}

/// The two-character operator that `c` followed by `d` spells.
pub open spec fn two_char_token(c: char, d: char) -> Option<TokenType> {
    if c == '!' && d == '=' {
        Some(TokenType::Neq)
    } else if c == '<' && d == '=' {
        Some(TokenType::Lte)
    } else if c == '>' && d == '=' {
        Some(TokenType::Gte)
    } else {
        None
    }
}

/// `t` in front of the tokens of `r` (errors pass through).
pub open spec fn cons_token(
    t: TokenView,
    r: Result<Seq<TokenView>, Seq<char>>,
) -> Result<Seq<TokenView>, Seq<char>> {
    match r {
        Ok(rest) => Ok(seq![t] + rest),
        Err(e) => Err(e),
    }
}

/// `acc` in front of the tokens of `r` (errors pass through).
pub open spec fn prefix_tokens(
    acc: Seq<TokenView>,
    r: Result<Seq<TokenView>, Seq<char>>,
) -> Result<Seq<TokenView>, Seq<char>> {
    match r {
        Ok(rest) => Ok(acc + rest),
        Err(e) => Err(e),
    }
}

pub open spec fn unexpected_char_message(c: char) -> Seq<char> {
    "Unexpected character: '"@.push(c) + "'"@
}

/// The tokens of `cs` from position `i` on, or the error message.
pub open spec fn lex_from(cs: Seq<char>, i: int) -> Result<Seq<TokenView>, Seq<char>>
    decreases cs.len() - i,
{
    if i < 0 || i >= cs.len() {
        Ok(Seq::empty())
    } else {
        let c = cs[i];
        let len = cs.len();
        if is_ascii_ws(c) {
            lex_from(cs, i + 1)
        } else if c == '#' || (c == '-' && i + 1 < len && cs[i + 1] == '-') {
            proof {
                lemma_line_end(cs, i + 1);
            }
            lex_from(cs, line_end(cs, i + 1))
        } else if c == '/' && i + 1 < len && cs[i + 1] == '*' {
            proof {
                lemma_block_end(cs, i + 2);
            }
            match block_end(cs, i + 2) {
                None => Err("Unterminated block comment"@),
                Some(j) => lex_from(cs, j),
            }
        } else if i + 1 < len && two_char_token(c, cs[i + 1]) is Some {
            cons_token(simple_tok(two_char_token(c, cs[i + 1]).unwrap()), lex_from(cs, i + 2))
        } else if single_char_token(c) is Some {
            cons_token(simple_tok(single_char_token(c).unwrap()), lex_from(cs, i + 1))
        } else if c == '\'' {
            let j = quote_end(cs, i + 1);
            proof {
                lemma_quote_end(cs, i + 1);
            }
            if j >= len {
                Err("Unterminated string literal"@)
            } else {
                cons_token(
                    TokenView { ty: TokenType::String, text: cs.subrange(i + 1, j) },
                    lex_from(cs, j + 1),
                )
            }
        } else if is_ascii_digit(c) {
            let j = number_end(cs, i);
            proof {
                lemma_number_end(cs, i + 1);
            }
            cons_token(
                TokenView { ty: TokenType::Number, text: cs.subrange(i, j) },
                lex_from(cs, j),
            )
        } else if is_ascii_alpha(c) || c == '_' {
            let j = ident_end(cs, i);
            proof {
                lemma_ident_end(cs, i + 1);
            }
            let text = cs.subrange(i, j);
            let ty = match spec_keyword(text) {
                Some(kw) => kw,
                None => TokenType::Identifier,
            };
            cons_token(TokenView { ty, text }, lex_from(cs, j))
        } else {
            Err(unexpected_char_message(c))
        }
    }
}

/// The tokens of a whole input, or the error message.
pub open spec fn spec_tokenize(input: Seq<char>) -> Result<Seq<TokenView>, Seq<char>> {
    lex_from(input, 0)
}

pub open spec fn tokenize_result_view(r: Result<Vec<Token>, DsqlexError>) -> Result<
    Seq<TokenView>,
    Seq<char>,
> {
    match r {
        Ok(ts) => Ok(tokens_view(ts@)),
        Err(e) => Err(e@),
    }
}

proof fn lemma_prefix_cons(acc: Seq<TokenView>, t: TokenView, r: Result<Seq<TokenView>, Seq<char>>)
    ensures
        prefix_tokens(acc, cons_token(t, r)) == prefix_tokens(acc.push(t), r),
{
    if let Ok(rest) = r {
        assert(acc + (seq![t] + rest) =~= acc.push(t) + rest);
    }
}

fn single_char_type(c: char) -> (r: Option<TokenType>)
    ensures
        r == single_char_token(c),
{
    if c == '+' {
        Some(TokenType::Plus)
    } else if c == '-' {
        Some(TokenType::Minus)
    } else if c == '*' {
        Some(TokenType::Multiply)
    } else if c == '/' {
        Some(TokenType::Divide)
    } else if c == '=' {
        Some(TokenType::Eq)
    } else if c == '<' {
        Some(TokenType::Lt)
    } else if c == '>' {
        Some(TokenType::Gt)
    } else if c == '(' {
        Some(TokenType::LParen)
    } else if c == ')' {
        Some(TokenType::RParen)
    } else if c == ',' {
        Some(TokenType::Comma)
    } else {
        None
    }
}

fn two_char_type(c: char, d: char) -> (r: Option<TokenType>)
    ensures
        r == two_char_token(c, d),
{
    if c == '!' && d == '=' {
        Some(TokenType::Neq)
    } else if c == '<' && d == '=' {
        Some(TokenType::Lte)
    } else if c == '>' && d == '=' {
        Some(TokenType::Gte)
    } else {
        None
    }
}

/// Splits an expression into tokens. Whitespace, line comments (`--` or
/// `#` up to the end of the line) and block comments (`/* ... */`) are
/// skipped; keywords are recognized without regard to case.
pub fn tokenize(input: &str) -> (r: Result<Vec<Token>, DsqlexError>)
    ensures
        tokenize_result_view(r) == spec_tokenize(input@),
{
    let chars = chars_of(input);
    let len = chars.len();
    let ghost cs = chars@;
    let mut tokens: Vec<Token> = Vec::new();
    let mut i: usize = 0;

    while i < len
        invariant
            cs == chars@,
            cs == input@,
            len == chars.len(),
            i <= len,
            lex_from(cs, 0) == prefix_tokens(tokens_view(tokens@), lex_from(cs, i as int)),
        decreases len - i,
    {
        let ghost i0 = i as int;
        let ghost acc = tokens_view(tokens@);
        let c = chars[i];

        // Skip whitespace
        if ws(c) {
            i += 1;
            continue;
        }
        // Line comments: -- or #

        if c == '#' || (c == '-' && i + 1 < len && chars[i + 1] == '-') {
            proof {
                lemma_line_end(cs, i0 + 1);
            }
            i += 1;
            while i < len && chars[i] != '\n'
                invariant
                    cs == chars@,
                    len == chars.len(),
                    i0 < i <= len,
                    line_end(cs, i as int) == line_end(cs, i0 + 1),
                decreases len - i,
            {
                i += 1;
            }
            continue;
        }
        // Block comments: /* ... */

        if c == '/' && i + 1 < len && chars[i + 1] == '*' {
            let ghost b = block_end(cs, i0 + 2);
            proof {
                lemma_block_end(cs, i0 + 2);
            }
            i += 2;
            loop
                invariant_except_break
                    cs == chars@,
                    cs == input@,
                    len == chars.len(),
                    i0 + 2 <= i <= len,
                    block_end(cs, i as int) == b,
                    lex_from(cs, 0) == prefix_tokens(
                        acc,
                        match b {
                            None => Err("Unterminated block comment"@),
                            Some(j) => lex_from(cs, j),
                        },
                    ),
                ensures
                    b == Some(i as int),
                    i0 < i <= len,
                decreases len - i,
            {
                if len - i <= 1 {
                    return Err(DsqlexError(owned("Unterminated block comment")));
                }
                if chars[i] == '*' && chars[i + 1] == '/' {
                    i += 2;
                    break;
                }
                i += 1;
            }
            continue;
        }
        // Two-char operators

        if i + 1 < len {
            match two_char_type(c, chars[i + 1]) {
                Some(t) => {
                    let tok = Token::simple(t);
                    proof {
                        lemma_prefix_cons(acc, tok@, lex_from(cs, i0 + 2));
                    }
                    tokens.push(tok);
                    assert(tokens_view(tokens@) =~= acc.push(tok@));
                    i += 2;
                    continue;
                },
                None => {},
            }
        }
        // Single-char operators/structural

        match single_char_type(c) {
            Some(t) => {
                let tok = Token::simple(t);
                proof {
                    lemma_prefix_cons(acc, tok@, lex_from(cs, i0 + 1));
                }
                tokens.push(tok);
                assert(tokens_view(tokens@) =~= acc.push(tok@));
                i += 1;
                continue;
            },
            None => {},
        }
        // String literal

        if c == '\'' {
            i += 1;
            let start = i;
            while i < len && chars[i] != '\''
                invariant
                    cs == chars@,
                    len == chars.len(),
                    start <= i <= len,
                    quote_end(cs, i as int) == quote_end(cs, start as int),
                decreases len - i,
            {
                i += 1;
            }
            if i >= len {
                return Err(DsqlexError(owned("Unterminated string literal")));
            }
            let text = string_of_chars(&chars, start, i);
            let tok = Token::new(TokenType::String, text);
            proof {
                lemma_prefix_cons(acc, tok@, lex_from(cs, i + 1));
            }
            tokens.push(tok);
            assert(tokens_view(tokens@) =~= acc.push(tok@));
            i += 1;
            continue;
        }
        // Number literal

        if digit(c) {
            let start = i;
            while i < len && (digit(chars[i]) || chars[i] == '.')
                invariant
                    cs == chars@,
                    len == chars.len(),
                    start <= i <= len,
                    number_end(cs, i as int) == number_end(cs, start as int),
                decreases len - i,
            {
                i += 1;
            }
            let text = string_of_chars(&chars, start, i);
            let tok = Token::new(TokenType::Number, text);
            proof {
                lemma_prefix_cons(acc, tok@, lex_from(cs, i as int));
            }
            tokens.push(tok);
            assert(tokens_view(tokens@) =~= acc.push(tok@));
            continue;
        }
        // Identifier or keyword

        if alpha(c) || c == '_' {
            let start = i;
            let mut word: Vec<char> = Vec::new();
            while i < len && (alpha(chars[i]) || digit(chars[i]) || chars[i] == '_' || chars[i] == '.')
                invariant
                    cs == chars@,
                    len == chars.len(),
                    start <= i <= len,
                    ident_end(cs, i as int) == ident_end(cs, start as int),
                    word@ == cs.subrange(start as int, i as int),
                decreases len - i,
            {
                word.push(chars[i]);
                assert(cs.subrange(start as int, i + 1) == cs.subrange(start as int, i as int).push(cs[i as int]));
                i += 1;
            }
            let text = string_of_chars(&chars, start, i);
            let ty = match keyword_of_chars(&word) {
                Some(kw) => kw,
                None => TokenType::Identifier,
            };
            let tok = Token::new(ty, text);
            proof {
                lemma_prefix_cons(acc, tok@, lex_from(cs, i as int));
            }
            tokens.push(tok);
            assert(tokens_view(tokens@) =~= acc.push(tok@));
            continue;
        }

        let mut msg = owned("Unexpected character: '");
        push_char(&mut msg, c);
        msg.append("'");
        return Err(DsqlexError(msg));
    }
    assert(tokens_view(tokens@) + Seq::<TokenView>::empty() =~= tokens_view(tokens@));
    Ok(tokens)
}

} // verus!
