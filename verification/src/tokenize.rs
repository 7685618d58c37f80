//! Tokens, the definition of the tokenizer's step, and the tokenizer.

use crate::number::{is_digit, number_of_text, Decimal, Number};
use crate::text::{lemma_prefix_len, prefix_len, string_of};
use vstd::prelude::*;

verus! {

/// What `peek_next_char` answers at the end of the input.
pub const EOF_CHAR: char = '\0';

/// A lexical unit of the input.
#[derive(Debug, Clone, PartialEq)]
pub enum Token {
    /// End of input
    Eof,
    /// Quote `"`
    Quote,
    /// Open brace `{`
    OpenBrace,
    /// Close brace `}`
    CloseBrace,
    /// Open bracket `[`
    OpenBracket,
    /// Close bracket `]`
    CloseBracket,
    /// Comma `,`
    Comma,
    /// Colon `:`
    Colon,
    /// Null `null`
    Null,
    /// Boolean `true` or `false`
    Bool(bool),
    /// String
    String(String),
    /// Number
    Number(Number),
}

/// The mathematical content of a [`Token`].
pub enum TokenView {
    Eof,
    Quote,
    OpenBrace,
    CloseBrace,
    OpenBracket,
    CloseBracket,
    Comma,
    Colon,
    Null,
    Bool(bool),
    String(Seq<char>),
    Number(Decimal),
}

impl View for Token {
    type V = TokenView;

    open spec fn view(&self) -> TokenView {
        match self {
            Token::Eof => TokenView::Eof,
            Token::Quote => TokenView::Quote,
            Token::OpenBrace => TokenView::OpenBrace,
            Token::CloseBrace => TokenView::CloseBrace,
            Token::OpenBracket => TokenView::OpenBracket,
            Token::CloseBracket => TokenView::CloseBracket,
            Token::Comma => TokenView::Comma,
            Token::Colon => TokenView::Colon,
            Token::Null => TokenView::Null,
            Token::Bool(b) => TokenView::Bool(*b),
            Token::String(s) => TokenView::String(s@),
            Token::Number(n) => TokenView::Number(n@),
        }
    }
}

/// Why the input could not be cut into tokens.
#[derive(Debug, Clone, PartialEq)]
pub enum TokenizeError {
    /// An `n` that does not begin `null`
    InvalidNull,
    /// A `t` that does not begin `true`
    InvalidTrue,
    /// An `f` that does not begin `false`
    InvalidFalse,
    /// Text that begins like a number and is none
    InvalidNumber(String),
    /// The input ended before the delimiter that is named
    ReachedEOF(&'static str),
    /// A character with which no token begins
    UnexpectedChar(char),
}

/// The mathematical content of a [`TokenizeError`].
pub enum TokenizeErrorView {
    InvalidNull,
    InvalidTrue,
    InvalidFalse,
    InvalidNumber(Seq<char>),
    ReachedEOF(Seq<char>),
    UnexpectedChar(char),
}

impl View for TokenizeError {
    type V = TokenizeErrorView;

    open spec fn view(&self) -> TokenizeErrorView {
        match self {
            TokenizeError::InvalidNull => TokenizeErrorView::InvalidNull,
            TokenizeError::InvalidTrue => TokenizeErrorView::InvalidTrue,
            TokenizeError::InvalidFalse => TokenizeErrorView::InvalidFalse,
            TokenizeError::InvalidNumber(s) => TokenizeErrorView::InvalidNumber(s@),
            TokenizeError::ReachedEOF(s) => TokenizeErrorView::ReachedEOF(s@),
            TokenizeError::UnexpectedChar(c) => TokenizeErrorView::UnexpectedChar(*c),
        }
    }
}

/// What one step of the tokenizer yields: a token or an error.
pub type Lexeme = Result<TokenView, TokenizeErrorView>;

/// The mathematical content of what `next_token` returns.
pub open spec fn lexeme_of(r: Result<Token, TokenizeError>) -> Lexeme {
    match r {
        Ok(token) => Ok(token@),
        Err(error) => Err(error@),
    }
}

/// Whether `c` is one of the four characters that may separate tokens.
pub open spec fn is_whitespace_char(c: char) -> bool {
    c == ' ' || c == '\t' || c == '\n' || c == '\r'
}

/// Every character of `w` is whitespace.
pub open spec fn all_whitespace(w: Seq<char>) -> bool {
    forall|i: int| 0 <= i < w.len() ==> is_whitespace_char(#[trigger] w[i])
}

/// Whether a number's text ends before `c`: at whitespace, at a comma, at a
/// closing bracket or brace, and at `EOF_CHAR`.
pub open spec fn ends_number(c: char) -> bool {
    is_whitespace_char(c) || c == ',' || c == ']' || c == '}' || c == EOF_CHAR
}

/// The characters that are whitespace.
pub open spec fn whitespace() -> spec_fn(char) -> bool {
    |c: char| is_whitespace_char(c)
}

/// The characters that a string may hold: all but the quote.
pub open spec fn unquoted() -> spec_fn(char) -> bool {
    |c: char| c != '"'
}

/// The characters that do not end a number's text.
pub open spec fn inside_number() -> spec_fn(char) -> bool {
    |c: char| !ends_number(c)
}

/// `s` without the whitespace it begins with.
pub open spec fn skip_whitespace(s: Seq<char>) -> Seq<char> {
    s.skip(prefix_len(s, whitespace()) as int)
}

/// The token that is spelled by a first letter and `tail`, read from the
/// text `s` behind that letter. As many characters as `tail` is long are
/// taken from `s`, or all of `s` if it is shorter, whatever they are.
pub open spec fn lex_word(s: Seq<char>, tail: Seq<char>, token: TokenView, error: TokenizeErrorView) -> (
    Lexeme,
    Seq<char>,
) {
    if s.len() >= tail.len() {
        (
            if s.take(tail.len() as int) == tail {
                Ok(token)
            } else {
                Err(error)
            },
            s.skip(tail.len() as int),
        )
    } else {
        (Err(error), Seq::empty())
    }
}

/// A string, read from the text `s` behind its opening quote: everything up
/// to the next quote, taken as it stands.
pub open spec fn lex_string(s: Seq<char>) -> (Lexeme, Seq<char>) {
    let n = prefix_len(s, unquoted()) as int;
    if n < s.len() {
        (Ok(TokenView::String(s.take(n))), s.skip(n + 1))
    } else {
        (Err(TokenizeErrorView::ReachedEOF("\""@)), Seq::empty())
    }
}

/// A number, read from the text `s` that begins with its first character:
/// its text runs up to the next character that ends a number.
pub open spec fn lex_number(s: Seq<char>) -> (Lexeme, Seq<char>) {
    let n = prefix_len(s, inside_number()) as int;
    let text = s.take(n);
    (
        match number_of_text(text) {
            Some(decimal) => Ok(TokenView::Number(decimal)),
            None => Err(TokenizeErrorView::InvalidNumber(text)),
        },
        s.skip(n),
    )
}

/// The first token of `s`, and the text that is left behind it.
#[verifier::opaque]
pub open spec fn lex(s: Seq<char>) -> (Lexeme, Seq<char>) {
    let t = skip_whitespace(s);
    if t.len() == 0 {
        (Ok(TokenView::Eof), t)
    } else {
        let c = t[0];
        let rest = t.skip(1);
        if c == '[' {
            (Ok(TokenView::OpenBracket), rest)
        } else if c == ']' {
            (Ok(TokenView::CloseBracket), rest)
        } else if c == '{' {
            (Ok(TokenView::OpenBrace), rest)
        } else if c == '}' {
            (Ok(TokenView::CloseBrace), rest)
        } else if c == ',' {
            (Ok(TokenView::Comma), rest)
        } else if c == ':' {
            (Ok(TokenView::Colon), rest)
        } else if c == 'n' {
            lex_word(rest, seq!['u', 'l', 'l'], TokenView::Null, TokenizeErrorView::InvalidNull)
        } else if c == 't' {
            lex_word(rest, seq!['r', 'u', 'e'], TokenView::Bool(true), TokenizeErrorView::InvalidTrue)
        } else if c == 'f' {
            lex_word(
                rest,
                seq!['a', 'l', 's', 'e'],
                TokenView::Bool(false),
                TokenizeErrorView::InvalidFalse,
            )
        } else if c == '"' {
            lex_string(rest)
        } else if is_digit(c) || c == '-' {
            lex_number(t)
        } else {
            (Err(TokenizeErrorView::UnexpectedChar(c)), rest)
        }
    }
}

/// The lexeme is a token other than the end of the input.
pub open spec fn is_proper_token(lexeme: Lexeme) -> bool {
    lexeme is Ok && lexeme != Ok::<TokenView, TokenizeErrorView>(TokenView::Eof)
}

fn is_char(found: Option<char>, c: char) -> (r: bool)
    ensures
        r == (found == Some(c)),
{
    match found {
        Some(d) => d == c,
        None => false,
    }
}

/// Checks whether `c` is a whitespace character.
pub fn is_whitespace(c: char) -> (r: bool)
    ensures
        r == is_whitespace_char(c),
{
    c == ' ' || c == '\t' || c == '\n' || c == '\r'
}

/// A read position in a text, from which tokens are taken one by one.
pub struct Tokenizer {
    chars: Vec<char>,
    pos: usize,
}

impl View for Tokenizer {
    type V = Seq<char>;

    /// The text that is still to be read.
    closed spec fn view(&self) -> Seq<char> {
        self.chars@.skip(self.pos as int)
    }
}

impl Tokenizer {
    #[verifier::type_invariant]
    closed spec fn inv(&self) -> bool {
        self.pos <= self.chars.len()
    }

    /// The whole text, read or not.
    pub closed spec fn source(&self) -> Seq<char> {
        self.chars@
    }

    /// The character that was read last, if any was.
    pub closed spec fn last_read(&self) -> Option<char> {
        if self.pos > 0 {
            Some(self.chars@[self.pos - 1])
        } else {
            None
        }
    }

    /// A tokenizer at the start of `input`.
    pub fn new(input: &str) -> (r: Tokenizer)
        ensures
            r@ == input@,
            r.source() == input@,
    {
        let mut chars: Vec<char> = Vec::new();
        for c in it: input.chars()
            invariant
                it.seq() == input@,
                chars@ == it.seq().take(it.index() as int),
        {
            chars.push(c);
        }
        Tokenizer { chars, pos: 0 }
    }

    /// The next token, left in place.
    pub fn peek_next(&mut self) -> (r: Result<Token, TokenizeError>)
        ensures
            lexeme_of(r) == lex(old(self)@).0,
            final(self)@ == old(self)@,
            final(self).source() == old(self).source(),
    {
        proof {
            use_type_invariant(&*self);
        }
        let saved = self.pos;
        let token = self.next_token();
        self.pos = saved;
        token
    }

    /// Takes the next token. At the end of the input that is `Token::Eof`,
    /// however often it is asked for.
    pub fn next_token(&mut self) -> (r: Result<Token, TokenizeError>)
        ensures
            lexeme_of(r) == lex(old(self)@).0,
            final(self)@ == lex(old(self)@).1,
            final(self).source() == old(self).source(),
    {
        proof {
            reveal(lex);
        }
        self.eat_whitespace();
        match self.bump() {
            None => Ok(Token::Eof),
            Some(c) => {
                if c == '[' {
                    Ok(Token::OpenBracket)
                } else if c == ']' {
                    Ok(Token::CloseBracket)
                } else if c == '{' {
                    Ok(Token::OpenBrace)
                } else if c == '}' {
                    Ok(Token::CloseBrace)
                } else if c == ',' {
                    Ok(Token::Comma)
                } else if c == ':' {
                    Ok(Token::Colon)
                } else if c == 'n' {
                    self.next_null()
                } else if c == 't' {
                    self.next_true()
                } else if c == 'f' {
                    self.next_false()
                } else if c == '"' {
                    self.next_string()
                } else if ('0' <= c && c <= '9') || c == '-' {
                    let ghost text = skip_whitespace(old(self)@);
                    assert(seq![c] + self@ =~= text);
                    self.next_number(c)
                } else {
                    Err(TokenizeError::UnexpectedChar(c))
                }
            },
        }
    }

    /// Reads `ull` behind an `n`.
    fn next_null(&mut self) -> (r: Result<Token, TokenizeError>)
        requires
            old(self).last_read() is None || old(self).last_read() == Some('n'),
        ensures
            (lexeme_of(r), final(self)@) == lex_word(
                old(self)@,
                seq!['u', 'l', 'l'],
                TokenView::Null,
                TokenizeErrorView::InvalidNull,
            ),
            final(self).source() == old(self).source(),
    {
        let ghost before = self@;
        let second = self.bump();
        let third = self.bump();
        let fourth = self.bump();
        proof {
            if before.len() >= 3 {
                assert(self@ =~= before.skip(3));
                assert(before.take(3) =~= seq![before[0], before[1], before[2]]);
            } else {
                assert(self@ =~= Seq::<char>::empty());
            }
        }
        if !is_char(second, 'u') || !is_char(third, 'l') || !is_char(fourth, 'l') {
            return Err(TokenizeError::InvalidNull);
        }
        Ok(Token::Null)
    }

    /// Reads `rue` behind a `t`.
    fn next_true(&mut self) -> (r: Result<Token, TokenizeError>)
        requires
            old(self).last_read() is None || old(self).last_read() == Some('t'),
        ensures
            (lexeme_of(r), final(self)@) == lex_word(
                old(self)@,
                seq!['r', 'u', 'e'],
                TokenView::Bool(true),
                TokenizeErrorView::InvalidTrue,
            ),
            final(self).source() == old(self).source(),
    {
        let ghost before = self@;
        let second = self.bump();
        let third = self.bump();
        let fourth = self.bump();
        proof {
            if before.len() >= 3 {
                assert(self@ =~= before.skip(3));
                assert(before.take(3) =~= seq![before[0], before[1], before[2]]);
            } else {
                assert(self@ =~= Seq::<char>::empty());
            }
        }
        if !is_char(second, 'r') || !is_char(third, 'u') || !is_char(fourth, 'e') {
            return Err(TokenizeError::InvalidTrue);
        }
        Ok(Token::Bool(true))
    }

    /// Reads `alse` behind an `f`.
    fn next_false(&mut self) -> (r: Result<Token, TokenizeError>)
        requires
            old(self).last_read() is None || old(self).last_read() == Some('f'),
        ensures
            (lexeme_of(r), final(self)@) == lex_word(
                old(self)@,
                seq!['a', 'l', 's', 'e'],
                TokenView::Bool(false),
                TokenizeErrorView::InvalidFalse,
            ),
            final(self).source() == old(self).source(),
    {
        let ghost before = self@;
        let second = self.bump();
        let third = self.bump();
        let fourth = self.bump();
        let fifth = self.bump();
        proof {
            if before.len() >= 4 {
                assert(self@ =~= before.skip(4));
                assert(before.take(4) =~= seq![before[0], before[1], before[2], before[3]]);
            } else {
                assert(self@ =~= Seq::<char>::empty());
            }
        }
        if !is_char(second, 'a') || !is_char(third, 'l') || !is_char(fourth, 's') || !is_char(
            fifth,
            'e',
        ) {
            return Err(TokenizeError::InvalidFalse);
        }
        Ok(Token::Bool(false))
    }

    /// Reads a string behind its opening quote.
    fn next_string(&mut self) -> (r: Result<Token, TokenizeError>)
        requires
            old(self).last_read() is None || old(self).last_read() == Some('"'),
        ensures
            (lexeme_of(r), final(self)@) == lex_string(old(self)@),
            final(self).source() == old(self).source(),
    {
        let ghost before = self@;
        let mut string = String::new();
        loop
            invariant
                self.source() == old(self).source(),
                before == old(self)@,
                string@.len() <= before.len(),
                string@ == before.take(string@.len() as int),
                self@ == before.skip(string@.len() as int),
                forall|i: int| 0 <= i < string@.len() ==> #[trigger] before[i] != '"',
            decreases self@.len(),
        {
            let ghost n = string@.len() as int;
            match self.bump() {
                Some(c) => {
                    if c == '"' {
                        proof {
                            lemma_prefix_len(before, unquoted(), n);
                            assert(self@ =~= before.skip(n + 1));
                        }
                        return Ok(Token::String(string));
                    }
                    string.push(c);
                    assert(string@ =~= before.take(n + 1));
                    assert(self@ =~= before.skip(n + 1));
                },
                None => {
                    proof {
                        lemma_prefix_len(before, unquoted(), n);
                        assert(self@ =~= Seq::<char>::empty());
                    }
                    return Err(TokenizeError::ReachedEOF("\""));
                },
            }
        }
    }

    /// Reads a number behind its first character, which the caller took.
    fn next_number(&mut self, first_digit: char) -> (r: Result<Token, TokenizeError>)
        requires
            is_digit(first_digit) || first_digit == '-',
        ensures
            (lexeme_of(r), final(self)@) == lex_number(seq![first_digit] + old(self)@),
            final(self).source() == old(self).source(),
    {
        let ghost before = self@;
        let ghost whole = seq![first_digit] + before;
        let mut text: Vec<char> = Vec::new();
        text.push(first_digit);
        loop
            invariant
                self.source() == old(self).source(),
                whole == seq![first_digit] + old(self)@,
                is_digit(first_digit) || first_digit == '-',
                1 <= text@.len() <= whole.len(),
                text@ == whole.take(text@.len() as int),
                self@ == whole.skip(text@.len() as int),
                forall|i: int| 0 <= i < text@.len() ==> !ends_number(#[trigger] whole[i]),
            decreases self@.len(),
        {
            let ghost n = text@.len() as int;
            let next_char = self.peek_next_char();
            if is_whitespace(next_char) || next_char == ',' || next_char == ']' || next_char == '}'
                || next_char == EOF_CHAR {
                proof {
                    lemma_prefix_len(whole, inside_number(), n);
                }
                return match Number::from_chars(text.as_slice()) {
                    Some(number) => Ok(Token::Number(number)),
                    None => Err(TokenizeError::InvalidNumber(string_of(text.as_slice()))),
                };
            }
            let _ = self.bump();
            text.push(next_char);
            assert(text@ =~= whole.take(n + 1));
            assert(self@ =~= whole.skip(n + 1));
        }
    }

    /// Checks whether the next character is `EOF_CHAR`, as it is at the end
    /// of the input.
    pub fn is_eof(&self) -> (r: bool)
        ensures
            r == (self@.len() == 0 || self@[0] == EOF_CHAR),
    {
        self.peek_next_char() == EOF_CHAR
    }

    /// Takes the next character, if there is one.
    pub fn bump(&mut self) -> (r: Option<char>)
        ensures
            final(self).source() == old(self).source(),
            old(self)@.len() == 0 ==> r is None && final(self)@ == old(self)@,
            old(self)@.len() > 0 ==> r == Some(old(self)@[0]) && final(self)@ == old(self)@.skip(1)
                && final(self).last_read() == r,
    {
        proof {
            use_type_invariant(&*self);
        }
        if self.pos < self.chars.len() {
            let c = self.chars[self.pos];
            self.pos = self.pos + 1;
            assert(self@ =~= old(self)@.skip(1));
            Some(c)
        } else {
            None
        }
    }

    /// Takes characters for as long as `predicate` accepts them, and stops
    /// before `EOF_CHAR` in any case.
    pub fn eat_while(&mut self, predicate: impl Fn(char) -> bool)
        requires
            forall|c: char| call_requires(predicate, (c,)),
        ensures
            final(self).source() == old(self).source(),
            ({
                let before = old(self)@;
                let n = before.len() - final(self)@.len();
                &&& 0 <= n <= before.len()
                &&& final(self)@ == before.skip(n)
                &&& forall|i: int|
                    0 <= i < n ==> call_ensures(predicate, (#[trigger] before[i],), true)
                        && before[i] != EOF_CHAR
                &&& n < before.len() ==> before[n] == EOF_CHAR || call_ensures(
                    predicate,
                    (before[n],),
                    false,
                )
            }),
    {
        proof {
            use_type_invariant(&*self);
        }
        let ghost before = self@;
        let ghost start = self.pos;
        loop
            invariant
                self.chars == old(self).chars,
                start <= self.pos <= self.chars.len(),
                before == self.chars@.skip(start as int),
                forall|c: char| call_requires(predicate, (c,)),
                forall|i: int|
                    0 <= i < self.pos - start ==> call_ensures(predicate, (#[trigger] before[i],), true)
                        && before[i] != EOF_CHAR,
            ensures
                self.pos < self.chars.len() ==> before[self.pos - start] == EOF_CHAR || call_ensures(
                    predicate,
                    (before[self.pos - start],),
                    false,
                ),
            decreases self.chars.len() - self.pos,
        {
            let c = self.peek_next_char();
            if !predicate(c) || self.is_eof() {
                break;
            }
            self.pos = self.pos + 1;
        }
        assert(self@ =~= before.skip(self.pos - start));
    }

    /// Takes the whitespace that the text begins with.
    pub fn eat_whitespace(&mut self)
        ensures
            final(self).source() == old(self).source(),
            final(self)@ == skip_whitespace(old(self)@),
    {
        let ghost before = self@;
        self.eat_while(is_whitespace);
        proof {
            lemma_prefix_len(before, whitespace(), before.len() - self@.len());
        }
    }

    /// The next character, left in place; `EOF_CHAR` at the end of the input.
    pub fn peek_next_char(&self) -> (c: char)
        ensures
            c == if self@.len() > 0 { self@[0] } else { EOF_CHAR },
    {
        proof {
            use_type_invariant(self);
        }
        if self.pos < self.chars.len() {
            self.chars[self.pos]
        } else {
            EOF_CHAR
        }
    }
}

} // verus!
