use crate::error::LuaError;
use crate::value::{bytes_eq, Decimal};
use vstd::prelude::*;

verus! {

/// A lexical token.
#[derive(Debug, PartialEq)]
pub enum Token {
    // keywords
    And,
    Break,
    Do,
    Else,
    Elseif,
    End,
    False,
    For,
    Function,
    Goto,
    If,
    In,
    Local,
    Nil,
    Not,
    Or,
    Repeat,
    Return,
    Then,
    True,
    Until,
    While,
    // +  -  *  /  %  ^  #
    Add,
    Sub,
    Mul,
    Div,
    Mod,
    Pow,
    Len,
    // &  ~  |  <<  >>  //
    BitAnd,
    BitXor,
    BitOr,
    ShiftL,
    ShiftR,
    Idiv,
    // ==  ~=  <=  >=  <  >  =
    Equal,
    NotEq,
    LesEq,
    GreEq,
    Less,
    Greater,
    Assign,
    // (  )  {  }  [  ]  ::
    ParL,
    ParR,
    CurlyL,
    CurlyR,
    SqurL,
    SqurR,
    DoubColon,
    // ;  :  ,  .  ..  ...
    SemiColon,
    Colon,
    Comma,
    Dot,
    Concat,
    Dots,
    /// An integer literal.
    Integer(i64),
    /// A number literal with a fractional part.
    Float(Decimal),
    /// An identifier, as its bytes.
    Name(Vec<u8>),
    /// A string literal, as the bytes between its quotes.
    Strng(Vec<u8>),
    /// The end of the input (or a NUL byte, which ends it too).
    Eos,
}

/// What a token means: names and strings as byte sequences, every other
/// token as itself.
pub enum TokenView {
    Name(Seq<u8>),
    Str(Seq<u8>),
    Other(Token),
}

impl View for Token {
    type V = TokenView;

    open spec fn view(&self) -> TokenView {
        match self {
            Token::Name(n) => TokenView::Name(n@),
            Token::Strng(s) => TokenView::Str(s@),
            _ => TokenView::Other(*self),
        }
    }
}

/// The byte at `i`, or 0 past the end.
pub open spec fn byte_at(s: Seq<u8>, i: int) -> u8 {
    if 0 <= i < s.len() {
        s[i]
    } else {
        0
    }
}

pub open spec fn is_space(c: u8) -> bool {
    c == ' ' as u8 || c == '\r' as u8 || c == '\n' as u8 || c == '\t' as u8
}

pub open spec fn is_digit(c: u8) -> bool {
    '0' as u8 <= c <= '9' as u8
}

pub open spec fn is_alpha(c: u8) -> bool {
    ('A' as u8 <= c <= 'Z' as u8) || ('a' as u8 <= c <= 'z' as u8)
}

pub open spec fn is_name_start(c: u8) -> bool {
    is_alpha(c) || c == '_' as u8
}

pub open spec fn is_name_char(c: u8) -> bool {
    is_name_start(c) || is_digit(c)
}

/// The end of the run of name bytes that starts at `p`.
pub open spec fn name_end(s: Seq<u8>, p: int) -> int
    decreases s.len() - p,
{
    if 0 <= p < s.len() && is_name_char(s[p]) {
        name_end(s, p + 1)
    } else {
        p
    }
}

/// The end of the run of digits that starts at `p`.
pub open spec fn digits_end(s: Seq<u8>, p: int) -> int
    decreases s.len() - p,
{
    if 0 <= p < s.len() && is_digit(s[p]) {
        digits_end(s, p + 1)
    } else {
        p
    }
}

/// The end of the body of a string literal quoted by `q` whose body starts
/// at `p`: the first quote, newline, backslash or NUL, or the end of input.
pub open spec fn string_end(s: Seq<u8>, p: int, q: u8) -> int
    decreases s.len() - p,
{
    if 0 <= p < s.len() && s[p] != q && s[p] != '\n' as u8 && s[p] != '\\' as u8 && s[p] != 0 {
        string_end(s, p + 1, q)
    } else {
        p
    }
}

/// The decimal value of the digits `s[a..b]`.
pub open spec fn digits_value(s: Seq<u8>, a: int, b: int) -> nat
    decreases b - a,
{
    if b <= a {
        0
    } else {
        digits_value(s, a, b - 1) * 10 + (s[b - 1] - '0' as u8) as nat
    }
}

/// The position of the next token at or after `p`: white space and line
/// comments are skipped. A long comment (`--[`) is refused.
pub open spec fn skip(s: Seq<u8>, p: int) -> Result<int, LuaError>
    decreases s.len() - p, 0int,
{
    if 0 <= p < s.len() && is_space(s[p]) {
        skip(s, p + 1)
    } else if 0 <= p && p + 1 < s.len() && s[p] == '-' as u8 && s[p + 1] == '-' as u8 {
        if byte_at(s, p + 2) == '[' as u8 {
            Err(LuaError::LongCommentUnsupported)
        } else {
            skip_line(s, p + 2)
        }
    } else {
        Ok(p)
    }
}

/// Skips the rest of a line comment from `p`, then goes on as `skip`.
pub open spec fn skip_line(s: Seq<u8>, p: int) -> Result<int, LuaError>
    decreases s.len() - p, 1int,
{
    if 0 <= p < s.len() && s[p] != '\n' as u8 && s[p] != 0 {
        skip_line(s, p + 1)
    } else if 0 <= p <= s.len() {
        skip(s, p)
    } else {
        Ok(p)
    }
}

/// The keyword spelled by `w`, if any.
pub open spec fn keyword(w: Seq<u8>) -> Option<Token> {
    if w == seq!['n' as u8, 'i' as u8, 'l' as u8] {
        Some(Token::Nil)
    } else if w == seq!['t' as u8, 'r' as u8, 'u' as u8, 'e' as u8] {
        Some(Token::True)
    } else if w == seq!['f' as u8, 'a' as u8, 'l' as u8, 's' as u8, 'e' as u8] {
        Some(Token::False)
    } else if w == seq!['l' as u8, 'o' as u8, 'c' as u8, 'a' as u8, 'l' as u8] {
        Some(Token::Local)
    } else if w == seq!['a' as u8, 'n' as u8, 'd' as u8] {
        Some(Token::And)
    } else if w == seq!['b' as u8, 'r' as u8, 'e' as u8, 'a' as u8, 'k' as u8] {
        Some(Token::Break)
    } else if w == seq!['d' as u8, 'o' as u8] {
        Some(Token::Do)
    } else if w == seq!['i' as u8, 'f' as u8] {
        Some(Token::If)
    } else if w == seq!['e' as u8, 'l' as u8, 's' as u8, 'e' as u8] {
        Some(Token::Else)
    } else if w == seq!['e' as u8, 'l' as u8, 's' as u8, 'e' as u8, 'i' as u8, 'f' as u8] {
        Some(Token::Elseif)
    } else if w == seq!['e' as u8, 'n' as u8, 'd' as u8] {
        Some(Token::End)
    } else if w == seq!['f' as u8, 'u' as u8, 'n' as u8, 'c' as u8, 't' as u8, 'i' as u8, 'o' as u8, 'n' as u8] {
        Some(Token::Function)
    } else if w == seq!['g' as u8, 'o' as u8, 't' as u8, 'o' as u8] {
        Some(Token::Goto)
    } else if w == seq!['f' as u8, 'o' as u8, 'r' as u8] {
        Some(Token::For)
    } else if w == seq!['i' as u8, 'n' as u8] {
        Some(Token::In)
    } else if w == seq!['n' as u8, 'o' as u8, 't' as u8] {
        Some(Token::Not)
    } else if w == seq!['o' as u8, 'r' as u8] {
        Some(Token::Or)
    } else if w == seq!['r' as u8, 'e' as u8, 'p' as u8, 'e' as u8, 'a' as u8, 't' as u8] {
        Some(Token::Repeat)
    } else if w == seq!['r' as u8, 'e' as u8, 't' as u8, 'u' as u8, 'r' as u8, 'n' as u8] {
        Some(Token::Return)
    } else if w == seq!['t' as u8, 'h' as u8, 'e' as u8, 'n' as u8] {
        Some(Token::Then)
    } else if w == seq!['u' as u8, 'n' as u8, 't' as u8, 'i' as u8, 'l' as u8] {
        Some(Token::Until)
    } else if w == seq!['w' as u8, 'h' as u8, 'i' as u8, 'l' as u8, 'e' as u8] {
        Some(Token::While)
    } else {
        None
    }
}

/// The decimal `whole + f / 10^n`, with trailing zero digits of `f` dropped.
pub open spec fn normalize(whole: int, f: nat, n: nat) -> Decimal
    decreases n,
{
    if n > 0 && f % 10 == 0 {
        normalize(whole, f / 10, (n - 1) as nat)
    } else {
        Decimal { int_part: whole as i64, frac: f as u64, frac_len: n as usize }
    }
}

/// The number whose fraction digits start at `p`, after an integer part `whole`.
pub open spec fn scan_fraction(s: Seq<u8>, p: int, whole: int) -> Result<(TokenView, int), LuaError> {
    let e = digits_end(s, p);
    let f = digits_value(s, p, e);
    if f > u64::MAX {
        Err(LuaError::MalformedNumber)
    } else {
        Ok((TokenView::Other(Token::Float(normalize(whole, f, (e - p) as nat))), e))
    }
}

/// The number that starts with the digit at `q`.
pub open spec fn scan_number(s: Seq<u8>, q: int) -> Result<(TokenView, int), LuaError> {
    if s[q] == '0' as u8 && (byte_at(s, q + 1) == 'x' as u8 || byte_at(s, q + 1) == 'X' as u8) {
        Err(LuaError::HexUnsupported)
    } else {
        let e = digits_end(s, q);
        let v = digits_value(s, q, e);
        let c = byte_at(s, e);
        if v > i64::MAX {
            Err(LuaError::MalformedNumber)
        } else if c == '.' as u8 {
            scan_fraction(s, e + 1, v as int)
        } else if c == 'e' as u8 || c == 'E' as u8 {
            Err(LuaError::ExponentUnsupported)
        } else if is_alpha(c) {
            Err(LuaError::MalformedNumber)
        } else {
            Ok((TokenView::Other(Token::Integer(v as i64)), e))
        }
    }
}

/// The string literal quoted by `quote` whose body starts at `p`.
pub open spec fn scan_string(s: Seq<u8>, p: int, quote: u8) -> Result<(TokenView, int), LuaError> {
    let e = string_end(s, p, quote);
    let c = byte_at(s, e);
    if e < s.len() && c == quote {
        Ok((TokenView::Str(s.subrange(p, e)), e + 1))
    } else if c == '\\' as u8 {
        Err(LuaError::EscapeUnsupported)
    } else {
        Err(LuaError::UnterminatedString)
    }
}

/// The token `t` of one byte at `q`.
pub open spec fn one(t: Token, q: int) -> Result<(TokenView, int), LuaError> {
    Ok((TokenView::Other(t), q + 1))
}

/// `long` (two bytes) where the byte after `q` is `c`, else `short` (one byte).
pub open spec fn one_or_two(s: Seq<u8>, q: int, c: u8, long: Token, short: Token) -> Result<
    (TokenView, int),
    LuaError,
> {
    if byte_at(s, q + 1) == c {
        Ok((TokenView::Other(long), q + 2))
    } else {
        one(short, q)
    }
}

/// The token that starts at `q`, where no white space or comment starts,
/// and the position after it.
///
/// Two-byte operators take the longest match: `==` is the equality operator,
/// `=` alone is assignment.
pub open spec fn token_at(s: Seq<u8>, q: int) -> Result<(TokenView, int), LuaError> {
    let c = byte_at(s, q);
    if c == 0 {
        Ok((TokenView::Other(Token::Eos), q))
    } else if c == '+' as u8 {
        one(Token::Add, q)
    } else if c == '*' as u8 {
        one(Token::Mul, q)
    } else if c == '%' as u8 {
        one(Token::Mod, q)
    } else if c == '^' as u8 {
        one(Token::Pow, q)
    } else if c == '#' as u8 {
        one(Token::Len, q)
    } else if c == '&' as u8 {
        one(Token::BitAnd, q)
    } else if c == '|' as u8 {
        one(Token::BitOr, q)
    } else if c == '(' as u8 {
        one(Token::ParL, q)
    } else if c == ')' as u8 {
        one(Token::ParR, q)
    } else if c == '{' as u8 {
        one(Token::CurlyL, q)
    } else if c == '}' as u8 {
        one(Token::CurlyR, q)
    } else if c == '[' as u8 {
        one(Token::SqurL, q)
    } else if c == ']' as u8 {
        one(Token::SqurR, q)
    } else if c == ';' as u8 {
        one(Token::SemiColon, q)
    } else if c == ',' as u8 {
        one(Token::Comma, q)
    } else if c == '-' as u8 {
        one(Token::Sub, q)
    } else if c == '/' as u8 {
        one_or_two(s, q, '/' as u8, Token::Idiv, Token::Div)
    } else if c == '=' as u8 {
        one_or_two(s, q, '=' as u8, Token::Equal, Token::Assign)
    } else if c == '~' as u8 {
        one_or_two(s, q, '=' as u8, Token::NotEq, Token::BitXor)
    } else if c == ':' as u8 {
        one_or_two(s, q, ':' as u8, Token::DoubColon, Token::Colon)
    } else if c == '<' as u8 {
        if byte_at(s, q + 1) == '=' as u8 {
            Ok((TokenView::Other(Token::LesEq), q + 2))
        } else {
            one_or_two(s, q, '<' as u8, Token::ShiftL, Token::Less)
        }
    } else if c == '>' as u8 {
        if byte_at(s, q + 1) == '=' as u8 {
            Ok((TokenView::Other(Token::GreEq), q + 2))
        } else {
            one_or_two(s, q, '>' as u8, Token::ShiftR, Token::Greater)
        }
    } else if c == '.' as u8 {
        if byte_at(s, q + 1) == '.' as u8 {
            one_or_two(s, q + 1, '.' as u8, Token::Dots, Token::Concat)
        } else if is_digit(byte_at(s, q + 1)) {
            scan_fraction(s, q + 1, 0)
        } else {
            one(Token::Dot, q)
        }
    } else if c == '\'' as u8 || c == '"' as u8 {
        scan_string(s, q + 1, c)
    } else if is_name_start(c) {
        let e = name_end(s, q);
        let w = s.subrange(q, e);
        match keyword(w) {
            Some(t) => Ok((TokenView::Other(t), e)),
            None => Ok((TokenView::Name(w), e)),
        }
    } else if is_digit(c) {
        scan_number(s, q)
    } else {
        Err(LuaError::UnexpectedChar(c))
    }
}

/// The next token of `s` from position `p`, and the position after it.
pub open spec fn scan(s: Seq<u8>, p: int) -> Result<(TokenView, int), LuaError> {
    match skip(s, p) {
        Ok(q) => token_at(s, q),
        Err(e) => Err(e),
    }
}

/// A lexer over a byte string, with one token of lookahead.
pub struct Lex {
    input: Vec<u8>,
    pos: usize,
    head: Option<Token>,
    head_start: Ghost<int>,
}

impl Lex {
    /// The lexer's invariant: `pos` lies within the input, and a held token is
    /// the one scanned from `head_start`, ending at `pos`.
    pub closed spec fn wf(&self) -> bool {
        &&& self.pos <= self.input@.len()
        &&& self.head is Some ==> {
            &&& 0 <= self.head_start@ <= self.pos
            &&& !(self.head->Some_0 is Eos) ==> self.head_start@ < self.pos
            &&& scan(self.input@, self.head_start@) == Ok::<(TokenView, int), LuaError>(
                (self.head->Some_0@, self.pos as int),
            )
        }
    }

    /// The bytes lexed.
    pub closed spec fn source(&self) -> Seq<u8> {
        self.input@
    }

    /// Where the next token is scanned from.
    ///
    /// It never lies past the end of the input (see `lemma_cursor`).
    pub closed spec fn cursor(&self) -> int {
        if self.head is Some {
            self.head_start@
        } else {
            self.pos as int
        }
    }

    /// The cursor lies within the input.
    pub proof fn lemma_cursor(&self)
        requires
            self.wf(),
        ensures
            0 <= self.cursor() <= self.source().len(),
    {
    }

    /// A lexer at the start of `input`.
    pub fn new(input: Vec<u8>) -> (r: Lex)
        ensures
            r.wf(),
            r.source() == input@,
            r.cursor() == 0,
    {
        Lex { input, pos: 0, head: None, head_start: Ghost(0) }
    }

    /// Consumes and returns the next token.
    pub fn next(&mut self) -> (r: Result<Token, LuaError>)
        requires
            old(self).wf(),
        ensures
            final(self).wf(),
            final(self).source() == old(self).source(),
            match (scan(old(self).source(), old(self).cursor()), r) {
                (Ok((t, e)), Ok(tok)) => tok@ == t && final(self).cursor() == e,
                (Err(e1), Err(e2)) => e1 == e2,
                _ => false,
            },
            r is Ok ==> old(self).cursor() <= final(self).cursor() <= final(self).source().len(),
            r matches Ok(t) && !(t is Eos) ==> old(self).cursor() < final(self).cursor(),
    {
        match self.head.take() {
            Some(t) => Ok(t),
            None => self.do_next(),
        }
    }

    /// The next token, without consuming it.
    pub fn peek(&mut self) -> (r: Result<&Token, LuaError>)
        requires
            old(self).wf(),
        ensures
            final(self).wf(),
            final(self).source() == old(self).source(),
            match (scan(old(self).source(), old(self).cursor()), r) {
                (Ok((t, e)), Ok(tok)) => tok@ == t && final(self).cursor() == old(self).cursor(),
                (Err(e1), Err(e2)) => e1 == e2,
                _ => false,
            },
            old(self).cursor() <= old(self).source().len(),
    {
        if self.head.is_none() {
            let ghost start = self.pos as int;
            let t = self.do_next()?;
            self.head_start = Ghost(start);
            self.head = Some(t);
        }
        match &self.head {
            Some(t) => Ok(t),
            None => {
                // A token is held by now.
                proof {
                    assert(false);
                }
                Err(LuaError::UnexpectedToken)
            },
        }
    }

    /// The byte at `i`, or 0 past the end.
    fn read_char(&self, i: usize) -> (c: u8)
        ensures
            c == byte_at(self.input@, i as int),
            c != 0 ==> i < self.input.len(),
    {
        if i < self.input.len() {
            self.input[i]
        } else {
            0
        }
    }

    /// Scans a token from `pos`, where no token is held.
    fn do_next(&mut self) -> (r: Result<Token, LuaError>)
        requires
            old(self).wf(),
            old(self).head is None,
        ensures
            final(self).wf(),
            final(self).head is None,
            final(self).input@ == old(self).input@,
            old(self).pos <= final(self).pos,
            match (scan(old(self).input@, old(self).pos as int), r) {
                (Ok((t, e)), Ok(tok)) => tok@ == t && final(self).pos == e,
                (Err(e1), Err(e2)) => e1 == e2,
                _ => false,
            },
            r matches Ok(t) && !(t is Eos) ==> old(self).pos < final(self).pos,
    {
        self.read_comment()?;
        self.read_token()
    }

    /// Skips white space and line comments.
    fn read_comment(&mut self) -> (r: Result<(), LuaError>)
        requires
            old(self).wf(),
            old(self).head is None,
        ensures
            final(self).wf(),
            final(self).head is None,
            final(self).input@ == old(self).input@,
            old(self).pos <= final(self).pos,
            match (skip(old(self).input@, old(self).pos as int), r) {
                (Ok(q), Ok(_)) => final(self).pos == q,
                (Err(e1), Err(e2)) => e1 == e2,
                _ => false,
            },
    {
        let ghost s = self.input@;
        let ghost p0 = self.pos as int;
        loop
            invariant
                self.head is None,
                self.wf(),
                self.input@ == s,
                self.pos <= s.len(),
                skip(s, p0) == skip(s, self.pos as int),
                s == old(self).input@,
                p0 == old(self).pos,
                p0 <= self.pos,
            decreases s.len() - self.pos,
        {
            let c = self.read_char(self.pos);
            if c == ' ' as u8 || c == '\r' as u8 || c == '\n' as u8 || c == '\t' as u8 {
                self.pos = self.pos + 1;
            } else if c == '-' as u8 && self.read_char(self.pos + 1) == '-' as u8 {
                if self.read_char(self.pos + 2) == '[' as u8 {
                    return Err(LuaError::LongCommentUnsupported);
                }
                self.pos = self.pos + 2;
                let ghost start = self.pos;
                while self.pos < self.input.len() && self.input[self.pos] != '\n' as u8
                    && self.input[self.pos] != 0
                    invariant
                        self.head is None,
                        self.input@ == s,
                        self.pos <= s.len(),
                        skip(s, p0) == skip_line(s, self.pos as int),
                        s == old(self).input@,
                        p0 == old(self).pos,
                        p0 <= self.pos,
                        start <= self.pos,
                    decreases s.len() - self.pos,
                {
                    self.pos = self.pos + 1;
                }
            } else {
                return Ok(());
            }
        }
    }

    /// Scans the token at `pos`, where no white space or comment starts.
    #[verifier::rlimit(50)]
    fn read_token(&mut self) -> (r: Result<Token, LuaError>)
        requires
            old(self).wf(),
            old(self).head is None,
        ensures
            final(self).wf(),
            final(self).head is None,
            final(self).input@ == old(self).input@,
            old(self).pos <= final(self).pos,
            match (token_at(old(self).input@, old(self).pos as int), r) {
                (Ok((t, e)), Ok(tok)) => tok@ == t && final(self).pos == e,
                (Err(e1), Err(e2)) => e1 == e2,
                _ => false,
            },
            r matches Ok(t) && !(t is Eos) ==> old(self).pos < final(self).pos,
    {
        let q = self.pos;
        let c = self.read_char(q);
        if c == 0 {
            return Ok(Token::Eos);
        }
        if c == '\'' as u8 || c == '"' as u8 {
            self.pos = q + 1;
            return self.read_string(c);
        }
        if ('A' as u8 <= c && c <= 'Z' as u8) || ('a' as u8 <= c && c <= 'z' as u8) || c == '_' as u8 {
            return Ok(self.read_name());
        }
        if '0' as u8 <= c && c <= '9' as u8 {
            return self.read_number();
        }
        self.pos = q + 1;
        if c == '+' as u8 {
            Ok(Token::Add)
        } else if c == '*' as u8 {
            Ok(Token::Mul)
        } else if c == '%' as u8 {
            Ok(Token::Mod)
        } else if c == '^' as u8 {
            Ok(Token::Pow)
        } else if c == '#' as u8 {
            Ok(Token::Len)
        } else if c == '&' as u8 {
            Ok(Token::BitAnd)
        } else if c == '|' as u8 {
            Ok(Token::BitOr)
        } else if c == '(' as u8 {
            Ok(Token::ParL)
        } else if c == ')' as u8 {
            Ok(Token::ParR)
        } else if c == '{' as u8 {
            Ok(Token::CurlyL)
        } else if c == '}' as u8 {
            Ok(Token::CurlyR)
        } else if c == '[' as u8 {
            Ok(Token::SqurL)
        } else if c == ']' as u8 {
            Ok(Token::SqurR)
        } else if c == ';' as u8 {
            Ok(Token::SemiColon)
        } else if c == ',' as u8 {
            Ok(Token::Comma)
        } else if c == '-' as u8 {
            Ok(Token::Sub)
        } else if c == '/' as u8 {
            Ok(self.check_ahead('/' as u8, Token::Idiv, Token::Div))
        } else if c == '=' as u8 {
            Ok(self.check_ahead('=' as u8, Token::Equal, Token::Assign))
        } else if c == '~' as u8 {
            Ok(self.check_ahead('=' as u8, Token::NotEq, Token::BitXor))
        } else if c == ':' as u8 {
            Ok(self.check_ahead(':' as u8, Token::DoubColon, Token::Colon))
        } else if c == '<' as u8 {
            Ok(self.check_ahead2('=' as u8, Token::LesEq, '<' as u8, Token::ShiftL, Token::Less))
        } else if c == '>' as u8 {
            Ok(self.check_ahead2('=' as u8, Token::GreEq, '>' as u8, Token::ShiftR, Token::Greater))
        } else if c == '.' as u8 {
            let c1 = self.read_char(q + 1);
            if c1 == '.' as u8 {
                self.pos = q + 2;
                Ok(self.check_ahead('.' as u8, Token::Dots, Token::Concat))
            } else if '0' as u8 <= c1 && c1 <= '9' as u8 {
                self.read_digit_fraction(0)
            } else {
                Ok(Token::Dot)
            }
        } else {
            Err(LuaError::UnexpectedChar(c))
        }
    }

    /// `long` if the byte at `pos` is `ch`, which it then consumes; else `short`.
    fn check_ahead(&mut self, ch: u8, long: Token, short: Token) -> (r: Token)
        requires
            old(self).wf(),
            old(self).head is None,
            ch != 0,
        ensures
            final(self).wf(),
            final(self).head is None,
            final(self).input@ == old(self).input@,
            old(self).pos <= final(self).pos,
            byte_at(old(self).input@, old(self).pos as int) == ch ==> r == long && final(self).pos
                == old(self).pos + 1,
            byte_at(old(self).input@, old(self).pos as int) != ch ==> r == short && final(self).pos
                == old(self).pos,
    {
        if self.read_char(self.pos) == ch {
            self.pos = self.pos + 1;
            long
        } else {
            short
        }
    }

    /// `long1` or `long2` if the byte at `pos` is `ch1` or `ch2`, which it then
    /// consumes; else `short`.
    fn check_ahead2(&mut self, ch1: u8, long1: Token, ch2: u8, long2: Token, short: Token) -> (r:
        Token)
        requires
            old(self).wf(),
            old(self).head is None,
            ch1 != 0,
            ch2 != 0,
            ch1 != ch2,
        ensures
            final(self).wf(),
            final(self).head is None,
            final(self).input@ == old(self).input@,
            old(self).pos <= final(self).pos,
            ({
                let c = byte_at(old(self).input@, old(self).pos as int);
                if c == ch1 {
                    r == long1 && final(self).pos == old(self).pos + 1
                } else if c == ch2 {
                    r == long2 && final(self).pos == old(self).pos + 1
                } else {
                    r == short && final(self).pos == old(self).pos
                }
            }),
    {
        let t = self.read_char(self.pos);
        if t == ch1 {
            self.pos = self.pos + 1;
            long1
        } else if t == ch2 {
            self.pos = self.pos + 1;
            long2
        } else {
            short
        }
    }

    /// Reads a name or keyword that starts at `pos`.
    fn read_name(&mut self) -> (r: Token)
        requires
            old(self).wf(),
            old(self).head is None,
            is_name_start(byte_at(old(self).input@, old(self).pos as int)),
        ensures
            final(self).wf(),
            final(self).head is None,
            final(self).input@ == old(self).input@,
            old(self).pos <= final(self).pos,
            token_at(old(self).input@, old(self).pos as int) == Ok::<(TokenView, int), LuaError>(
                (r@, final(self).pos as int),
            ),
            old(self).pos < final(self).pos,
    {
        let ghost s = self.input@;
        let q = self.pos;
        let mut w: Vec<u8> = Vec::new();
        let first = self.read_char(q);
        w.push(first);
        self.pos = q + 1;
        assert(w@ =~= s.subrange(q as int, self.pos as int));
        while self.pos < self.input.len() && is_name_byte(self.input[self.pos])
            invariant
                self.head is None,
                self.wf(),
                self.input@ == s,
                q < self.pos <= s.len(),
                name_end(s, q as int) == name_end(s, self.pos as int),
                s == old(self).input@,
                q == old(self).pos,
                w@ == s.subrange(q as int, self.pos as int),
            decreases s.len() - self.pos,
        {
            w.push(self.input[self.pos]);
            self.pos = self.pos + 1;
            assert(w@ =~= s.subrange(q as int, self.pos as int));
        }
        match find_keyword(w.as_slice()) {
            Some(t) => t,
            None => Token::Name(w),
        }
    }

    /// Reads the digits that start at `pos` as a number of at most `limit`.
    fn read_digits(&mut self, limit: u64) -> (r: Result<u64, LuaError>)
        requires
            old(self).wf(),
            old(self).head is None,
            limit >= 9,
        ensures
            final(self).wf(),
            final(self).head is None,
            final(self).input@ == old(self).input@,
            old(self).pos <= final(self).pos,
            ({
                let s = old(self).input@;
                let e = digits_end(s, old(self).pos as int);
                let v = digits_value(s, old(self).pos as int, e);
                if v > limit {
                    r == Err::<u64, LuaError>(LuaError::MalformedNumber)
                } else {
                    r == Ok::<u64, LuaError>(v as u64) && final(self).pos == e
                }
            }),
    {
        let ghost s = self.input@;
        let q = self.pos;
        let mut v: u64 = 0;
        while self.pos < self.input.len() && '0' as u8 <= self.input[self.pos] && self.input[self.pos]
            <= '9' as u8
            invariant
                self.head is None,
                self.wf(),
                self.input@ == s,
                q <= self.pos <= s.len(),
                digits_end(s, q as int) == digits_end(s, self.pos as int),
                s == old(self).input@,
                q == old(self).pos,
                limit >= 9,
                forall|k: int| q <= k < self.pos ==> is_digit(#[trigger] s[k]),
                v == digits_value(s, q as int, self.pos as int),
                v <= limit,
            decreases s.len() - self.pos,
        {
            let d = (self.input[self.pos] - '0' as u8) as u64;
            if v > (limit - d) / 10 {
                proof {
                    lemma_digits_end(s, self.pos as int);
                    lemma_digits_end(s, self.pos as int + 1);
                    lemma_digits_grow(s, q as int, self.pos as int + 1, digits_end(s, q as int));
                }
                return Err(LuaError::MalformedNumber);
            }
            v = v * 10 + d;
            self.pos = self.pos + 1;
        }
        Ok(v)
    }

    /// Reads a number that starts with the digit at `pos`.
    fn read_number(&mut self) -> (r: Result<Token, LuaError>)
        requires
            old(self).wf(),
            old(self).head is None,
            is_digit(byte_at(old(self).input@, old(self).pos as int)),
        ensures
            final(self).wf(),
            final(self).head is None,
            final(self).input@ == old(self).input@,
            old(self).pos <= final(self).pos,
            match (token_at(old(self).input@, old(self).pos as int), r) {
                (Ok((t, e)), Ok(tok)) => tok@ == t && final(self).pos == e,
                (Err(e1), Err(e2)) => e1 == e2,
                _ => false,
            },
            r matches Ok(t) && !(t is Eos) ==> old(self).pos < final(self).pos,
    {
        let q = self.pos;
        if self.read_char(q) == '0' as u8 {
            let second = self.read_char(q + 1);
            if second == 'x' as u8 || second == 'X' as u8 {
                return Err(LuaError::HexUnsupported);
            }
        }
        let v = self.read_digits(9223372036854775807)?;
        proof {
            lemma_digits_end(self.input@, q as int + 1);
        }
        let ch = self.read_char(self.pos);
        if ch == '.' as u8 {
            self.pos = self.pos + 1;
            self.read_digit_fraction(v as i64)
        } else if ch == 'e' as u8 || ch == 'E' as u8 {
            Err(LuaError::ExponentUnsupported)
        } else if ('A' as u8 <= ch && ch <= 'Z' as u8) || ('a' as u8 <= ch && ch <= 'z' as u8) {
            Err(LuaError::MalformedNumber)
        } else {
            Ok(Token::Integer(v as i64))
        }
    }

    /// Reads the fraction digits that start at `pos`, after an integer part `n`.
    fn read_digit_fraction(&mut self, n: i64) -> (r: Result<Token, LuaError>)
        requires
            old(self).wf(),
            old(self).head is None,
        ensures
            final(self).wf(),
            final(self).head is None,
            final(self).input@ == old(self).input@,
            old(self).pos <= final(self).pos,
            match (scan_fraction(old(self).input@, old(self).pos as int, n as int), r) {
                (Ok((t, e)), Ok(tok)) => tok@ == t && final(self).pos == e,
                (Err(e1), Err(e2)) => e1 == e2,
                _ => false,
            },
    {
        let q = self.pos;
        let mut f = self.read_digits(18446744073709551615)?;
        let mut k: usize = self.pos - q;
        while k > 0 && f % 10 == 0
            invariant
                normalize(n as int, f as nat, k as nat) == normalize(
                    n as int,
                    digits_value(self.input@, q as int, self.pos as int),
                    (self.pos - q) as nat,
                ),
            decreases k,
        {
            f = f / 10;
            k = k - 1;
        }
        Ok(Token::Float(Decimal { int_part: n, frac: f, frac_len: k }))
    }

    /// Reads the body of a string literal quoted by `quote`, which starts at `pos`.
    fn read_string(&mut self, quote: u8) -> (r: Result<Token, LuaError>)
        requires
            old(self).wf(),
            old(self).head is None,
            quote != 0,
            quote != '\n' as u8,
            quote != '\\' as u8,
        ensures
            final(self).wf(),
            final(self).head is None,
            final(self).input@ == old(self).input@,
            old(self).pos <= final(self).pos,
            match (scan_string(old(self).input@, old(self).pos as int, quote), r) {
                (Ok((t, e)), Ok(tok)) => tok@ == t && final(self).pos == e,
                (Err(e1), Err(e2)) => e1 == e2,
                _ => false,
            },
    {
        let ghost s = self.input@;
        let q = self.pos;
        let mut w: Vec<u8> = Vec::new();
        while self.pos < self.input.len() && self.input[self.pos] != quote && self.input[self.pos]
            != '\n' as u8 && self.input[self.pos] != '\\' as u8 && self.input[self.pos] != 0
            invariant
                self.head is None,
                self.wf(),
                self.input@ == s,
                q <= self.pos <= s.len(),
                string_end(s, q as int, quote) == string_end(s, self.pos as int, quote),
                s == old(self).input@,
                q == old(self).pos,
                w@ == s.subrange(q as int, self.pos as int),
            decreases s.len() - self.pos,
        {
            w.push(self.input[self.pos]);
            self.pos = self.pos + 1;
            assert(w@ =~= s.subrange(q as int, self.pos as int));
        }
        let c = self.read_char(self.pos);
        if self.pos < self.input.len() && c == quote {
            self.pos = self.pos + 1;
            Ok(Token::Strng(w))
        } else if c == '\\' as u8 {
            Err(LuaError::EscapeUnsupported)
        } else {
            Err(LuaError::UnterminatedString)
        }
    }
}

/// Whether `c` may continue a name.
fn is_name_byte(c: u8) -> (r: bool)
    ensures
        r == is_name_char(c),
{
    ('A' as u8 <= c && c <= 'Z' as u8) || ('a' as u8 <= c && c <= 'z' as u8) || c == '_' as u8 || ('0' as u8 <= c && c <= '9' as u8)
}

/// The run of digits from `p` ends at or after `p`, within the input.
pub proof fn lemma_digits_end(s: Seq<u8>, p: int)
    requires
        0 <= p <= s.len(),
    ensures
        p <= digits_end(s, p) <= s.len(),
        forall|k: int| p <= k < digits_end(s, p) ==> is_digit(#[trigger] s[k]),
    decreases s.len() - p,
{
    if p < s.len() && is_digit(s[p]) {
        lemma_digits_end(s, p + 1);
    }
}

/// A longer run of digits has a value at least as large.
pub proof fn lemma_digits_grow(s: Seq<u8>, a: int, b: int, c: int)
    requires
        a <= b <= c <= s.len(),
        forall|k: int| a <= k < c ==> is_digit(#[trigger] s[k]),
    ensures
        digits_value(s, a, b) <= digits_value(s, a, c),
    decreases c - b,
{
    if b < c {
        lemma_digits_grow(s, a, b, c - 1);
    }
}

/// The keyword spelled by `w`, if any.
fn find_keyword(w: &[u8]) -> (r: Option<Token>)
    ensures
        r == keyword(w@),
{
    if bytes_eq(w, &['n' as u8, 'i' as u8, 'l' as u8]) {
        Some(Token::Nil)
    } else if bytes_eq(w, &['t' as u8, 'r' as u8, 'u' as u8, 'e' as u8]) {
        Some(Token::True)
    } else if bytes_eq(w, &['f' as u8, 'a' as u8, 'l' as u8, 's' as u8, 'e' as u8]) {
        Some(Token::False)
    } else if bytes_eq(w, &['l' as u8, 'o' as u8, 'c' as u8, 'a' as u8, 'l' as u8]) {
        Some(Token::Local)
    } else if bytes_eq(w, &['a' as u8, 'n' as u8, 'd' as u8]) {
        Some(Token::And)
    } else if bytes_eq(w, &['b' as u8, 'r' as u8, 'e' as u8, 'a' as u8, 'k' as u8]) {
        Some(Token::Break)
    } else if bytes_eq(w, &['d' as u8, 'o' as u8]) {
        Some(Token::Do)
    } else if bytes_eq(w, &['i' as u8, 'f' as u8]) {
        Some(Token::If)
    } else if bytes_eq(w, &['e' as u8, 'l' as u8, 's' as u8, 'e' as u8]) {
        Some(Token::Else)
    } else if bytes_eq(w, &['e' as u8, 'l' as u8, 's' as u8, 'e' as u8, 'i' as u8, 'f' as u8]) {
        Some(Token::Elseif)
    } else if bytes_eq(w, &['e' as u8, 'n' as u8, 'd' as u8]) {
        Some(Token::End)
    } else if bytes_eq(w, &['f' as u8, 'u' as u8, 'n' as u8, 'c' as u8, 't' as u8, 'i' as u8, 'o' as u8, 'n' as u8]) {
        Some(Token::Function)
    } else if bytes_eq(w, &['g' as u8, 'o' as u8, 't' as u8, 'o' as u8]) {
        Some(Token::Goto)
    } else if bytes_eq(w, &['f' as u8, 'o' as u8, 'r' as u8]) {
        Some(Token::For)
    } else if bytes_eq(w, &['i' as u8, 'n' as u8]) {
        Some(Token::In)
    } else if bytes_eq(w, &['n' as u8, 'o' as u8, 't' as u8]) {
        Some(Token::Not)
    } else if bytes_eq(w, &['o' as u8, 'r' as u8]) {
        Some(Token::Or)
    } else if bytes_eq(w, &['r' as u8, 'e' as u8, 'p' as u8, 'e' as u8, 'a' as u8, 't' as u8]) {
        Some(Token::Repeat)
    } else if bytes_eq(w, &['r' as u8, 'e' as u8, 't' as u8, 'u' as u8, 'r' as u8, 'n' as u8]) {
        Some(Token::Return)
    } else if bytes_eq(w, &['t' as u8, 'h' as u8, 'e' as u8, 'n' as u8]) {
        Some(Token::Then)
    } else if bytes_eq(w, &['u' as u8, 'n' as u8, 't' as u8, 'i' as u8, 'l' as u8]) {
        Some(Token::Until)
    } else if bytes_eq(w, &['w' as u8, 'h' as u8, 'i' as u8, 'l' as u8, 'e' as u8]) {
        Some(Token::While)
    } else {
        None
    }
}

/// Skipping white space and comments stays within the input and never goes back.
pub proof fn lemma_skip(s: Seq<u8>, p: int)
    requires
        0 <= p <= s.len(),
    ensures
        skip(s, p) matches Ok(q) ==> p <= q <= s.len(),
    decreases s.len() - p, 0int,
{
    if p < s.len() && is_space(s[p]) {
        lemma_skip(s, p + 1);
    } else if p + 1 < s.len() && s[p] == '-' as u8 && s[p + 1] == '-' as u8 && byte_at(s, p + 2) != '[' as u8 {
        lemma_skip_line(s, p + 2);
    }
}

/// Skipping the rest of a line comment stays within the input and never goes back.
pub proof fn lemma_skip_line(s: Seq<u8>, p: int)
    requires
        0 <= p <= s.len(),
    ensures
        skip_line(s, p) matches Ok(q) ==> p <= q <= s.len(),
    decreases s.len() - p, 1int,
{
    if p < s.len() && s[p] != '\n' as u8 && s[p] != 0 {
        lemma_skip_line(s, p + 1);
    } else {
        lemma_skip(s, p);
    }
}

/// A run of name bytes ends at or after its start, within the input.
pub proof fn lemma_name_end(s: Seq<u8>, p: int)
    requires
        0 <= p <= s.len(),
    ensures
        p <= name_end(s, p) <= s.len(),
    decreases s.len() - p,
{
    if p < s.len() && is_name_char(s[p]) {
        lemma_name_end(s, p + 1);
    }
}

/// The body of a string literal ends at or after its start, within the input.
pub proof fn lemma_string_end(s: Seq<u8>, p: int, q: u8)
    requires
        0 <= p <= s.len(),
    ensures
        p <= string_end(s, p, q) <= s.len(),
    decreases s.len() - p,
{
    if p < s.len() && s[p] != q && s[p] != '\n' as u8 && s[p] != '\\' as u8 && s[p] != 0 {
        lemma_string_end(s, p + 1, q);
    }
}

/// Scanning a token stays within the input and never goes back; every token
/// but the end of input moves forward.
pub proof fn lemma_scan(s: Seq<u8>, p: int)
    requires
        0 <= p <= s.len(),
    ensures
        scan(s, p) matches Ok((t, e)) ==> p <= e <= s.len() && (t != TokenView::Other(Token::Eos)
            ==> p < e),
{
    lemma_skip(s, p);
    if let Ok(q) = skip(s, p) {
        let c = byte_at(s, q);
        if c != 0 {
            lemma_name_end(s, q);
            lemma_name_end(s, q + 1);
            lemma_digits_end(s, q + 1);
            lemma_digits_end(s, q);
            lemma_string_end(s, q + 1, c);
            let e = digits_end(s, q);
            if e < s.len() {
                lemma_digits_end(s, e + 1);
            }
        }
    }
}

} // verus!
