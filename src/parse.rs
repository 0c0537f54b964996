use crate::byte_code::ByteCode;
use crate::error::LuaError;
use crate::lex::{lemma_scan, scan, Lex, Token, TokenView};
use crate::value::{bytes_eq, Value, ValueView};
use vstd::prelude::*;

verus! {

/// The state of a compilation: the constant pool, the instructions emitted
/// so far, and the names of the locals declared so far (local `i` lives in
/// register `i`).
#[verifier::ext_equal]
pub struct Compiled {
    pub consts: Seq<ValueView>,
    pub codes: Seq<ByteCode>,
    pub locals: Seq<Seq<u8>>,
}

/// Nothing compiled yet.
pub open spec fn empty() -> Compiled {
    Compiled { consts: seq![], codes: seq![], locals: seq![] }
}

/// What each value of a sequence means.
pub open spec fn views(v: Seq<Value>) -> Seq<ValueView> {
    v.map_values(|x: Value| x@)
}

/// The first index at or after `i` where `cs` holds `v`, or `cs.len()`.
pub open spec fn find_const(cs: Seq<ValueView>, v: ValueView, i: int) -> int
    decreases cs.len() - i,
{
    if i < 0 || i >= cs.len() {
        cs.len() as int
    } else if cs[i] == v {
        i
    } else {
        find_const(cs, v, i + 1)
    }
}

/// The pool with `v` in it, and the index of `v`: an equal entry is reused,
/// else `v` is appended, unless the pool is full.
pub open spec fn add_const(cs: Seq<ValueView>, v: ValueView) -> Result<(Seq<ValueView>, int), LuaError> {
    let i = find_const(cs, v, 0);
    if i < cs.len() {
        Ok((cs, i))
    } else if cs.len() < 256 {
        Ok((cs.push(v), cs.len() as int))
    } else {
        Err(LuaError::TooManyConstants)
    }
}

/// The last index below `k` where `ls` holds `n`.
pub open spec fn find_local(ls: Seq<Seq<u8>>, n: Seq<u8>, k: int) -> Option<int>
    decreases k,
{
    if k <= 0 {
        None
    } else if ls[k - 1] == n {
        Some(k - 1)
    } else {
        find_local(ls, n, k - 1)
    }
}

/// The register of the local named `n`: the last one declared wins.
pub open spec fn get_local(ls: Seq<Seq<u8>>, n: Seq<u8>) -> Option<int> {
    find_local(ls, n, ls.len() as int)
}

/// `c` with `code` appended.
pub open spec fn emit(c: Compiled, code: ByteCode) -> Compiled {
    Compiled { codes: c.codes.push(code), ..c }
}

/// `c` with the constant pool `cs`.
pub open spec fn with_consts(c: Compiled, cs: Seq<ValueView>) -> Compiled {
    Compiled { consts: cs, ..c }
}

/// The value of a literal token; `None` for any other token.
pub open spec fn literal_value(t: TokenView) -> Option<ValueView> {
    match t {
        TokenView::Str(b) => Some(ValueView::Str(b)),
        TokenView::Other(Token::Nil) => Some(ValueView::Nil),
        TokenView::Other(Token::True) => Some(ValueView::Boolean(true)),
        TokenView::Other(Token::False) => Some(ValueView::Boolean(false)),
        TokenView::Other(Token::Integer(i)) => Some(ValueView::Integer(i as int)),
        TokenView::Other(Token::Float(d)) => Some(ValueView::Float(d)),
        _ => None,
    }
}

/// Whether `i` fits the immediate operand of `LoadInt`.
pub open spec fn fits_i16(i: int) -> bool {
    i16::MIN <= i <= i16::MAX
}

/// Loads constant `v` into register `dst`.
pub open spec fn load_const(c: Compiled, dst: int, v: ValueView) -> Result<(Compiled, ByteCode), LuaError> {
    match add_const(c.consts, v) {
        Ok((cs, k)) => Ok((with_consts(c, cs), ByteCode::LoadConst(dst as u8, k as u8))),
        Err(e) => Err(e),
    }
}

/// Loads the variable `n` into register `dst`: a move from its register if
/// it is a local, else a read of the global of that name.
pub open spec fn load_var(c: Compiled, dst: int, n: Seq<u8>) -> Result<(Compiled, ByteCode), LuaError> {
    match get_local(c.locals, n) {
        Some(i) => Ok((c, ByteCode::Move(dst as u8, i as u8))),
        None => match add_const(c.consts, ValueView::Str(n)) {
            Ok((cs, k)) => Ok((with_consts(c, cs), ByteCode::GetGlobal(dst as u8, k as u8))),
            Err(e) => Err(e),
        },
    }
}

/// The instruction that loads the expression `t` into register `dst`.
pub open spec fn exp_code(c: Compiled, dst: int, t: TokenView) -> Result<(Compiled, ByteCode), LuaError> {
    match t {
        TokenView::Other(Token::Nil) => Ok((c, ByteCode::LoadNil(dst as u8))),
        TokenView::Other(Token::True) => Ok((c, ByteCode::LoadBool(dst as u8, true))),
        TokenView::Other(Token::False) => Ok((c, ByteCode::LoadBool(dst as u8, false))),
        TokenView::Other(Token::Integer(i)) => if fits_i16(i as int) {
            Ok((c, ByteCode::LoadInt(dst as u8, i as i16)))
        } else {
            load_const(c, dst, ValueView::Integer(i as int))
        },
        TokenView::Other(Token::Float(d)) => load_const(c, dst, ValueView::Float(d)),
        TokenView::Str(b) => load_const(c, dst, ValueView::Str(b)),
        TokenView::Name(n) => load_var(c, dst, n),
        _ => Err(LuaError::InvalidExpression),
    }
}

/// Compiles the expression at `p` into register `dst`.
pub open spec fn load_exp(s: Seq<u8>, p: int, c: Compiled, dst: int) -> Result<(Compiled, int), LuaError> {
    match scan(s, p) {
        Ok((t, e)) => match exp_code(c, dst, t) {
            Ok((c2, code)) => Ok((emit(c2, code), e)),
            Err(x) => Err(x),
        },
        Err(x) => Err(x),
    }
}

/// Compiles `local <name> = <exp>`, from after `local`.
pub open spec fn local(s: Seq<u8>, p: int, c: Compiled) -> Result<(Compiled, int), LuaError> {
    match scan(s, p) {
        Ok((TokenView::Name(var), e1)) => match scan(s, e1) {
            Ok((TokenView::Other(Token::Assign), e2)) => if c.locals.len() > 255 {
                Err(LuaError::TooManyRegisters)
            } else {
                match load_exp(s, e2, c, c.locals.len() as int) {
                    Ok((c2, e3)) => Ok((Compiled { locals: c2.locals.push(var), ..c2 }, e3)),
                    Err(x) => Err(x),
                }
            },
            Ok(_) => Err(LuaError::ExpectedAssign),
            Err(x) => Err(x),
        },
        Ok(_) => Err(LuaError::ExpectedName),
        Err(x) => Err(x),
    }
}

/// Compiles the call of the variable `name` with one argument, from after
/// the name: the function goes to the first free register, the argument to
/// the next.
pub open spec fn function_call(s: Seq<u8>, p: int, c: Compiled, name: Seq<u8>) -> Result<
    (Compiled, int),
    LuaError,
> {
    let f = c.locals.len() as int;
    if f + 1 > 255 {
        Err(LuaError::TooManyRegisters)
    } else {
        match load_var(c, f, name) {
            Ok((c1, code)) => {
                let c1 = emit(c1, code);
                match scan(s, p) {
                    Ok((TokenView::Other(Token::ParL), e1)) => match load_exp(s, e1, c1, f + 1) {
                        Ok((c2, e2)) => match scan(s, e2) {
                            Ok((TokenView::Other(Token::ParR), e3)) => Ok(
                                (emit(c2, ByteCode::Call(f as u8, 1)), e3),
                            ),
                            Ok(_) => Err(LuaError::ExpectedParR),
                            Err(x) => Err(x),
                        },
                        Err(x) => Err(x),
                    },
                    Ok((TokenView::Str(b), e1)) => match load_const(c1, f + 1, ValueView::Str(b)) {
                        Ok((c2, code2)) => Ok((emit(emit(c2, code2), ByteCode::Call(f as u8, 1)), e1)),
                        Err(x) => Err(x),
                    },
                    Ok(_) => Err(LuaError::ExpectedArgument),
                    Err(x) => Err(x),
                }
            },
            Err(x) => Err(x),
        }
    }
}

/// The instruction that sets the global named by constant `dst` from the
/// right-hand side `t`: a literal, a local, or another global.
pub open spec fn set_global_code(c: Compiled, dst: int, t: TokenView) -> Result<(Compiled, ByteCode), LuaError> {
    match literal_value(t) {
        Some(v) => match add_const(c.consts, v) {
            Ok((cs, k)) => Ok((with_consts(c, cs), ByteCode::SetGlobalConst(dst as u8, k as u8))),
            Err(x) => Err(x),
        },
        None => match t {
            TokenView::Name(n) => match get_local(c.locals, n) {
                Some(i) => Ok((c, ByteCode::SetGlobal(dst as u8, i as u8))),
                None => match add_const(c.consts, ValueView::Str(n)) {
                    Ok((cs, k)) => Ok(
                        (with_consts(c, cs), ByteCode::SetGlobalGlobal(dst as u8, k as u8)),
                    ),
                    Err(x) => Err(x),
                },
            },
            _ => Err(LuaError::InvalidExpression),
        },
    }
}

/// Compiles `<name> = <exp>`, from the `=`: into the local's register if
/// `name` is a local, else into the global of that name.
pub open spec fn assignment(s: Seq<u8>, p: int, c: Compiled, name: Seq<u8>) -> Result<
    (Compiled, int),
    LuaError,
> {
    match scan(s, p) {
        Ok((_, e)) => match get_local(c.locals, name) {
            Some(i) => load_exp(s, e, c, i),
            None => match add_const(c.consts, ValueView::Str(name)) {
                Ok((cs, dst)) => match scan(s, e) {
                    Ok((t, e2)) => match set_global_code(with_consts(c, cs), dst, t) {
                        Ok((c2, code)) => Ok((emit(c2, code), e2)),
                        Err(x) => Err(x),
                    },
                    Err(x) => Err(x),
                },
                Err(x) => Err(x),
            },
        },
        Err(x) => Err(x),
    }
}

/// `Some` of a statement's result.
pub open spec fn some_of(r: Result<(Compiled, int), LuaError>) -> Result<Option<(Compiled, int)>, LuaError> {
    match r {
        Ok(x) => Ok(Some(x)),
        Err(e) => Err(e),
    }
}

/// Compiles the statement at `p`; `None` at the end of input.
#[verifier::opaque]
pub open spec fn statement(s: Seq<u8>, p: int, c: Compiled) -> Result<Option<(Compiled, int)>, LuaError> {
    match scan(s, p) {
        Ok((TokenView::Name(n), e)) => match scan(s, e) {
            Ok((TokenView::Other(Token::Assign), _)) => some_of(assignment(s, e, c, n)),
            Ok(_) => some_of(function_call(s, e, c, n)),
            Err(x) => Err(x),
        },
        Ok((TokenView::Other(Token::Local), e)) => some_of(local(s, e, c)),
        Ok((TokenView::Other(Token::Eos), _)) => Ok(None),
        Ok(_) => Err(LuaError::UnexpectedToken),
        Err(x) => Err(x),
    }
}

/// Compiles the statements from `p` to the end of input.
pub open spec fn chunk(s: Seq<u8>, p: int, c: Compiled) -> Result<Compiled, LuaError>
    decreases s.len() - p,
    when 0 <= p <= s.len()
{
    match statement(s, p, c) {
        Ok(None) => Ok(c),
        Ok(Some((c2, e))) => {
            proof {
                lemma_statement(s, p, c);
            }
            chunk(s, e, c2)
        },
        Err(x) => Err(x),
    }
}

/// Compiling an expression stays within the input and never goes back.
pub proof fn lemma_load_exp(s: Seq<u8>, p: int, c: Compiled, dst: int)
    requires
        0 <= p <= s.len(),
    ensures
        load_exp(s, p, c, dst) matches Ok((_, e)) ==> p <= e <= s.len(),
{
    lemma_scan(s, p);
}

/// Compiling a `local` declaration stays within the input and never goes back.
pub proof fn lemma_local(s: Seq<u8>, p: int, c: Compiled)
    requires
        0 <= p <= s.len(),
    ensures
        local(s, p, c) matches Ok((_, e)) ==> p <= e <= s.len(),
{
    lemma_scan(s, p);
    if let Ok((_, e1)) = scan(s, p) {
        lemma_scan(s, e1);
        if let Ok((_, e2)) = scan(s, e1) {
            lemma_load_exp(s, e2, c, c.locals.len() as int);
        }
    }
}

/// Compiling a call stays within the input and never goes back.
pub proof fn lemma_function_call(s: Seq<u8>, p: int, c: Compiled, name: Seq<u8>)
    requires
        0 <= p <= s.len(),
    ensures
        function_call(s, p, c, name) matches Ok((_, e)) ==> p <= e <= s.len(),
{
    let f = c.locals.len() as int;
    lemma_scan(s, p);
    if let Ok((c1, code)) = load_var(c, f, name) {
        if let Ok((_, e1)) = scan(s, p) {
            lemma_load_exp(s, e1, emit(c1, code), f + 1);
            if let Ok((_, e2)) = load_exp(s, e1, emit(c1, code), f + 1) {
                lemma_scan(s, e2);
            }
        }
    }
}

/// Compiling an assignment stays within the input and never goes back.
pub proof fn lemma_assignment(s: Seq<u8>, p: int, c: Compiled, name: Seq<u8>)
    requires
        0 <= p <= s.len(),
    ensures
        assignment(s, p, c, name) matches Ok((_, e)) ==> p <= e <= s.len(),
{
    lemma_scan(s, p);
    if let Ok((_, e)) = scan(s, p) {
        lemma_load_exp(s, e, c, 0);
        lemma_scan(s, e);
        if let Some(i) = get_local(c.locals, name) {
            lemma_load_exp(s, e, c, i);
        }
    }
}

/// Every statement moves forward through the input, and stays within it.
pub proof fn lemma_statement(s: Seq<u8>, p: int, c: Compiled)
    requires
        0 <= p <= s.len(),
    ensures
        statement(s, p, c) matches Ok(Some((_, e))) ==> p < e <= s.len(),
{
    reveal(statement);
    lemma_scan(s, p);
    if let Ok((t, e)) = scan(s, p) {
        lemma_scan(s, e);
        lemma_local(s, e, c);
        if let TokenView::Name(n) = t {
            lemma_assignment(s, e, c, n);
            lemma_function_call(s, e, c, n);
        }
    }
}

/// The program compiled from source `s`.
pub open spec fn compile(s: Seq<u8>) -> Result<Compiled, LuaError> {
    chunk(s, 0, empty())
}

/// A compiled program: its constant pool and its instructions.
pub struct ParseProto {
    pub constants: Vec<Value>,
    pub byte_codes: Vec<ByteCode>,
}

impl ParseProto {
    /// Compiles the source `input`.
    pub fn load(input: Vec<u8>) -> (r: Result<ParseProto, LuaError>)
        ensures
            match (compile(input@), r) {
                (Ok(c), Ok(p)) => views(p.constants@) == c.consts && p.byte_codes@ == c.codes,
                (Err(e1), Err(e2)) => e1 == e2,
                _ => false,
            },
    {
        let mut parser = Parser {
            proto: ParseProto { constants: Vec::new(), byte_codes: Vec::new() },
            locals: Vec::new(),
            lex: Lex::new(input),
        };
        proof {
            assert(parser.state() =~= empty());
        }
        parser.chunk()?;
        Ok(parser.proto)
    }
}

/// A compilation in progress: the program so far, the locals declared so
/// far, and the lexer over the source.
struct Parser {
    proto: ParseProto,
    locals: Vec<Vec<u8>>,
    lex: Lex,
}

impl Parser {
    /// The compiler's invariant: at most 256 locals and 256 constants.
    spec fn wf(&self) -> bool {
        &&& self.lex.wf()
        &&& self.locals@.len() <= 256
        &&& self.proto.constants@.len() <= 256
    }

    /// The state of the compilation.
    spec fn state(&self) -> Compiled {
        Compiled {
            consts: views(self.proto.constants@),
            codes: self.proto.byte_codes@,
            locals: self.locals@.map_values(|v: Vec<u8>| v@),
        }
    }

    spec fn source(&self) -> Seq<u8> {
        self.lex.source()
    }

    spec fn cursor(&self) -> int {
        self.lex.cursor()
    }

    /// Compiles statements until the end of input.
    fn chunk(&mut self) -> (r: Result<(), LuaError>)
        requires
            old(self).wf(),
        ensures
            match (chunk(old(self).source(), old(self).cursor(), old(self).state()), r) {
                (Ok(c), Ok(_)) => final(self).state() == c,
                (Err(e1), Err(e2)) => e1 == e2,
                _ => false,
            },
    {
        let ghost s = self.source();
        let ghost p0 = self.cursor();
        let ghost c0 = self.state();
        proof {
            self.lex.lemma_cursor();
        }
        loop
            invariant
                self.wf(),
                self.source() == s,
                chunk(s, p0, c0) == chunk(s, self.cursor(), self.state()),
                s == old(self).source(),
                p0 == old(self).cursor(),
                c0 == old(self).state(),
                0 <= self.cursor() <= s.len(),
            decreases s.len() - self.cursor(),
        {
            let ghost p = self.cursor();
            let ghost c = self.state();
            match self.statement()? {
                false => return Ok(()),
                true => {},
            }
            proof {
                self.lex.lemma_cursor();
            }
        }
    }

    /// Compiles one statement; `false` at the end of input.
    fn statement(&mut self) -> (r: Result<bool, LuaError>)
        requires
            old(self).wf(),
        ensures
            final(self).wf(),
            final(self).source() == old(self).source(),
            match (statement(old(self).source(), old(self).cursor(), old(self).state()), r) {
                (Ok(None), Ok(more)) => !more && final(self).state() == old(self).state(),
                (Ok(Some((c, e))), Ok(more)) => {
                    &&& more
                    &&& final(self).state() == c
                    &&& final(self).cursor() == e
                    &&& old(self).cursor() < e
                },
                (Err(e1), Err(e2)) => e1 == e2,
                _ => false,
            },
    {
        proof {
            reveal(statement);
        }
        match self.lex.next()? {
            Token::Name(name) => {
                let assign = match self.lex.peek()? {
                    Token::Assign => true,
                    _ => false,
                };
                if assign {
                    self.assignment(name)?;
                } else {
                    self.function_call(name)?;
                }
                Ok(true)
            },
            Token::Local => {
                self.local()?;
                Ok(true)
            },
            Token::Eos => Ok(false),
            _ => Err(LuaError::UnexpectedToken),
        }
    }

    /// Compiles `local <name> = <exp>`, from after `local`.
    fn local(&mut self) -> (r: Result<(), LuaError>)
        requires
            old(self).wf(),
        ensures
            final(self).wf(),
            final(self).source() == old(self).source(),
            match (local(old(self).source(), old(self).cursor(), old(self).state()), r) {
                (Ok((c, e)), Ok(_)) => final(self).state() == c && final(self).cursor() == e
                    && old(self).cursor() <= e,
                (Err(e1), Err(e2)) => e1 == e2,
                _ => false,
            },
    {
        let var = match self.lex.next()? {
            Token::Name(var) => var,
            _ => return Err(LuaError::ExpectedName),
        };
        match self.lex.next()? {
            Token::Assign => {},
            _ => return Err(LuaError::ExpectedAssign),
        }
        if self.locals.len() > 255 {
            return Err(LuaError::TooManyRegisters);
        }
        let dst = self.locals.len();
        self.load_exp(dst)?;
        self.locals.push(var);
        proof {
            assert(self.state().locals =~= old(self).state().locals.push(var@));
        }
        Ok(())
    }

    /// Compiles the call of the variable `name` with one argument, from after the name.
    fn function_call(&mut self, name: Vec<u8>) -> (r: Result<(), LuaError>)
        requires
            old(self).wf(),
        ensures
            final(self).wf(),
            final(self).source() == old(self).source(),
            match (function_call(old(self).source(), old(self).cursor(), old(self).state(), name@), r) {
                (Ok((c, e)), Ok(_)) => final(self).state() == c && final(self).cursor() == e
                    && old(self).cursor() <= e,
                (Err(e1), Err(e2)) => e1 == e2,
                _ => false,
            },
    {
        if self.locals.len() + 1 > 255 {
            return Err(LuaError::TooManyRegisters);
        }
        let ifunc = self.locals.len();
        let iarg = ifunc + 1;
        let code = self.load_var(ifunc, name)?;
        self.proto.byte_codes.push(code);
        match self.lex.next()? {
            Token::ParL => {
                self.load_exp(iarg)?;
                match self.lex.next()? {
                    Token::ParR => {},
                    _ => return Err(LuaError::ExpectedParR),
                }
            },
            Token::Strng(s) => {
                let code = self.load_const(iarg, Value::from_bytes(s))?;
                self.proto.byte_codes.push(code);
            },
            _ => return Err(LuaError::ExpectedArgument),
        }
        self.proto.byte_codes.push(ByteCode::Call(ifunc as u8, 1));
        Ok(())
    }

    /// Compiles the expression that comes next into register `dst`.
    fn load_exp(&mut self, dst: usize) -> (r: Result<(), LuaError>)
        requires
            old(self).wf(),
            dst <= 255,
        ensures
            final(self).wf(),
            final(self).source() == old(self).source(),
            final(self).locals == old(self).locals,
            match (load_exp(old(self).source(), old(self).cursor(), old(self).state(), dst as int), r) {
                (Ok((c, e)), Ok(_)) => final(self).state() == c && final(self).cursor() == e
                    && old(self).cursor() <= e,
                (Err(e1), Err(e2)) => e1 == e2,
                _ => false,
            },
    {
        let code = match self.lex.next()? {
            Token::Nil => ByteCode::LoadNil(dst as u8),
            Token::Strng(s) => self.load_const(dst, Value::from_bytes(s))?,
            Token::Name(var) => self.load_var(dst, var)?,
            Token::Integer(i) => {
                if -32768 <= i && i <= 32767 {
                    ByteCode::LoadInt(dst as u8, i as i16)
                } else {
                    self.load_const(dst, Value::Integer(i))?
                }
            },
            Token::True => ByteCode::LoadBool(dst as u8, true),
            Token::False => ByteCode::LoadBool(dst as u8, false),
            Token::Float(f) => self.load_const(dst, Value::Float(f))?,
            _ => return Err(LuaError::InvalidExpression),
        };
        self.proto.byte_codes.push(code);
        Ok(())
    }

    /// The instruction that loads the variable `name` into register `dst`.
    fn load_var(&mut self, dst: usize, name: Vec<u8>) -> (r: Result<ByteCode, LuaError>)
        requires
            old(self).wf(),
            dst <= 255,
        ensures
            final(self).wf(),
            final(self).lex == old(self).lex,
            final(self).locals == old(self).locals,
            final(self).proto.byte_codes == old(self).proto.byte_codes,
            match (load_var(old(self).state(), dst as int, name@), r) {
                (Ok((c, code)), Ok(code2)) => final(self).state() == c && code == code2,
                (Err(e1), Err(e2)) => e1 == e2,
                _ => false,
            },
    {
        match self.get_local(name.as_slice()) {
            Some(i) => Ok(ByteCode::Move(dst as u8, i as u8)),
            None => {
                let ic = self.add_const(Value::from_bytes(name))?;
                Ok(ByteCode::GetGlobal(dst as u8, ic))
            },
        }
    }

    /// The instruction that loads constant `v` into register `dst`.
    fn load_const(&mut self, dst: usize, v: Value) -> (r: Result<ByteCode, LuaError>)
        requires
            old(self).wf(),
            dst <= 255,
        ensures
            final(self).wf(),
            final(self).lex == old(self).lex,
            final(self).locals == old(self).locals,
            final(self).proto.byte_codes == old(self).proto.byte_codes,
            match (load_const(old(self).state(), dst as int, v@), r) {
                (Ok((c, code)), Ok(code2)) => final(self).state() == c && code == code2,
                (Err(e1), Err(e2)) => e1 == e2,
                _ => false,
            },
    {
        let k = self.add_const(v)?;
        Ok(ByteCode::LoadConst(dst as u8, k))
    }

    /// The index of constant `v` in the pool, added if no equal entry is there.
    fn add_const(&mut self, v: Value) -> (r: Result<u8, LuaError>)
        requires
            old(self).wf(),
        ensures
            final(self).wf(),
            final(self).lex == old(self).lex,
            final(self).locals == old(self).locals,
            final(self).proto.byte_codes == old(self).proto.byte_codes,
            match (add_const(views(old(self).proto.constants@), v@), r) {
                (Ok((cs, k)), Ok(k2)) => views(final(self).proto.constants@) == cs && k == k2,
                (Err(e1), Err(e2)) => e1 == e2,
                _ => false,
            },
    {
        let ghost cs = views(self.proto.constants@);
        let mut i: usize = 0;
        while i < self.proto.constants.len()
            invariant
                i <= self.proto.constants@.len() <= 256,
                *self == *old(self),
                self.wf(),
                cs == views(self.proto.constants@),
                find_const(cs, v@, 0) == find_const(cs, v@, i as int),
            decreases self.proto.constants@.len() - i,
        {
            if self.proto.constants[i] == v {
                return Ok(i as u8);
            }
            i += 1;
        }
        if self.proto.constants.len() >= 256 {
            return Err(LuaError::TooManyConstants);
        }
        self.proto.constants.push(v);
        proof {
            assert(views(self.proto.constants@) =~= cs.push(v@));
        }
        Ok((self.proto.constants.len() - 1) as u8)
    }

    /// Compiles `<name> = <exp>`, from the `=`.
    fn assignment(&mut self, name: Vec<u8>) -> (r: Result<(), LuaError>)
        requires
            old(self).wf(),
        ensures
            final(self).wf(),
            final(self).source() == old(self).source(),
            match (assignment(old(self).source(), old(self).cursor(), old(self).state(), name@), r) {
                (Ok((c, e)), Ok(_)) => final(self).state() == c && final(self).cursor() == e
                    && old(self).cursor() <= e,
                (Err(e1), Err(e2)) => e1 == e2,
                _ => false,
            },
    {
        self.lex.next()?;
        match self.get_local(name.as_slice()) {
            Some(i) => self.load_exp(i),
            None => {
                let dst = self.add_const(Value::from_bytes(name))?;
                let code = match self.lex.next()? {
                    Token::Nil => ByteCode::SetGlobalConst(dst, self.add_const(Value::Nil)?),
                    Token::True => ByteCode::SetGlobalConst(dst, self.add_const(Value::Boolean(true))?),
                    Token::False => ByteCode::SetGlobalConst(
                        dst,
                        self.add_const(Value::Boolean(false))?,
                    ),
                    Token::Integer(i) => ByteCode::SetGlobalConst(dst, self.add_const(Value::Integer(i))?),
                    Token::Float(f) => ByteCode::SetGlobalConst(dst, self.add_const(Value::Float(f))?),
                    Token::Strng(s) => ByteCode::SetGlobalConst(
                        dst,
                        self.add_const(Value::from_bytes(s))?,
                    ),
                    Token::Name(n) => match self.get_local(n.as_slice()) {
                        Some(i) => ByteCode::SetGlobal(dst, i as u8),
                        None => ByteCode::SetGlobalGlobal(dst, self.add_const(Value::from_bytes(n))?),
                    },
                    _ => return Err(LuaError::InvalidExpression),
                };
                self.proto.byte_codes.push(code);
                Ok(())
            },
        }
    }

    /// The register of the local named `name`: the last one declared wins.
    fn get_local(&self, name: &[u8]) -> (r: Option<usize>)
        requires
            self.wf(),
        ensures
            match get_local(self.state().locals, name@) {
                Some(i) => r == Some(i as usize) && 0 <= i <= 255,
                None => r is None,
            },
    {
        let ghost ls = self.state().locals;
        let mut k: usize = self.locals.len();
        while k > 0
            invariant
                k <= self.locals@.len() <= 256,
                ls == self.state().locals,
                self.wf(),
                get_local(ls, name@) == find_local(ls, name@, k as int),
            decreases k,
        {
            if bytes_eq(self.locals[k - 1].as_slice(), name) {
                return Some(k - 1);
            }
            k -= 1;
        }
        None
    }
}

} // verus!

verus! {

/// No value occurs twice in the pool.
pub open spec fn distinct(cs: Seq<ValueView>) -> bool {
    forall|i: int, j: int| 0 <= i < j < cs.len() ==> cs[i] != cs[j]
}

/// `find_const` from `i` lands on the first entry equal to `v` at or after
/// `i`, or past the end when there is none.
pub proof fn lemma_find_const(cs: Seq<ValueView>, v: ValueView, i: int)
    requires
        0 <= i <= cs.len(),
    ensures
        i <= find_const(cs, v, i) <= cs.len(),
        find_const(cs, v, i) < cs.len() ==> cs[find_const(cs, v, i)] == v,
        forall|j: int| i <= j < find_const(cs, v, i) ==> cs[j] != v,
    decreases cs.len() - i,
{
    if i < cs.len() && cs[i] != v {
        lemma_find_const(cs, v, i + 1);
    }
}

/// Adding a constant keeps the pool free of duplicates, and the index handed
/// back holds that constant.
pub proof fn law_add_const_distinct(cs: Seq<ValueView>, v: ValueView)
    requires
        distinct(cs),
        cs.len() <= 256,
    ensures
        add_const(cs, v) matches Ok((cs2, k)) ==> distinct(cs2) && 0 <= k < cs2.len() && cs2[k]
            == v && cs2.len() <= 256,
        add_const(cs, v) is Err <==> (cs.len() >= 256 && !cs.contains(v)),
{
    lemma_find_const(cs, v, 0);
    if find_const(cs, v, 0) == cs.len() {
        assert forall|j: int| 0 <= j < cs.len() implies cs[j] != v by {}
        if cs.len() < 256 {
            let cs2 = cs.push(v);
            assert forall|i: int, j: int| 0 <= i < j < cs2.len() implies cs2[i] != cs2[j] by {
                if j == cs.len() {
                    assert(cs2[i] == cs[i]);
                }
            }
        }
    } else {
        assert(cs.contains(v));
    }
}

/// Adding the same constant a second time hands back the same index and
/// leaves the pool as it was: an equal literal never takes a second entry.
pub proof fn law_add_const_idempotent(cs: Seq<ValueView>, v: ValueView)
    requires
        add_const(cs, v) is Ok,
    ensures
        add_const(cs, v) matches Ok((cs2, k)) && add_const(cs2, v) == Ok::<
            (Seq<ValueView>, int),
            LuaError,
        >((cs2, k)),
{
    lemma_find_const(cs, v, 0);
    let (cs2, k) = add_const(cs, v)->Ok_0;
    lemma_find_const(cs2, v, 0);
    if find_const(cs, v, 0) == cs.len() {
        assert(cs2 == cs.push(v));
        assert forall|j: int| 0 <= j < find_const(cs2, v, 0) implies cs2[j] != v by {}
        if find_const(cs2, v, 0) < cs.len() {
            assert(cs2[find_const(cs2, v, 0)] == cs[find_const(cs2, v, 0)]);
        }
        assert(cs2[cs.len() as int] == v);
    }
}

/// A name resolves to the most recent local declared with it; declaring a
/// local leaves every other name resolving as before.
pub proof fn law_shadowing(ls: Seq<Seq<u8>>, n: Seq<u8>, m: Seq<u8>)
    ensures
        get_local(ls.push(n), n) == Some(ls.len() as int),
        m != n ==> get_local(ls.push(n), m) == get_local(ls, m),
{
    let ls2 = ls.push(n);
    assert(ls2[ls.len() as int] == n);
    if m != n {
        lemma_find_local_push(ls, n, m, ls.len() as int);
    }
}

/// Looking up `m` below `k` is the same in `ls` and in `ls.push(n)`.
proof fn lemma_find_local_push(ls: Seq<Seq<u8>>, n: Seq<u8>, m: Seq<u8>, k: int)
    requires
        0 <= k <= ls.len(),
    ensures
        find_local(ls.push(n), m, k) == find_local(ls, m, k),
    decreases k,
{
    if k > 0 {
        assert(ls.push(n)[k - 1] == ls[k - 1]);
        lemma_find_local_push(ls, n, m, k - 1);
    }
}

} // verus!
