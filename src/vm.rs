use crate::byte_code::ByteCode;
use crate::error::LuaError;
use crate::lex::{Token, TokenView};
use crate::parse::{
    add_const, distinct, exp_code, fits_i16, law_add_const_distinct, literal_value, views,
    Compiled, ParseProto,
};
use crate::value::{bytes_eq, display, Native, Value, ValueView};
use vstd::prelude::*;

verus! {

/// What the machine's state means: the globals by name, the registers, the
/// register of the call in flight, and everything printed so far.
#[verifier::ext_equal]
pub struct VmView {
    pub globals: Map<Seq<u8>, ValueView>,
    pub stack: Seq<ValueView>,
    pub func_index: int,
    pub output: Seq<u8>,
}

/// The value of the last entry of `g` named `k`.
pub open spec fn lookup(g: Seq<(Seq<u8>, ValueView)>, k: Seq<u8>) -> Option<ValueView>
    decreases g.len(),
{
    if g.len() == 0 {
        None
    } else if g.last().0 == k {
        Some(g.last().1)
    } else {
        lookup(g.drop_last(), k)
    }
}

/// The globals held by a list of named entries, where a later entry wins.
pub open spec fn table(g: Seq<(Seq<u8>, ValueView)>) -> Map<Seq<u8>, ValueView> {
    Map::new(|k: Seq<u8>| lookup(g, k) is Some, |k: Seq<u8>| lookup(g, k)->Some_0)
}

/// The value of global `k`: nil where none is set.
pub open spec fn global(st: VmView, k: Seq<u8>) -> ValueView {
    if st.globals.contains_key(k) {
        st.globals[k]
    } else {
        ValueView::Nil
    }
}

/// Writes `v` to register `dst`: an overwrite within the stack, a push just
/// past its end; beyond that the stack would get a gap, which is refused.
pub open spec fn set_stack(st: VmView, dst: int, v: ValueView) -> Result<VmView, LuaError> {
    if 0 <= dst < st.stack.len() {
        Ok(VmView { stack: st.stack.update(dst, v), ..st })
    } else if dst == st.stack.len() {
        Ok(VmView { stack: st.stack.push(v), ..st })
    } else {
        Err(LuaError::StackOverflow)
    }
}

/// Constant `i` of the pool.
pub open spec fn const_at(consts: Seq<ValueView>, i: int) -> Result<ValueView, LuaError> {
    if 0 <= i < consts.len() {
        Ok(consts[i])
    } else {
        Err(LuaError::InvalidConstant)
    }
}

/// The name held by constant `i` of the pool.
pub open spec fn key_at(consts: Seq<ValueView>, i: int) -> Result<Seq<u8>, LuaError> {
    match const_at(consts, i) {
        Ok(ValueView::Str(k)) => Ok(k),
        Ok(_) => Err(LuaError::NotAString),
        Err(e) => Err(e),
    }
}

/// The value in register `i`.
pub open spec fn reg(st: VmView, i: int) -> Result<ValueView, LuaError> {
    if 0 <= i < st.stack.len() {
        Ok(st.stack[i])
    } else {
        Err(LuaError::InvalidRegister)
    }
}

/// `st` with global `k` set to `v`.
pub open spec fn set_global(st: VmView, k: Seq<u8>, v: ValueView) -> VmView {
    VmView { globals: st.globals.insert(k, v), ..st }
}

/// `print`, called from register `st.func_index`: writes the text of the
/// argument in the next register and a newline.
pub open spec fn call_print(st: VmView) -> Result<VmView, LuaError> {
    match reg(st, st.func_index + 1) {
        Ok(v) => Ok(VmView { output: st.output + display(v) + seq!['\n' as u8], ..st }),
        Err(e) => Err(e),
    }
}

/// The state after executing `code` in `st`, or the error that stops the run.
pub open spec fn step(st: VmView, consts: Seq<ValueView>, code: ByteCode) -> Result<VmView, LuaError> {
    match code {
        ByteCode::GetGlobal(dst, name) => match key_at(consts, name as int) {
            Ok(k) => set_stack(st, dst as int, global(st, k)),
            Err(e) => Err(e),
        },
        ByteCode::SetGlobal(name, src) => match key_at(consts, name as int) {
            Ok(k) => match reg(st, src as int) {
                Ok(v) => Ok(set_global(st, k, v)),
                Err(e) => Err(e),
            },
            Err(e) => Err(e),
        },
        ByteCode::SetGlobalConst(name, src) => match key_at(consts, name as int) {
            Ok(k) => match const_at(consts, src as int) {
                Ok(v) => Ok(set_global(st, k, v)),
                Err(e) => Err(e),
            },
            Err(e) => Err(e),
        },
        ByteCode::SetGlobalGlobal(name, src) => match key_at(consts, name as int) {
            Ok(k) => match key_at(consts, src as int) {
                Ok(k2) => Ok(set_global(st, k, global(st, k2))),
                Err(e) => Err(e),
            },
            Err(e) => Err(e),
        },
        ByteCode::LoadConst(dst, c) => match const_at(consts, c as int) {
            Ok(v) => set_stack(st, dst as int, v),
            Err(e) => Err(e),
        },
        ByteCode::LoadNil(dst) => set_stack(st, dst as int, ValueView::Nil),
        ByteCode::LoadBool(dst, b) => set_stack(st, dst as int, ValueView::Boolean(b)),
        ByteCode::LoadInt(dst, i) => set_stack(st, dst as int, ValueView::Integer(i as int)),
        ByteCode::Call(func, _) => match reg(st, func as int) {
            Ok(ValueView::Function(Native::Print)) => call_print(
                VmView { func_index: func as int, ..st },
            ),
            Ok(_) => Err(LuaError::InvalidFunction),
            Err(e) => Err(e),
        },
        ByteCode::Move(dst, src) => match reg(st, src as int) {
            Ok(v) => set_stack(st, dst as int, v),
            Err(e) => Err(e),
        },
    }
}

/// Runs `codes` in order from `st`: the final state, and the error that
/// stopped the run, if one did (the state is then the one before the
/// failing instruction).
pub open spec fn run(st: VmView, consts: Seq<ValueView>, codes: Seq<ByteCode>) -> (VmView, Option<LuaError>)
    decreases codes.len(),
{
    if codes.len() == 0 {
        (st, None)
    } else {
        match step(st, consts, codes[0]) {
            Ok(st2) => run(st2, consts, codes.drop_first()),
            Err(e) => (st, Some(e)),
        }
    }
}

/// The state in which a program starts: `print` is the only global.
pub open spec fn initial() -> VmView {
    VmView {
        globals: map![seq!['p' as u8, 'r' as u8, 'i' as u8, 'n' as u8, 't' as u8] => ValueView::Function(Native::Print)],
        stack: seq![],
        func_index: 0,
        output: seq![],
    }
}

/// The state of the virtual machine.
pub struct ExeState {
    globals: Vec<(Vec<u8>, Value)>,
    stack: Vec<Value>,
    func_index: usize,
    output: Vec<u8>,
}

/// The named entries of a globals list, as views.
pub open spec fn entries(g: Seq<(Vec<u8>, Value)>) -> Seq<(Seq<u8>, ValueView)> {
    g.map_values(|e: (Vec<u8>, Value)| (e.0@, e.1@))
}

impl View for ExeState {
    type V = VmView;

    closed spec fn view(&self) -> VmView {
        VmView {
            globals: table(entries(self.globals@)),
            stack: views(self.stack@),
            func_index: self.func_index as int,
            output: self.output@,
        }
    }
}

impl ExeState {
    /// A fresh machine, with `print` bound as the only global.
    pub fn new() -> (r: ExeState)
        ensures
            r@ == initial(),
    {
        let mut globals: Vec<(Vec<u8>, Value)> = Vec::new();
        globals.push((vec!['p' as u8, 'r' as u8, 'i' as u8, 'n' as u8, 't' as u8], Value::Function(Native::Print)));
        let r = ExeState { globals, stack: Vec::new(), func_index: 0, output: Vec::new() };
        proof {
            let g = entries(r.globals@);
            assert(g.len() == 1);
            assert(g.last().0 =~= seq!['p' as u8, 'r' as u8, 'i' as u8, 'n' as u8, 't' as u8]);
            assert(g.drop_last() =~= seq![]);
            let key = seq!['p' as u8, 'r' as u8, 'i' as u8, 'n' as u8, 't' as u8];
            assert forall|k: Seq<u8>| lookup(g, k) == if k == key {
                Some(ValueView::Function(Native::Print))
            } else {
                None::<ValueView>
            } by {
                assert(lookup(g.drop_last(), k) is None);
            }
            assert(table(g) =~= initial().globals);
            assert(views(r.stack@) =~= seq![]);
        }
        r
    }

    /// Executes the whole program, in order, until its end or its first error.
    pub fn execute(&mut self, proto: &ParseProto) -> (r: Result<(), LuaError>)
        ensures
            ({
                let (st, err) = run(old(self)@, views(proto.constants@), proto.byte_codes@);
                &&& final(self)@ == st
                &&& match err {
                    None => r is Ok,
                    Some(e) => r == Err::<(), LuaError>(e),
                }
            }),
    {
        let ghost consts = views(proto.constants@);
        let ghost codes = proto.byte_codes@;
        let mut i: usize = 0;
        proof {
            assert(codes.skip(0) =~= codes);
        }
        while i < proto.byte_codes.len()
            invariant
                i <= codes.len(),
                consts == views(proto.constants@),
                codes == proto.byte_codes@,
                run(old(self)@, consts, codes) == run(self@, consts, codes.skip(i as int)),
            decreases codes.len() - i,
        {
            proof {
                assert(codes.skip(i as int)[0] == codes[i as int]);
                assert(codes.skip(i as int).drop_first() =~= codes.skip(i as int + 1));
            }
            self.step(proto, proto.byte_codes[i])?;
            i += 1;
        }
        proof {
            assert(codes.skip(i as int) =~= seq![]);
        }
        Ok(())
    }

    /// Executes one instruction.
    fn step(&mut self, proto: &ParseProto, code: ByteCode) -> (r: Result<(), LuaError>)
        ensures
            match step(old(self)@, views(proto.constants@), code) {
                Ok(st) => r is Ok && final(self)@ == st,
                Err(e) => r == Err::<(), LuaError>(e) && final(self)@ == old(self)@,
            },
    {
        match code {
            ByteCode::GetGlobal(dst, name) => {
                let k = read_key(proto, name)?;
                let v = self.get_global(k.as_slice());
                self.set_stack(dst, v)
            },
            ByteCode::SetGlobal(name, src) => {
                let k = read_key(proto, name)?;
                let v = self.get_register(src)?;
                self.set_global(k, v);
                Ok(())
            },
            ByteCode::SetGlobalConst(name, src) => {
                let k = read_key(proto, name)?;
                let v = read_const(proto, src)?;
                self.set_global(k, v);
                Ok(())
            },
            ByteCode::SetGlobalGlobal(name, src) => {
                let k = read_key(proto, name)?;
                let k2 = read_key(proto, src)?;
                let v = self.get_global(k2.as_slice());
                self.set_global(k, v);
                Ok(())
            },
            ByteCode::LoadConst(dst, c) => {
                let v = read_const(proto, c)?;
                self.set_stack(dst, v)
            },
            ByteCode::LoadNil(dst) => self.set_stack(dst, Value::Nil),
            ByteCode::LoadBool(dst, b) => self.set_stack(dst, Value::Boolean(b)),
            ByteCode::LoadInt(dst, i) => self.set_stack(dst, Value::Integer(i as i64)),
            ByteCode::Call(func, _) => {
                let f = self.get_register(func)?;
                match f {
                    Value::Function(Native::Print) => {
                        let ghost before = self@;
                        let saved = self.func_index;
                        self.func_index = func as usize;
                        proof {
                            assert(self@ == VmView { func_index: func as int, ..before });
                        }
                        let r = lib_print(self);
                        if r.is_err() {
                            self.func_index = saved;
                        }
                        r
                    },
                    _ => Err(LuaError::InvalidFunction),
                }
            },
            ByteCode::Move(dst, src) => {
                let v = self.get_register(src)?;
                self.set_stack(dst, v)
            },
        }
    }

    /// Writes `v` to register `dst`; a write past the end of the stack
    /// fails, so that registers stay free of gaps.
    fn set_stack(&mut self, dst: u8, v: Value) -> (r: Result<(), LuaError>)
        ensures
            match set_stack(old(self)@, dst as int, v@) {
                Ok(st) => r is Ok && final(self)@ == st,
                Err(e) => r == Err::<(), LuaError>(e) && final(self)@ == old(self)@,
            },
    {
        let dst = dst as usize;
        if dst < self.stack.len() {
            self.stack[dst] = v;
            proof {
                assert(views(self.stack@) =~= views(old(self).stack@).update(dst as int, v@));
            }
            Ok(())
        } else if dst == self.stack.len() {
            self.stack.push(v);
            proof {
                assert(views(self.stack@) =~= views(old(self).stack@).push(v@));
            }
            Ok(())
        } else {
            Err(LuaError::StackOverflow)
        }
    }

    /// A copy of the value in register `i`.
    pub fn get_register(&self, i: u8) -> (r: Result<Value, LuaError>)
        ensures
            match reg(self@, i as int) {
                Ok(v) => r matches Ok(x) && x@ == v,
                Err(e) => r == Err::<Value, LuaError>(e),
            },
    {
        if (i as usize) < self.stack.len() {
            Ok(self.stack[i as usize].clone())
        } else {
            Err(LuaError::InvalidRegister)
        }
    }

    /// A copy of the value of the global named `k`; nil where none is set.
    pub fn get_global(&self, k: &[u8]) -> (r: Value)
        ensures
            r@ == global(self@, k@),
    {
        let ghost g = entries(self.globals@);
        let mut j: usize = self.globals.len();
        proof {
            assert(g.take(g.len() as int) =~= g);
        }
        while j > 0
            invariant
                j <= self.globals@.len(),
                g == entries(self.globals@),
                lookup(g, k@) == lookup(g.take(j as int), k@),
            decreases j,
        {
            if bytes_eq(self.globals[j - 1].0.as_slice(), k) {
                proof {
                    assert(g.take(j as int).drop_last() =~= g.take(j - 1));
                }
                return self.globals[j - 1].1.clone();
            }
            proof {
                assert(g.take(j as int).drop_last() =~= g.take(j - 1));
            }
            j -= 1;
        }
        Value::Nil
    }

    /// Sets the global named `k` to `v`.
    fn set_global(&mut self, k: Vec<u8>, v: Value)
        ensures
            final(self)@ == set_global(old(self)@, k@, v@),
    {
        let ghost g = entries(self.globals@);
        let ghost kv = k@;
        let ghost vv = v@;
        let mut j: usize = self.globals.len();
        while j > 0
            invariant
                j <= self.globals@.len(),
                g == entries(self.globals@),
                *self == *old(self),
                kv == k@,
                vv == v@,
                g == entries(old(self).globals@),
                forall|t: int| j <= t < g.len() ==> (#[trigger] g[t]).0 != kv,
            decreases j,
        {
            proof {
                assert(g[j - 1] == (self.globals@[j - 1].0@, self.globals@[j - 1].1@));
            }
            if bytes_eq(self.globals[j - 1].0.as_slice(), k.as_slice()) {
                let ghost old_g = self.globals@;
                self.globals[j - 1] = (k, v);
                proof {
                    let g2 = entries(self.globals@);
                    assert(self.globals@ == old_g.update(j - 1, (k, v)));
                    assert(g2 =~= g.update(j - 1, (kv, vv)));
                    lemma_update_last(g, j - 1, kv, vv);
                    assert(table(g2) =~= table(g).insert(kv, vv));
                }
                return;
            }
            j -= 1;
        }
        self.globals.push((k, v));
        proof {
            let g2 = entries(self.globals@);
            assert(g2 =~= g.push((kv, vv)));
            assert(g2.drop_last() =~= g);
            assert(table(g2) =~= table(g).insert(kv, vv));
        }
    }

    /// Everything that `print` has written so far.
    pub fn output(&self) -> (r: &[u8])
        ensures
            r@ == self@.output,
    {
        self.output.as_slice()
    }
}

/// Overwriting the last entry named `k` sets global `k` and keeps the others.
pub proof fn lemma_update_last(g: Seq<(Seq<u8>, ValueView)>, i: int, k: Seq<u8>, v: ValueView)
    requires
        0 <= i < g.len(),
        g[i].0 == k,
        forall|t: int| i < t < g.len() ==> (#[trigger] g[t]).0 != k,
    ensures
        forall|k2: Seq<u8>| #[trigger]
            lookup(g.update(i, (k, v)), k2) == if k2 == k {
                Some(v)
            } else {
                lookup(g, k2)
            },
    decreases g.len(),
{
    let g2 = g.update(i, (k, v));
    if i < g.len() - 1 {
        assert(g[g.len() - 1].0 != k);
        lemma_update_last(g.drop_last(), i, k, v);
    }
    assert forall|k2: Seq<u8>| #[trigger]
        lookup(g2, k2) == if k2 == k {
            Some(v)
        } else {
            lookup(g, k2)
        } by {
        if i == g.len() - 1 {
            assert(g2.last() == (k, v));
            assert(g2.drop_last() =~= g.drop_last());
        } else {
            let h = g.drop_last();
            assert(g2.last() == g.last());
            assert(g2.drop_last() =~= h.update(i, (k, v)));
            assert(lookup(h.update(i, (k, v)), k2) == if k2 == k {
                Some(v)
            } else {
                lookup(h, k2)
            });
        }
    }
}

/// The name held by constant `i`.
fn read_key(proto: &ParseProto, i: u8) -> (r: Result<Vec<u8>, LuaError>)
    ensures
        match key_at(views(proto.constants@), i as int) {
            Ok(k) => r matches Ok(x) && x@ == k,
            Err(e) => r == Err::<Vec<u8>, LuaError>(e),
        },
{
    if (i as usize) < proto.constants.len() {
        match proto.constants[i as usize].str_bytes() {
            Some(k) => Ok(k),
            None => Err(LuaError::NotAString),
        }
    } else {
        Err(LuaError::InvalidConstant)
    }
}

/// A copy of constant `i`.
fn read_const(proto: &ParseProto, i: u8) -> (r: Result<Value, LuaError>)
    ensures
        match const_at(views(proto.constants@), i as int) {
            Ok(v) => r matches Ok(x) && x@ == v,
            Err(e) => r == Err::<Value, LuaError>(e),
        },
{
    if (i as usize) < proto.constants.len() {
        Ok(proto.constants[i as usize].clone())
    } else {
        Err(LuaError::InvalidConstant)
    }
}

/// `print`: writes the text of the value after the called register, and a newline.
fn lib_print(state: &mut ExeState) -> (r: Result<(), LuaError>)
    ensures
        match call_print(old(state)@) {
            Ok(st) => r is Ok && final(state)@ == st,
            Err(e) => r == Err::<(), LuaError>(e) && final(state)@ == old(state)@,
        },
{
    if state.stack.len() == 0 || state.func_index >= state.stack.len() - 1 {
        return Err(LuaError::InvalidRegister);
    }
    let text = state.stack[state.func_index + 1].to_text();
    let mut k: usize = 0;
    while k < text.len()
        invariant
            k <= text@.len(),
            state.globals == old(state).globals,
            state.stack == old(state).stack,
            state.func_index == old(state).func_index,
            state.output@ == old(state).output@ + text@.subrange(0, k as int),
        decreases text@.len() - k,
    {
        state.output.push(text[k]);
        k += 1;
        proof {
            assert(state.output@ =~= old(state).output@ + text@.subrange(0, k as int));
        }
    }
    state.output.push('\n' as u8);
    proof {
        assert(text@.subrange(0, text@.len() as int) =~= text@);
        assert(state.output@ =~= old(state).output@ + text@ + seq!['\n' as u8]);
    }
    Ok(())
}

} // verus!

verus! {

/// Compiling a literal into the next free register and running the
/// instruction leaves the literal's value in that register. A literal that
/// goes through the pool (a float, an integer beyond 16 bits, a string) is
/// held there, and the pool stays free of duplicates, so it is held once.
pub proof fn law_literal_round_trip(c: Compiled, t: TokenView, st: VmView)
    requires
        literal_value(t) is Some,
        distinct(c.consts),
        c.consts.len() < 256,
        c.locals.len() <= 255,
        st.stack.len() == c.locals.len(),
    ensures
        exp_code(c, c.locals.len() as int, t) matches Ok((c2, code)) && {
            let v = literal_value(t)->Some_0;
            &&& step(st, c2.consts, code) matches Ok(st2) && st2.stack == st.stack.push(v)
            &&& distinct(c2.consts)
            &&& code is LoadConst ==> c2.consts.contains(v)
            &&& (t matches TokenView::Other(Token::Float(_)) || t matches TokenView::Str(_) || (
            t matches TokenView::Other(Token::Integer(i)) && !fits_i16(i as int))) ==> code is LoadConst
        },
{
    let v = literal_value(t)->Some_0;
    law_add_const_distinct(c.consts, v);
    match add_const(c.consts, v) {
        Ok((cs2, k)) => {
            assert(cs2[k] == v);
            assert(cs2.contains(v));
        },
        Err(_) => {},
    }
}

/// A global set from a constant reads back as that constant.
pub proof fn law_global_round_trip(st: VmView, consts: Seq<ValueView>, name: u8, src: u8, dst: u8)
    requires
        key_at(consts, name as int) is Ok,
        const_at(consts, src as int) is Ok,
        dst <= st.stack.len(),
    ensures
        step(st, consts, ByteCode::SetGlobalConst(name, src)) matches Ok(st1) && step(
            st1,
            consts,
            ByteCode::GetGlobal(dst, name),
        ) matches Ok(st2) && st2.stack[dst as int] == consts[src as int],
{
}

/// Reading a global that was never set gives nil, never an error.
pub proof fn law_undeclared_global(st: VmView, consts: Seq<ValueView>, name: u8, dst: u8)
    requires
        key_at(consts, name as int) matches Ok(k) && !st.globals.contains_key(k),
        dst <= st.stack.len(),
    ensures
        step(st, consts, ByteCode::GetGlobal(dst, name)) matches Ok(st2) && st2.stack[dst as int]
            == ValueView::Nil,
{
}

/// A write more than one past the end of the register stack fails with a
/// stack overflow: the stack is never grown with a gap, and the run stops
/// there with the state as it was.
pub proof fn law_write_past_end(
    st: VmView,
    consts: Seq<ValueView>,
    dst: u8,
    b: bool,
    i: i16,
    rest: Seq<ByteCode>,
)
    requires
        dst > st.stack.len(),
    ensures
        step(st, consts, ByteCode::LoadNil(dst)) == Err::<VmView, LuaError>(LuaError::StackOverflow),
        step(st, consts, ByteCode::LoadBool(dst, b)) == Err::<VmView, LuaError>(
            LuaError::StackOverflow,
        ),
        step(st, consts, ByteCode::LoadInt(dst, i)) == Err::<VmView, LuaError>(
            LuaError::StackOverflow,
        ),
        const_at(consts, i as u8 as int) is Ok ==> step(
            st,
            consts,
            ByteCode::LoadConst(dst, i as u8),
        ) == Err::<VmView, LuaError>(LuaError::StackOverflow),
        run(st, consts, seq![ByteCode::LoadNil(dst)] + rest) == (st, Some(LuaError::StackOverflow)),
{
    assert((seq![ByteCode::LoadNil(dst)] + rest)[0] == ByteCode::LoadNil(dst));
}

} // verus!
