use vstd::prelude::*;

verus! {

/// One instruction of the virtual machine.
///
/// Register operands index the register stack; constant operands index the
/// constant pool of the compiled program.
#[derive(Debug, Clone, Copy, PartialEq, Eq, Structural)]
pub enum ByteCode {
    /// `GetGlobal(dst, name)`: register `dst` gets the global named by constant `name`.
    GetGlobal(u8, u8),
    /// `SetGlobal(name, src)`: the global named by constant `name` gets register `src`.
    SetGlobal(u8, u8),
    /// `SetGlobalConst(name, src)`: the global named by constant `name` gets constant `src`.
    SetGlobalConst(u8, u8),
    /// `SetGlobalGlobal(name, src)`: the global named by constant `name` gets the
    /// global named by constant `src`.
    SetGlobalGlobal(u8, u8),
    /// `LoadConst(dst, c)`: register `dst` gets constant `c`.
    LoadConst(u8, u8),
    /// `LoadNil(dst)`: register `dst` gets nil.
    LoadNil(u8),
    /// `LoadBool(dst, b)`: register `dst` gets the boolean `b`.
    LoadBool(u8, bool),
    /// `LoadInt(dst, i)`: register `dst` gets the integer `i`.
    LoadInt(u8, i16),
    /// `Call(func, nargs)`: call the function in register `func`; its arguments
    /// follow it in the registers after it.
    Call(u8, u8),
    /// `Move(dst, src)`: register `dst` gets a copy of register `src`.
    Move(u8, u8),
}

} // verus!
