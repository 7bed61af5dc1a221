use vstd::prelude::*;

verus! {

/// One instruction. Slot operands index the value stack; constant operands
/// index the constant pool.
#[derive(Debug, Clone, Copy, PartialEq, Eq, Structural)]
pub enum ByteCode {
    /// Store the value of a slot into the global named by a constant.
    SetGlobal(u8, u8),
    /// Load the global named by a constant into a slot.
    GetGlobal(u8, u8),
    /// Store the value of the global named by the second constant into the
    /// global named by the first.
    SetGlobalGlobal(u8, u8),
    /// Store a constant into the global named by a constant.
    SetGlobalConst(u8, u8),
    /// Load a constant into a slot.
    LocalConst(u8, u8),
    LoadNil(u8),
    LoadBool(u8, bool),
    LoadInt(u8, i16),
    /// Copy the value of the second slot into the first.
    Move(u8, u8),
    /// Call the function in a slot with a number of arguments.
    Call(u8, u8),
}

} // verus!
