//! Script operations and the stack they work on. Script checking itself always succeeds.
use vstd::prelude::*;
use vstd::pervasive::cloned;

verus! {

/// A stack of values; the top is the last item.
pub struct Stack<T>(pub Vec<T>);

impl<T> View for Stack<T> {
    type V = Seq<T>;

    open spec fn view(&self) -> Seq<T> {
        self.0@
    }
}

impl<T: Clone> Stack<T> {
    pub fn new() -> (r: Stack<T>)
        ensures
            r@ == Seq::<T>::empty(),
    {
        Stack(Vec::new())
    }

    /// Pushes a clone of `e`.
    pub fn push(&mut self, e: &T)
        ensures
            final(self)@.len() == old(self)@.len() + 1,
            final(self)@.drop_last() == old(self)@,
            cloned(*e, final(self)@.last()),
    {
        let c = e.clone();
        self.0.push(c);
        assert(final(self)@.drop_last() =~= old(self)@);
    }

    /// Takes the top value off, if there is one.
    pub fn pop(&mut self) -> (r: Option<T>)
        ensures
            old(self)@.len() == 0 ==> r is None && final(self)@ == old(self)@,
            old(self)@.len() > 0 ==> r == Some(old(self)@.last()) && final(self)@ == old(
                self,
            )@.drop_last(),
    {
        self.0.pop()
    }

    /// Pushes a clone of the top value; fails on an empty stack.
    pub fn dup(&mut self) -> (r: Result<(), ()>)
        ensures
            old(self)@.len() == 0 ==> r is Err && final(self)@ == old(self)@,
            old(self)@.len() > 0 ==> {
                &&& r is Ok
                &&& final(self)@.len() == old(self)@.len() + 1
                &&& final(self)@.drop_last() == old(self)@
                &&& cloned(old(self)@.last(), final(self)@.last())
            },
    {
        if self.0.len() == 0 {
            return Err(());
        }
        let top = self.0[self.0.len() - 1].clone();
        self.0.push(top);
        assert(final(self)@.drop_last() =~= old(self)@);
        Ok(())
    }
}

/// The operations of a script.
#[allow(non_camel_case_types)]
#[derive(Clone, Copy, Debug, PartialEq, Eq, Structural)]
pub enum ScriptOp {
    OP_FALSE,
    /// Push the next `n` bytes (`n` from 1 to 0x4B).
    NA(u8),
    OP_TRUE,
    OP_DUP,
    OP_EQUAL,
    OP_VERIFY,
    OP_HASH,
    OP_CHECKSIG,
}

/// A byte that is no operation code.
#[derive(Clone, Copy, Debug, PartialEq, Eq, Structural)]
pub struct WrongOPCode;

/// The operation that a byte encodes, if any.
pub open spec fn op_of_byte(e: u8) -> Option<ScriptOp> {
    if e == 0x00 {
        Some(ScriptOp::OP_FALSE)
    } else if 0x01 <= e <= 0x4B {
        Some(ScriptOp::NA(e))
    } else if e == 0x50 {
        Some(ScriptOp::OP_TRUE)
    } else if e == 0x64 {
        Some(ScriptOp::OP_DUP)
    } else if e == 0x78 {
        Some(ScriptOp::OP_EQUAL)
    } else if e == 0x8C {
        Some(ScriptOp::OP_VERIFY)
    } else if e == 0xA0 {
        Some(ScriptOp::OP_HASH)
    } else if e == 0xAA {
        Some(ScriptOp::OP_CHECKSIG)
    } else {
        None
    }
}

impl ScriptOp {
    /// Decodes an operation byte.
    pub fn try_from(e: u8) -> (r: Result<ScriptOp, WrongOPCode>)
        ensures
            match op_of_byte(e) {
                Some(op) => r == Ok::<ScriptOp, WrongOPCode>(op),
                None => r == Err::<ScriptOp, WrongOPCode>(WrongOPCode),
            },
    {
        match e {
            0x00 => Ok(ScriptOp::OP_FALSE),
            0x01..=0x4B => Ok(ScriptOp::NA(e)),
            0x50 => Ok(ScriptOp::OP_TRUE),
            0x64 => Ok(ScriptOp::OP_DUP),
            0x78 => Ok(ScriptOp::OP_EQUAL),
            0x8C => Ok(ScriptOp::OP_VERIFY),
            0xA0 => Ok(ScriptOp::OP_HASH),
            0xAA => Ok(ScriptOp::OP_CHECKSIG),
            _ => Err(WrongOPCode),
        }
    }
}

/// Checks a script. No check is made yet: every script passes.
pub fn verify_script(_s: &[u8]) -> (r: bool)
    ensures
        r,
{
    true
}

} // verus!
