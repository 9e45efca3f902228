//! The call frames of the scripting language's stack machine.

use vstd::prelude::*;

verus! {

/// One call frame: where its values start on the stack, where it executes,
/// and which function it belongs to.
#[derive(Debug)]
pub struct Frame {
    sp: usize,
    ip: usize,
    current: usize,
}

impl View for Frame {
    type V = (nat, nat, nat);

    /// The stack pointer, the instruction pointer and the function.
    closed spec fn view(&self) -> (nat, nat, nat) {
        (self.sp as nat, self.ip as nat, self.current as nat)
    }
}

impl Frame {
    /// A frame of function `current` with stack pointer `sp` and
    /// instruction pointer `ip`.
    pub fn new(sp: usize, ip: usize, current: usize) -> (frame: Frame)
        ensures
            frame@ == (sp as nat, ip as nat, current as nat),
    {
        Frame { sp, ip, current }
    }

    /// The stack pointer, the instruction pointer and the function.
    pub fn parts(&self) -> (parts: (usize, usize, usize))
        ensures
            self@ == (parts.0 as nat, parts.1 as nat, parts.2 as nat),
    {
        (self.sp, self.ip, self.current)
    }
}

} // verus!
