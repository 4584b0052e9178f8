use vstd::prelude::*;

pub mod idt;
pub mod table;

verus! {

/// What the processor pushes on the stack before it calls an exception
/// handler.
#[derive(Debug, Clone, Copy, PartialEq, Eq)]
pub struct ExceptionStackFrame {
    pub rip: usize,
    pub cs: usize,
    pub rflags: usize,
    pub rsp: usize,
    pub ss: usize,
}

} // verus!
