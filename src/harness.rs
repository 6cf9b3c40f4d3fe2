//! The in-kernel test harness: the codes that end an emulator run, and the
//! runner that executes the test cases in order.
use vstd::prelude::*;

verus! {

/// How an emulator run ends. The value written to the exit port is given by
/// [`QemuExitCode::code`].
#[derive(Debug, Clone, Copy, PartialEq, Eq, Structural)]
pub enum QemuExitCode {
    Success,
    Failed,
}

impl QemuExitCode {
    /// The value written to the emulator's exit port.
    pub fn code(&self) -> (r: u32)
        ensures
            *self == QemuExitCode::Success ==> r == 0x10,
            *self == QemuExitCode::Failed ==> r == 0x11,
    {
        match self {
            QemuExitCode::Success => 0x10,
            QemuExitCode::Failed => 0x11,
        }
    }
}

/// A test case the runner can execute. A failing case panics.
pub trait Testable {
    fn run(&self);
}

/// Runs every test case in order. A run that gets through all of them ends
/// with `Success`; a failing case never returns here.
pub fn test_runner<T: Testable>(tests: &[T]) -> (r: QemuExitCode)
    ensures
        r == QemuExitCode::Success,
{
    let mut i: usize = 0;
    while i < tests.len()
        invariant
            0 <= i <= tests@.len(),
        decreases tests@.len() - i,
    {
        tests[i].run();
        i = i + 1;
    }
    QemuExitCode::Success
}

/// What the allocation-error hook reports before the kernel halts.
#[derive(Debug, Clone, Copy, PartialEq, Eq, Structural)]
pub struct AllocFailure {
    pub size: usize,
    pub align: usize,
}

/// The allocation-error hook: the heap had no room for a request of
/// `size` bytes aligned to `align`. There is no way to recover; the caller
/// reports the returned failure and halts.
pub fn alloc_error_handler(size: usize, align: usize) -> (r: AllocFailure)
    ensures
        r == (AllocFailure { size, align }),
{
    AllocFailure { size, align }
}

} // verus!
