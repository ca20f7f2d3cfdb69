use vstd::prelude::*;

verus! {

/// How a spinning sleeper gives the processor back while it waits.
#[derive(PartialEq, Eq, Clone, Copy, Debug, Structural)]
pub enum SpinStrategy {
    YieldThread,
    SpinLoopHint,
}

/// The settings of a spinning sleeper: how accurate the operating system's own sleep is taken
/// to be, and how the remaining time is spent.
#[derive(PartialEq, Eq, Clone, Copy, Debug, Structural)]
pub struct SpinSettings {
    pub native_accuracy_ns: u32,
    pub spin_strategy: SpinStrategy,
}

/// How the runner waits until a task is due: with the operating system's sleep, accurate to
/// about a second and costless, or with a spinning sleeper, accurate to the millisecond at the
/// price of processor time.
#[derive(PartialEq, Eq, Clone, Copy, Debug, Structural)]
pub enum SleepType {
    Native,
    SpinSleep(SpinSettings),
}

} // verus!
