//! Input records and the futex command dispatch rules.

use vstd::prelude::*;

verus! {

/// Futex operation codes, as defined by the kernel ABI.
pub const FUTEX_WAIT: i32 = 0;

pub const FUTEX_WAKE: i32 = 1;

pub const FUTEX_FD: i32 = 2;

pub const FUTEX_REQUEUE: i32 = 3;

pub const FUTEX_CMP_REQUEUE: i32 = 4;

pub const FUTEX_WAKE_OP: i32 = 5;

pub const FUTEX_LOCK_PI: i32 = 6;

pub const FUTEX_UNLOCK_PI: i32 = 7;

pub const FUTEX_TRYLOCK_PI: i32 = 8;

pub const FUTEX_WAIT_BITSET: i32 = 9;

pub const FUTEX_WAKE_BITSET: i32 = 10;

/// Flag bits that may be set on top of a command code.
pub const FUTEX_PRIVATE_FLAG: i32 = 128;

pub const FUTEX_CLOCK_REALTIME: i32 = 256;

/// Mask that clears the flag bits, leaving the canonical command.
pub const FUTEX_CMD_MASK: i32 = !(FUTEX_PRIVATE_FLAG | FUTEX_CLOCK_REALTIME);

/// The canonical command encoded in a raw `futex_op` value.
pub open spec fn masked_cmd(op: i32) -> i32 {
    op & FUTEX_CMD_MASK
}

/// Does the operation count as a wait (plain or bitset variant)?
pub open spec fn is_wait_op(op: i32) -> bool {
    masked_cmd(op) == FUTEX_WAIT || masked_cmd(op) == FUTEX_WAIT_BITSET
}

/// Does the operation count as a wake (plain or bitset variant)?
pub open spec fn is_wake_op(op: i32) -> bool {
    masked_cmd(op) == FUTEX_WAKE || masked_cmd(op) == FUTEX_WAKE_BITSET
}

/// Computes the canonical command of a raw `futex_op` value.
pub fn mask_op(op: i32) -> (cmd: i32)
    ensures
        cmd == masked_cmd(op),
{
    op & FUTEX_CMD_MASK
}

/// Arguments of one futex syscall, as captured at syscall entry.
#[derive(Clone, Copy, Debug, PartialEq, Eq, Structural)]
pub struct FutexArgs {
    /// Futex address; an opaque key compared only for equality.
    pub uaddr: usize,
    /// Raw operation code, flag bits included.
    pub futex_op: i32,
    /// Operation argument (compare value or wake count request).
    pub val: u32,
    /// Secondary address, used only by requeue-class operations.
    pub uaddr2: usize,
    /// Secondary argument (bitset for the bitset variants).
    pub val3: u32,
}

/// One observed futex syscall, assembled at syscall exit.
#[derive(Clone, Copy, Debug, PartialEq, Eq, Structural)]
pub struct FutexEvent {
    /// Thread that performed the syscall.
    pub tid: u32,
    /// The syscall's arguments.
    pub args: FutexArgs,
    /// Monotonic nanosecond timestamp of the observation.
    pub timestamp_ns: u64,
    /// Syscall return value: for wakes, the number of threads woken;
    /// for waits, zero on a normal wake-up.
    pub ret: i64,
}

/// Configuration record handed to the kernel-side probe.
#[derive(Clone, Copy, Debug, PartialEq, Eq, Structural)]
pub struct Args {
    /// Process whose threads are observed.
    pub target_pid: u32,
}

/// A kernel `timespec`, kept for the probe's argument layout.
#[allow(non_camel_case_types)]
#[derive(Clone, Copy, Debug, PartialEq, Eq, Structural)]
pub struct timespec {
    pub tv_sec: i64,
    pub tv_nsec: i64,
}

/// Subtraction on `u64` that bottoms out at zero instead of wrapping.
pub open spec fn sat_sub_spec(a: u64, b: u64) -> u64 {
    if a >= b {
        (a - b) as u64
    } else {
        0
    }
}

/// Addition on `u64` that tops out at `u64::MAX` instead of wrapping.
pub open spec fn sat_add_spec(a: u64, b: u64) -> u64 {
    if a + b > u64::MAX {
        u64::MAX
    } else {
        (a + b) as u64
    }
}

/// Saturating subtraction; timestamps may carry small inversions, so
/// differences are clamped at zero rather than trusted to be ordered.
pub fn sat_sub(a: u64, b: u64) -> (r: u64)
    ensures
        r == sat_sub_spec(a, b),
{
    if a >= b {
        a - b
    } else {
        0
    }
}

/// Saturating addition, used when accumulating path weights.
pub fn sat_add(a: u64, b: u64) -> (r: u64)
    ensures
        r == sat_add_spec(a, b),
{
    if a > u64::MAX - b {
        u64::MAX
    } else {
        a + b
    }
}

} // verus!
