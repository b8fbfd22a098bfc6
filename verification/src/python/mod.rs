//! The sandboxed Python runner's own logic: what one run produced, the
//! opt-in bounds of a run and how a run's end is read, plus the decisions
//! of the filesystem bridge the guest sees.
use vstd::prelude::*;

pub mod bridge;
pub mod file_ops;

verus! {

/// Result of one Python invocation.
#[derive(Debug, Clone)]
pub struct PythonOutput {
    pub stdout: Vec<u8>,
    pub stderr: Vec<u8>,
    pub exit_code: i32,
}

/// Optional per-invocation bounds. Everything is opt-in: a field left
/// `None` means unbounded.
#[derive(Debug, Clone)]
pub struct PythonLimits {
    /// Fuel budget (roughly "wasm instructions"); `None` is unbounded.
    pub fuel: Option<u64>,
    /// File size cap in bytes, enforced on writes and truncations; `None`
    /// is bounded only by available memory.
    pub max_file_size: Option<u64>,
}

impl Default for PythonLimits {
    fn default() -> (l: Self)
        ensures
            l.fuel is None,
            l.max_file_size is None,
    {
        PythonLimits { fuel: None, max_file_size: None }
    }
}

/// The fuel a run starts with (unbounded when no fuel limit is set) and the
/// file size cap the filesystem bridge enforces.
pub fn run_budget(limits: Option<&PythonLimits>) -> (r: (u64, Option<u64>))
    ensures
        r == (match limits {
            Some(l) => (
                match l.fuel {
                    Some(f) => f,
                    None => u64::MAX,
                },
                l.max_file_size,
            ),
            None => (u64::MAX, None::<u64>),
        }),
{
    match limits {
        Some(l) => {
            let fuel: u64 = match l.fuel {
                Some(f) => f,
                None => u64::MAX,
            };
            (fuel, l.max_file_size)
        },
        None => (u64::MAX, None),
    }
}

/// How the guest's entry point came back: it returned, it called `exit`
/// with a status, or it trapped.
#[derive(Debug, Clone, Copy, PartialEq, Eq, Structural)]
pub enum GuestEnd {
    Returned,
    Exited(i32),
    Trapped,
}

/// What a run reports: the exit status, whether the guest trapped (a
/// crash, not an exit), and for a trap whether the fuel ran out.
#[derive(Debug, Clone, Copy, PartialEq, Eq, Structural)]
pub struct RunVerdict {
    pub exit_code: i32,
    pub trapped: bool,
    pub fuel_exhausted: bool,
}

/// Reads the end of a run, given the fuel left in the store when it could
/// be read. A return is status 0 and an exit carries its status; a trap
/// reports status 0, which callers must not use, and says whether no fuel
/// was left.
pub fn classify_run(end: GuestEnd, fuel_left: Option<u64>) -> (r: RunVerdict)
    ensures
        r == (match end {
            GuestEnd::Returned => RunVerdict { exit_code: 0, trapped: false, fuel_exhausted: false },
            GuestEnd::Exited(code) => RunVerdict { exit_code: code, trapped: false, fuel_exhausted: false },
            GuestEnd::Trapped => RunVerdict {
                exit_code: 0,
                trapped: true,
                fuel_exhausted: fuel_left == Some(0u64),
            },
        }),
{
    match end {
        GuestEnd::Returned => RunVerdict { exit_code: 0, trapped: false, fuel_exhausted: false },
        GuestEnd::Exited(code) => RunVerdict { exit_code: code, trapped: false, fuel_exhausted: false },
        GuestEnd::Trapped => {
            let exhausted = match fuel_left {
                Some(f) => f == 0,
                None => false,
            };
            RunVerdict { exit_code: 0, trapped: true, fuel_exhausted: exhausted }
        },
    }
}

} // verus!
