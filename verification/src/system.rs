//! The process table of the host, as the `sysinfo` crate reads it.

use vstd::prelude::*;
use sysinfo::System;

verus! {

/// A snapshot of the host's processes (`sysinfo::System`).
#[verifier::external_type_specification]
#[verifier::external_body]
pub struct ExSystem(System);

/// The names of the processes that a snapshot holds, by pid.
pub uninterp spec fn process_names(system: System) -> Map<u32, Seq<char>>;

/// Calls `sysinfo::System::new_all`, which reads every process of the host.
/// Nothing is stated of the snapshot it returns: its contents depend on the
/// host at the time of the call.
#[verifier::external_body]
pub fn new_system() -> System {
    System::new_all()
}

/// Calls `sysinfo::System::process` on `Pid::from_u32(pid)` and, when a process
/// comes back, `Process::name`. The snapshot is not refreshed by either call, so
/// the answer is the one that the snapshot holds for `pid`: the contract states
/// that the name is there exactly when the pid is among the snapshot's
/// processes, and that it is the name stored for that pid.
#[verifier::external_body]
pub fn process_name(system: &System, pid: u32) -> (name: Option<String>)
    ensures
        name is Some <==> process_names(*system).dom().contains(pid),
        name matches Some(n) ==> n@ == process_names(*system)[pid],
{
    match system.process(sysinfo::Pid::from_u32(pid)) {
        Some(process) => Some(process.name().to_string()),
        None => None,
    }
}

} // verus!
