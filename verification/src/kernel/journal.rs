//! Honest host-lifecycle outcomes after discovery.

use vstd::prelude::*;

verus! {

/// What the journal may claim after discovery. A live pid is only claimed
/// when the worker is actually present.
#[derive(Clone, Copy, Debug, PartialEq, Eq, Structural)]
pub enum TerminalOutcome {
    Running { child_pid: u32 },
    HostTerminated,
    Missing,
    Exited { status: i32 },
}

/// Three-way reconcile of the journal record, the live worker and the
/// host-shutdown marker.
pub open spec fn reconcile_spec(recorded_pid: Option<u32>, worker_live: bool, shutdown_marker: bool) -> TerminalOutcome {
    if shutdown_marker && !worker_live {
        TerminalOutcome::HostTerminated
    } else if worker_live {
        match recorded_pid {
            Some(child_pid) => TerminalOutcome::Running { child_pid },
            None => TerminalOutcome::Missing,
        }
    } else if recorded_pid is Some {
        TerminalOutcome::Missing
    } else {
        TerminalOutcome::HostTerminated
    }
}

pub fn reconcile_execution(recorded_pid: Option<u32>, worker_live: bool, shutdown_marker: bool) -> (o: TerminalOutcome)
    ensures
        o == reconcile_spec(recorded_pid, worker_live, shutdown_marker),
{
    if shutdown_marker && !worker_live {
        return TerminalOutcome::HostTerminated;
    }
    if worker_live {
        if let Some(child_pid) = recorded_pid {
            return TerminalOutcome::Running { child_pid };
        }
        return TerminalOutcome::Missing;
    }
    if recorded_pid.is_some() {
        return TerminalOutcome::Missing;
    }
    TerminalOutcome::HostTerminated
}

/// The journal never claims a running pid for a worker that is not live,
/// and a running claim always names the recorded pid.
pub proof fn lemma_running_only_when_live(recorded_pid: Option<u32>, worker_live: bool, shutdown_marker: bool)
    ensures
        reconcile_spec(recorded_pid, worker_live, shutdown_marker) is Running ==> worker_live
            && recorded_pid == Some(reconcile_spec(recorded_pid, worker_live, shutdown_marker)->child_pid),
{
}

} // verus!
