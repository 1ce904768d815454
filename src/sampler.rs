//! The contract that all samplers share: their lifecycle, the notifications
//! they send, and the decisions of their worker loop (what a command does in
//! each state, when the next tick is due).
use vstd::prelude::*;

verus! {

/// A sampler's state. `Initializing` comes first; `Terminated` is final.
#[derive(Clone, Copy, Debug, PartialEq, Eq, Structural)]
pub enum Status {
    Initializing,
    Sampling,
    Paused,
    Terminated,
}

/// What a sampler's worker tells the user interface.
#[derive(Clone, Debug)]
pub enum Notification {
    NewStatus(Status),
    Info(String),
    Error(String),
}

/// A request from the user interface to a sampler's worker.
#[derive(Clone, Debug)]
pub enum ThreadCommand {
    SetActiveSignals(Vec<u32>),
    Pause,
    Resume,
    Stop,
}

/// The state after `command` arrives in `status`.
pub open spec fn status_after(status: Status, command: ThreadCommand) -> Status {
    match (status, command) {
        (Status::Terminated, _) => Status::Terminated,
        (_, ThreadCommand::Stop) => Status::Terminated,
        (Status::Sampling, ThreadCommand::Pause) => Status::Paused,
        (Status::Paused, ThreadCommand::Resume) => Status::Sampling,
        _ => status,
    }
}

/// The state after `command` arrives in `status`: `Stop` ends any state,
/// `Pause` pauses sampling, `Resume` resumes a pause; anything else leaves the
/// state as it is, and nothing leaves `Terminated`.
pub fn next_status(status: Status, command: &ThreadCommand) -> (r: Status)
    ensures
        r == status_after(status, *command),
{
    match (status, command) {
        (Status::Terminated, _) => Status::Terminated,
        (_, ThreadCommand::Stop) => Status::Terminated,
        (Status::Sampling, ThreadCommand::Pause) => Status::Paused,
        (Status::Paused, ThreadCommand::Resume) => Status::Sampling,
        _ => status,
    }
}

/// The signals to sample after `command`, given those sampled before.
pub fn active_signals_after(active: Vec<u32>, command: &ThreadCommand) -> (r: Vec<u32>)
    ensures
        match command {
            ThreadCommand::SetActiveSignals(ids) => r@ == ids@,
            _ => r@ == active@,
        },
{
    match command {
        ThreadCommand::SetActiveSignals(ids) => ids.clone(),
        _ => active,
    }
}

/// The notification of a change of state: `NewStatus(new)` where the state
/// changed, nothing otherwise.
pub fn status_notification(old: Status, new: Status) -> (r: Option<Notification>)
    ensures
        old == new ==> r is None,
        old != new ==> r is Some && r->0 is NewStatus && r->0->NewStatus_0 == new,
{
    if old == new {
        None
    } else {
        Some(Notification::NewStatus(new))
    }
}

/// What a worker sends when it stops on an error: the error, then the
/// final state.
pub fn fatal_error_notifications(message: String) -> (r: Vec<Notification>)
    ensures
        r@.len() == 2,
        r@[0] is Error && r@[0]->Error_0@ == message@,
        r@[1] is NewStatus && r@[1]->NewStatus_0 == Status::Terminated,
{
    let mut r: Vec<Notification> = Vec::new();
    r.push(Notification::Error(message));
    r.push(Notification::NewStatus(Status::Terminated));
    r
}

/// When the next sample is due, and how the worker gets there.
#[derive(Clone, Copy, Debug, PartialEq, Eq, Structural)]
pub struct Tick {
    /// Time at which the next sample is due.
    pub due: u64,
    /// How long to sleep first.
    pub sleep: u64,
}

/// Plans the next tick of a fixed-rate loop: the tick is due one period
/// after the previous one, whatever the time now (so short overshoots are
/// made up for); the worker sleeps until then if that is still ahead.
pub fn plan_tick(last: u64, period: u64, now: u64) -> (r: Tick)
    requires
        last + period <= u64::MAX,
    ensures
        r.due == last + period,
        now < r.due ==> r.sleep == r.due - now,
        now >= r.due ==> r.sleep == 0,
{
    let due = last + period;
    let sleep = if now < due {
        due - now
    } else {
        0
    };
    Tick { due, sleep }
}

/// Whether a tick taken at `now` lags behind the one `due` by more than half
/// a period.
pub fn is_lagging(due: u64, period: u64, now: u64) -> (r: bool)
    ensures
        r == (now > due && now - due > period / 2),
{
    now > due && now - due > period / 2
}

} // verus!
