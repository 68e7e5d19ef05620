//! The permission state machine behind per-process monitoring: what the
//! monitor shows while it asks for elevation, while the elevated helper runs,
//! and after the helper fails or goes away.
use crate::models::{HelperMessage, MonitoringState, PermissionState, ProcessSnapshot};
use crate::text::push_decimal;
use vstd::prelude::*;

verus! {

/// The views of a monitoring state: whether details are on, the permission
/// state, and the error text if any.
pub open spec fn monitoring_view(m: MonitoringState) -> (bool, PermissionState, Option<Seq<char>>) {
    (
        m.process_details_enabled,
        m.permission_state,
        match m.last_error {
            Some(e) => Some(e@),
            None => None,
        },
    )
}

/// A state every transition produces: details are on exactly when the
/// permission is granted, and an error text is kept exactly when the request
/// was denied or failed.
pub open spec fn coherent(m: MonitoringState) -> bool {
    &&& m.process_details_enabled <==> m.permission_state == PermissionState::Granted
    &&& (m.last_error is Some) <==> (m.permission_state == PermissionState::Error || m.permission_state
        == PermissionState::Denied)
}

/// No helper, no request: details off, no error.
pub open spec fn is_idle(m: MonitoringState) -> bool {
    monitoring_view(m) == (false, PermissionState::Idle, None::<Seq<char>>)
}

/// Waiting for the elevated helper: details off, no error.
pub open spec fn is_pending(m: MonitoringState) -> bool {
    monitoring_view(m) == (false, PermissionState::Pending, None::<Seq<char>>)
}

/// The helper reports: details on, no error.
pub open spec fn is_granted(m: MonitoringState) -> bool {
    monitoring_view(m) == (true, PermissionState::Granted, None::<Seq<char>>)
}

/// Monitoring failed with the given message: details off.
pub open spec fn is_failed(m: MonitoringState, message: Seq<char>) -> bool {
    monitoring_view(m) == (false, PermissionState::Error, Some(message))
}

/// The state before anything was asked.
pub fn idle_state() -> (r: MonitoringState)
    ensures
        is_idle(r),
        coherent(r),
{
    MonitoringState { process_details_enabled: false, permission_state: PermissionState::Idle, last_error: None }
}

/// The state while the elevated helper is being started or is handshaking.
pub fn pending_state() -> (r: MonitoringState)
    ensures
        is_pending(r),
        coherent(r),
{
    MonitoringState { process_details_enabled: false, permission_state: PermissionState::Pending, last_error: None }
}

/// The state while the helper delivers per-process data.
pub fn granted_state() -> (r: MonitoringState)
    ensures
        is_granted(r),
        coherent(r),
{
    MonitoringState { process_details_enabled: true, permission_state: PermissionState::Granted, last_error: None }
}

/// The state after monitoring failed with `message`.
pub fn failed_state(message: String) -> (r: MonitoringState)
    ensures
        is_failed(r, message@),
        coherent(r),
{
    MonitoringState {
        process_details_enabled: false,
        permission_state: PermissionState::Error,
        last_error: Some(message),
    }
}

/// Whether a request for per-process monitoring must start the elevated
/// helper: not when details are already on or a request is under way.
pub fn request_needs_helper(current: &MonitoringState) -> (r: bool)
    ensures
        r == !(current.process_details_enabled || current.permission_state == PermissionState::Pending),
{
    !(current.process_details_enabled || current.permission_state == PermissionState::Pending)
}

/// The text of the error the launcher reports when the system refused to
/// start the elevated helper with `code`.
pub open spec fn launch_error_text(code: nat) -> Seq<char> {
    "ShellExecuteW failed with code "@ + crate::text::decimal(code)
}

/// What a launch result code means: codes above 32 mean the helper was
/// started; code 5 (access denied) means the user declined elevation; any
/// other code is a failure.
pub fn launch_refusal_state(code: usize) -> (r: Option<MonitoringState>)
    ensures
        code > 32 ==> r is None,
        code <= 32 ==> (r matches Some(m) && coherent(m) && monitoring_view(m) == (
            false,
            if code == 5 { PermissionState::Denied } else { PermissionState::Error },
            Some("The elevated helper was not started."@),
        )),
{
    if code > 32 {
        None
    } else {
        let permission_state = if code == 5 { PermissionState::Denied } else { PermissionState::Error };
        Some(MonitoringState {
            process_details_enabled: false,
            permission_state,
            last_error: Some(String::from_str("The elevated helper was not started.")),
        })
    }
}

/// The error text for a refused launch.
pub fn launch_error_message(code: usize) -> (r: String)
    ensures
        r@ == launch_error_text(code as nat),
{
    let mut s = String::from_str("ShellExecuteW failed with code ");
    push_decimal(&mut s, code as u128);
    s
}

/// Why the helper's handshake was refused.
#[derive(Debug, Clone, Copy, PartialEq, Eq, Structural)]
pub enum HandshakeError {
    TokenMismatch,
}

impl HandshakeError {
    /// The text the monitor reports for this error.
    pub fn message(&self) -> (r: String)
        ensures
            r@ == "helper handshake token mismatch"@,
    {
        String::from_str("helper handshake token mismatch")
    }
}

/// The handshake succeeds only on a greeting that carries the expected token.
pub fn check_handshake(message: &HelperMessage, token: &str) -> (r: Result<(), HandshakeError>)
    ensures
        r is Ok <==> (message matches HelperMessage::Hello { token: candidate } && candidate@ == token@),
{
    match message {
        HelperMessage::Hello { token: candidate } => {
            let expected = String::from_str(token);
            if *candidate == expected {
                Ok(())
            } else {
                Err(HandshakeError::TokenMismatch)
            }
        },
        _ => Err(HandshakeError::TokenMismatch),
    }
}

/// One outcome of reading a line from the helper.
#[derive(Debug, Clone)]
pub enum HelperLine {
    /// The helper closed the connection.
    Closed,
    /// A well-formed message.
    Message(HelperMessage),
    /// A line that is not a message; the text says why.
    Malformed(String),
    /// Reading failed; the text says why.
    ReadFailed(String),
}

/// What the monitor does about one line from the helper.
#[derive(Debug, Clone)]
pub struct HelperReaction {
    /// The new monitoring state, if it changes.
    pub monitoring: Option<MonitoringState>,
    /// The new process list, if one arrived.
    pub processes: Option<Vec<ProcessSnapshot>>,
    /// Whether to stop reading.
    pub stop: bool,
}

/// The reaction to a line from the helper, given the current state:
/// readiness grants details; a process report replaces the list and, while the
/// request is still pending, grants details too; an error report, a malformed
/// line or a failed read fails monitoring with its text; a failed read or a
/// closed connection ends reading; a repeated greeting changes nothing.
pub open spec fn expected_reaction(current: MonitoringState, line: HelperLine, r: HelperReaction) -> bool {
    match line {
        HelperLine::Closed => r.monitoring is None && r.processes is None && r.stop,
        HelperLine::Message(HelperMessage::Ready) => (r.monitoring matches Some(m) && is_granted(m))
            && r.processes is None && !r.stop,
        HelperLine::Message(HelperMessage::Processes { sampled_at, processes }) => {
            &&& if current.permission_state == PermissionState::Pending {
                (r.monitoring matches Some(m) && is_granted(m))
            } else {
                r.monitoring is None
            }
            &&& r.processes == Some(processes)
            &&& !r.stop
        },
        HelperLine::Message(HelperMessage::Error { message }) => (r.monitoring matches Some(m)
            && is_failed(m, message@)) && r.processes is None && !r.stop,
        HelperLine::Message(HelperMessage::Hello { token }) => r.monitoring is None && r.processes is None
            && !r.stop,
        HelperLine::Malformed(error) => (r.monitoring matches Some(m) && is_failed(m, error@))
            && r.processes is None && !r.stop,
        HelperLine::ReadFailed(error) => (r.monitoring matches Some(m) && is_failed(m, error@))
            && r.processes is None && r.stop,
    }
}

/// Decides what to do about one line from the helper.
pub fn react_to_helper_line(current: &MonitoringState, line: HelperLine) -> (r: HelperReaction)
    ensures
        expected_reaction(*current, line, r),
        r.monitoring matches Some(m) ==> coherent(m),
{
    match line {
        HelperLine::Closed => HelperReaction { monitoring: None, processes: None, stop: true },
        HelperLine::Message(message) => match message {
            HelperMessage::Ready => HelperReaction {
                monitoring: Some(granted_state()),
                processes: None,
                stop: false,
            },
            HelperMessage::Processes { sampled_at, processes } => {
                let monitoring = if current.permission_state == PermissionState::Pending {
                    Some(granted_state())
                } else {
                    None
                };
                HelperReaction { monitoring, processes: Some(processes), stop: false }
            },
            HelperMessage::Error { message } => HelperReaction {
                monitoring: Some(failed_state(message)),
                processes: None,
                stop: false,
            },
            HelperMessage::Hello { token } => HelperReaction { monitoring: None, processes: None, stop: false },
        },
        HelperLine::Malformed(error) => HelperReaction {
            monitoring: Some(failed_state(error)),
            processes: None,
            stop: false,
        },
        HelperLine::ReadFailed(error) => HelperReaction {
            monitoring: Some(failed_state(error)),
            processes: None,
            stop: true,
        },
    }
}

/// The text shown when a helper that was delivering data goes away.
pub open spec fn helper_exited_text() -> Seq<char> {
    "进程监控 helper 已退出"@
}

/// The text shown when the helper goes away before it delivered anything.
pub open spec fn helper_never_started_text() -> Seq<char> {
    "进程监控未成功启动"@
}

/// The state after the helper's connection ended, by its views, if it
/// changes: a granted or pending request fails with a message saying which;
/// any other state stays.
pub open spec fn exit_outcome(current: MonitoringState) -> Option<(bool, PermissionState, Option<Seq<char>>)> {
    if current.permission_state == PermissionState::Granted {
        Some((false, PermissionState::Error, Some(helper_exited_text())))
    } else if current.permission_state == PermissionState::Pending {
        Some((false, PermissionState::Error, Some(helper_never_started_text())))
    } else {
        None
    }
}

/// The state after the helper's connection ended, if it changes.
pub fn state_after_helper_exit(current: &MonitoringState) -> (r: Option<MonitoringState>)
    ensures
        match r {
            Some(m) => exit_outcome(*current) == Some(monitoring_view(m)) && coherent(m),
            None => exit_outcome(*current) is None,
        },
{
    if current.permission_state == PermissionState::Granted {
        Some(failed_state(String::from_str("进程监控 helper 已退出")))
    } else if current.permission_state == PermissionState::Pending {
        Some(failed_state(String::from_str("进程监控未成功启动")))
    } else {
        None
    }
}

/// Once the helper's connection has ended, per-process details are off,
/// whatever coherent state the monitor was in.
pub proof fn lemma_exit_turns_details_off(current: MonitoringState)
    requires
        coherent(current),
    ensures
        match exit_outcome(current) {
            Some(view) => !view.0,
            None => !current.process_details_enabled,
        },
{
}

} // verus!
