//! The values exchanged between the monitor, its elevated helper and the window.
use vstd::prelude::*;

verus! {

/// Total transfer rates of the active network interface.
#[derive(Debug, Clone)]
pub struct SummarySnapshot {
    pub down_bps: u64,
    pub up_bps: u64,
    pub sampled_at: u64,
    pub adapters: Vec<String>,
}

/// Transfer rates of one process over the last reporting period.
#[derive(Debug, Clone)]
pub struct ProcessSnapshot {
    pub pid: u32,
    pub image_name: String,
    pub display_name: String,
    pub down_bps: u64,
    pub up_bps: u64,
}

/// Where the request for elevated, per-process monitoring stands.
#[derive(Debug, Clone, Copy, PartialEq, Eq, Structural)]
pub enum PermissionState {
    Idle,
    Pending,
    Granted,
    Denied,
    Error,
}

/// Whether per-process details are shown, and why not when they are not.
#[derive(Debug, Clone)]
pub struct MonitoringState {
    pub process_details_enabled: bool,
    pub permission_state: PermissionState,
    pub last_error: Option<String>,
}

/// Everything the window needs when it first opens.
#[derive(Debug, Clone)]
pub struct BootstrapState {
    pub summary: SummarySnapshot,
    pub processes: Vec<ProcessSnapshot>,
    pub monitoring_state: MonitoringState,
}

/// A line the elevated helper sends to the monitor.
#[derive(Debug, Clone)]
pub enum HelperMessage {
    Hello { token: String },
    Ready,
    Processes { sampled_at: u64, processes: Vec<ProcessSnapshot> },
    Error { message: String },
}

/// A line the monitor sends to the elevated helper.
#[derive(Debug, Clone, Copy, PartialEq, Eq, Structural)]
pub enum HelperCommand {
    Shutdown,
}

impl Default for PermissionState {
    fn default() -> (r: Self)
        ensures
            r == PermissionState::Idle,
    {
        PermissionState::Idle
    }
}

impl Default for SummarySnapshot {
    fn default() -> (r: Self)
        ensures
            r.down_bps == 0,
            r.up_bps == 0,
            r.sampled_at == 0,
            r.adapters@.len() == 0,
    {
        SummarySnapshot { down_bps: 0, up_bps: 0, sampled_at: 0, adapters: Vec::new() }
    }
}

impl Default for ProcessSnapshot {
    fn default() -> (r: Self)
        ensures
            r.pid == 0,
            r.image_name@.len() == 0,
            r.display_name@.len() == 0,
            r.down_bps == 0,
            r.up_bps == 0,
    {
        ProcessSnapshot {
            pid: 0,
            image_name: String::new(),
            display_name: String::new(),
            down_bps: 0,
            up_bps: 0,
        }
    }
}

impl Default for MonitoringState {
    fn default() -> (r: Self)
        ensures
            !r.process_details_enabled,
            r.permission_state == PermissionState::Idle,
            r.last_error is None,
    {
        MonitoringState {
            process_details_enabled: false,
            permission_state: PermissionState::Idle,
            last_error: None,
        }
    }
}

impl Default for BootstrapState {
    fn default() -> (r: Self)
        ensures
            r.summary.down_bps == 0,
            r.summary.up_bps == 0,
            r.summary.sampled_at == 0,
            r.summary.adapters@.len() == 0,
            r.processes@.len() == 0,
            !r.monitoring_state.process_details_enabled,
            r.monitoring_state.permission_state == PermissionState::Idle,
            r.monitoring_state.last_error is None,
    {
        BootstrapState {
            summary: SummarySnapshot::default(),
            processes: Vec::new(),
            monitoring_state: MonitoringState::default(),
        }
    }
}

} // verus!
