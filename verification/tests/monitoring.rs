use netmonitor::models::{HelperMessage, MonitoringState, PermissionState, ProcessSnapshot};
use netmonitor::monitoring::{
    check_handshake, failed_state, granted_state, idle_state, launch_error_message, launch_refusal_state,
    pending_state, react_to_helper_line, request_needs_helper, state_after_helper_exit, HandshakeError, HelperLine,
};

fn coherent(m: &MonitoringState) -> bool {
    (m.process_details_enabled == (m.permission_state == PermissionState::Granted))
        && (m.last_error.is_some()
            == matches!(m.permission_state, PermissionState::Error | PermissionState::Denied))
}

fn all_states() -> Vec<MonitoringState> {
    vec![
        idle_state(),
        pending_state(),
        granted_state(),
        failed_state("boom".to_string()),
        launch_refusal_state(5).unwrap(),
    ]
}

#[test]
fn named_states() {
    let idle = idle_state();
    assert!(!idle.process_details_enabled);
    assert_eq!(idle.permission_state, PermissionState::Idle);
    assert_eq!(idle.last_error, None);
    assert_eq!(pending_state().permission_state, PermissionState::Pending);
    let granted = granted_state();
    assert!(granted.process_details_enabled);
    assert_eq!(granted.permission_state, PermissionState::Granted);
    let failed = failed_state("x".to_string());
    assert!(!failed.process_details_enabled);
    assert_eq!(failed.permission_state, PermissionState::Error);
    assert_eq!(failed.last_error.as_deref(), Some("x"));
    assert_eq!(PermissionState::default(), PermissionState::Idle);
}

#[test]
fn request_starts_helper_only_when_idle_or_failed() {
    assert!(request_needs_helper(&idle_state()));
    assert!(request_needs_helper(&failed_state("e".to_string())));
    assert!(request_needs_helper(&launch_refusal_state(5).unwrap()));
    assert!(!request_needs_helper(&pending_state()));
    assert!(!request_needs_helper(&granted_state()));
}

#[test]
fn launch_codes() {
    assert!(launch_refusal_state(33).is_none());
    assert!(launch_refusal_state(42).is_none());
    let denied = launch_refusal_state(5).unwrap();
    assert_eq!(denied.permission_state, PermissionState::Denied);
    assert!(!denied.process_details_enabled);
    assert_eq!(denied.last_error.as_deref(), Some("The elevated helper was not started."));
    for code in [0usize, 2, 3, 8, 31, 32] {
        let failed = launch_refusal_state(code).unwrap();
        assert_eq!(failed.permission_state, PermissionState::Error, "code {code}");
    }
    assert_eq!(launch_error_message(5), "ShellExecuteW failed with code 5");
}

#[test]
fn handshake_needs_the_token() {
    let hello = HelperMessage::Hello { token: "12-34".to_string() };
    assert!(check_handshake(&hello, "12-34").is_ok());
    assert!(matches!(check_handshake(&hello, "12-35"), Err(HandshakeError::TokenMismatch)));
    assert!(check_handshake(&HelperMessage::Ready, "12-34").is_err());
    assert_eq!(HandshakeError::TokenMismatch.message(), "helper handshake token mismatch");
}

#[test]
fn ready_grants_details() {
    let r = react_to_helper_line(&pending_state(), HelperLine::Message(HelperMessage::Ready));
    let m = r.monitoring.unwrap();
    assert!(m.process_details_enabled);
    assert_eq!(m.permission_state, PermissionState::Granted);
    assert!(r.processes.is_none());
    assert!(!r.stop);
}

#[test]
fn first_report_grants_details_while_pending() {
    let p = ProcessSnapshot {
        pid: 1,
        image_name: "a".to_string(),
        display_name: "A".to_string(),
        down_bps: 0,
        up_bps: 8,
    };
    let line = HelperLine::Message(HelperMessage::Processes { sampled_at: 5, processes: vec![p.clone()] });
    let r = react_to_helper_line(&pending_state(), line.clone());
    assert_eq!(r.monitoring.unwrap().permission_state, PermissionState::Granted);
    assert_eq!(r.processes.unwrap().len(), 1);
    let r = react_to_helper_line(&granted_state(), line);
    assert!(r.monitoring.is_none());
    assert_eq!(r.processes.unwrap()[0].up_bps, 8);
}

#[test]
fn errors_fail_monitoring() {
    let r = react_to_helper_line(
        &granted_state(),
        HelperLine::Message(HelperMessage::Error { message: "ETW 启动失败: x".to_string() }),
    );
    let m = r.monitoring.unwrap();
    assert_eq!(m.permission_state, PermissionState::Error);
    assert_eq!(m.last_error.as_deref(), Some("ETW 启动失败: x"));
    assert!(!r.stop);

    let r = react_to_helper_line(&granted_state(), HelperLine::Malformed("bad json".to_string()));
    assert_eq!(r.monitoring.unwrap().last_error.as_deref(), Some("bad json"));
    assert!(!r.stop);

    let r = react_to_helper_line(&granted_state(), HelperLine::ReadFailed("reset".to_string()));
    assert_eq!(r.monitoring.unwrap().last_error.as_deref(), Some("reset"));
    assert!(r.stop);
}

#[test]
fn close_and_greeting() {
    let r = react_to_helper_line(&granted_state(), HelperLine::Closed);
    assert!(r.monitoring.is_none() && r.processes.is_none() && r.stop);
    let r = react_to_helper_line(&granted_state(), HelperLine::Message(HelperMessage::Hello { token: "t".to_string() }));
    assert!(r.monitoring.is_none() && r.processes.is_none() && !r.stop);
}

#[test]
fn helper_exit() {
    let m = state_after_helper_exit(&granted_state()).unwrap();
    assert_eq!(m.permission_state, PermissionState::Error);
    assert_eq!(m.last_error.as_deref(), Some("进程监控 helper 已退出"));
    let m = state_after_helper_exit(&pending_state()).unwrap();
    assert_eq!(m.last_error.as_deref(), Some("进程监控未成功启动"));
    assert!(state_after_helper_exit(&idle_state()).is_none());
    assert!(state_after_helper_exit(&failed_state("e".to_string())).is_none());
}

#[test]
fn every_transition_is_coherent_and_exit_turns_details_off() {
    let lines = vec![
        HelperLine::Closed,
        HelperLine::Message(HelperMessage::Ready),
        HelperLine::Message(HelperMessage::Processes { sampled_at: 0, processes: Vec::new() }),
        HelperLine::Message(HelperMessage::Error { message: String::new() }),
        HelperLine::Malformed("m".to_string()),
        HelperLine::ReadFailed("r".to_string()),
    ];
    for state in all_states() {
        assert!(coherent(&state));
        for line in &lines {
            if let Some(next) = react_to_helper_line(&state, line.clone()).monitoring {
                assert!(coherent(&next));
            }
        }
        match state_after_helper_exit(&state) {
            Some(next) => assert!(coherent(&next) && !next.process_details_enabled),
            None => assert!(!state.process_details_enabled || state.permission_state == PermissionState::Granted),
        }
    }
}
