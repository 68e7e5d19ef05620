use netmonitor::helper_protocol::{
    command_stops_helper, helper_args, helper_parameters, helper_pipe_name, helper_token, processes_report,
    send_failure_report, startup_report, CommandLine, HelperArgsError,
};
use netmonitor::models::{HelperCommand, HelperMessage, ProcessSnapshot};

fn args(values: &[&str]) -> Vec<String> {
    values.iter().map(|v| v.to_string()).collect()
}

#[test]
fn plain_start_is_not_the_helper() {
    assert!(matches!(helper_args(args(&["netmonitor.exe"])), Ok(None)));
    assert!(matches!(helper_args(args(&["netmonitor.exe", "--pipe", "p", "--token", "t"])), Ok(None)));
    assert!(matches!(helper_args(Vec::new()), Ok(None)));
}

#[test]
fn helper_reads_pipe_and_token() {
    let r = helper_args(args(&["app", "--process-helper", "--pipe", "netmonitor-1-2", "--token", "1-2"]));
    match r {
        Ok(Some(config)) => {
            assert_eq!(config.pipe_name, "netmonitor-1-2");
            assert_eq!(config.token, "1-2");
        }
        _ => panic!("expected a helper configuration"),
    }
}

#[test]
fn helper_takes_the_last_pipe_and_token() {
    let r = helper_args(args(&["app", "--pipe", "a", "--token", "x", "--process-helper", "--pipe", "b", "--token", "y"]));
    match r {
        Ok(Some(config)) => {
            assert_eq!(config.pipe_name, "b");
            assert_eq!(config.token, "y");
        }
        _ => panic!("expected a helper configuration"),
    }
}

#[test]
fn helper_without_pipe_is_refused() {
    let r = helper_args(args(&["app", "--process-helper", "--token", "t"]));
    assert!(matches!(r, Err(HelperArgsError::MissingPipe)));
    assert_eq!(HelperArgsError::MissingPipe.message(), "missing --pipe argument for process helper");
}

#[test]
fn helper_without_token_is_refused() {
    let r = helper_args(args(&["app", "--process-helper", "--pipe", "p"]));
    assert!(matches!(r, Err(HelperArgsError::MissingToken)));
    assert_eq!(HelperArgsError::MissingToken.message(), "missing --token argument for process helper");
}

#[test]
fn flag_at_the_end_has_no_value() {
    // `--pipe` as the last argument leaves the pipe unset, even after an earlier one.
    let r = helper_args(args(&["app", "--process-helper", "--pipe", "p", "--token", "t", "--pipe"]));
    assert!(matches!(r, Err(HelperArgsError::MissingPipe)));
    // A value that is itself a flag is taken as the value and skipped.
    let r = helper_args(args(&["app", "--pipe", "--process-helper", "--token", "t"]));
    match r {
        Ok(Some(config)) => {
            assert_eq!(config.pipe_name, "--process-helper");
            assert_eq!(config.token, "t");
        }
        _ => panic!("expected a helper configuration"),
    }
}

#[test]
fn pipe_name_and_token_texts() {
    assert_eq!(helper_pipe_name(4242, 1_700_000_000_123), "netmonitor-4242-1700000000123");
    assert_eq!(helper_pipe_name(0, 0), "netmonitor-0-0");
    assert_eq!(helper_token(4242, 1_700_000_000_123), "4242-1700000000123");
    assert_eq!(helper_token(u32::MAX, u64::MAX), "4294967295-18446744073709551615");
}

#[test]
fn parameters_quote_pipe_and_token() {
    assert_eq!(
        helper_parameters("netmonitor-7-9", "7-9"),
        "--process-helper --pipe \"netmonitor-7-9\" --token \"7-9\""
    );
}

#[test]
fn parameters_read_back_as_arguments() {
    let pipe = helper_pipe_name(31, 77);
    let token = helper_token(31, 78);
    let parameters = helper_parameters(&pipe, &token);
    let mut values = vec!["netmonitor.exe".to_string()];
    values.extend(parameters.split(' ').map(|word| word.trim_matches('"').to_string()));
    match helper_args(values) {
        Ok(Some(config)) => {
            assert_eq!(config.pipe_name, pipe);
            assert_eq!(config.token, token);
        }
        _ => panic!("expected a helper configuration"),
    }
}

#[test]
fn startup_reports() {
    assert!(matches!(startup_report(None), HelperMessage::Ready));
    match startup_report(Some("access denied".to_string())) {
        HelperMessage::Error { message } => assert_eq!(message, "ETW 启动失败: access denied"),
        _ => panic!("expected an error report"),
    }
    match send_failure_report("broken pipe") {
        HelperMessage::Error { message } => assert_eq!(message, "发送进程监控数据失败: broken pipe"),
        _ => panic!("expected an error report"),
    }
}

#[test]
fn processes_report_carries_its_list() {
    let p = ProcessSnapshot {
        pid: 3,
        image_name: "a.exe".to_string(),
        display_name: "A".to_string(),
        down_bps: 8,
        up_bps: 16,
    };
    match processes_report(99, vec![p]) {
        HelperMessage::Processes { sampled_at, processes } => {
            assert_eq!(sampled_at, 99);
            assert_eq!(processes.len(), 1);
            assert_eq!(processes[0].pid, 3);
            assert_eq!(processes[0].up_bps, 16);
        }
        _ => panic!("expected a process report"),
    }
}

#[test]
fn only_shutdown_or_close_stops_the_helper() {
    assert!(command_stops_helper(CommandLine::Closed));
    assert!(command_stops_helper(CommandLine::Command(HelperCommand::Shutdown)));
    assert!(!command_stops_helper(CommandLine::Malformed));
    assert!(!command_stops_helper(CommandLine::ReadFailed));
}
