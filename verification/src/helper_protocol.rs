//! How the monitor and its elevated helper find and talk to each other: the
//! helper's command line, the pipe name and token, and the reports the helper
//! sends.
use crate::models::{HelperCommand, HelperMessage, ProcessSnapshot};
use crate::text::{decimal, push_decimal};
use vstd::prelude::*;

verus! {

/// Where the helper connects and how it proves it was started by this monitor.
#[derive(Debug, Clone)]
pub struct HelperConfig {
    pub pipe_name: String,
    pub token: String,
}

/// Why the helper's command line was refused.
#[derive(Debug, Clone, Copy, PartialEq, Eq, Structural)]
pub enum HelperArgsError {
    MissingPipe,
    MissingToken,
}

impl HelperArgsError {
    /// The text reported for this error.
    pub fn message(&self) -> (r: String)
        ensures
            *self == HelperArgsError::MissingPipe ==> r@ == "missing --pipe argument for process helper"@,
            *self == HelperArgsError::MissingToken ==> r@ == "missing --token argument for process helper"@,
    {
        match self {
            HelperArgsError::MissingPipe => String::from_str("missing --pipe argument for process helper"),
            HelperArgsError::MissingToken => String::from_str("missing --token argument for process helper"),
        }
    }
}

/// The value right after position `index`, if there is one.
pub open spec fn value_after(values: Seq<Seq<char>>, index: int) -> Option<Seq<char>> {
    if index + 1 < values.len() {
        Some(values[index + 1])
    } else {
        None
    }
}

/// The pipe and token the scan of the arguments holds once it has gone past
/// the end, starting at `index` with `pipe` and `token` found so far: `--pipe`
/// and `--token` take the next argument (or nothing, at the end) and skip it;
/// every other argument is passed over.
pub open spec fn scan_helper_args(
    values: Seq<Seq<char>>,
    index: int,
    pipe: Option<Seq<char>>,
    token: Option<Seq<char>>,
) -> (Option<Seq<char>>, Option<Seq<char>>)
    decreases values.len() + 1 - index,
{
    if index < 0 || index >= values.len() {
        (pipe, token)
    } else if values[index] == "--pipe"@ {
        scan_helper_args(values, index + 2, value_after(values, index), token)
    } else if values[index] == "--token"@ {
        scan_helper_args(values, index + 2, pipe, value_after(values, index))
    } else {
        scan_helper_args(values, index + 1, pipe, token)
    }
}

/// How the command line of the program decides whether it runs as the helper:
/// not at all without `--process-helper`; otherwise with the pipe and token
/// the scan finds, and an error for the first one that is missing.
pub open spec fn helper_args_outcome(values: Seq<Seq<char>>) -> Result<Option<(Seq<char>, Seq<char>)>, HelperArgsError> {
    if !values.contains("--process-helper"@) {
        Ok(None)
    } else {
        let (pipe, token) = scan_helper_args(values, 0, None, None);
        match pipe {
            None => Err(HelperArgsError::MissingPipe),
            Some(p) => match token {
                None => Err(HelperArgsError::MissingToken),
                Some(t) => Ok(Some((p, t))),
            },
        }
    }
}

/// The views of the arguments.
pub open spec fn args_view(values: Seq<String>) -> Seq<Seq<char>> {
    values.map_values(|v: String| v@)
}

fn is_arg(value: &String, literal: &str) -> (r: bool)
    ensures
        r == (value@ == literal@),
{
    let expected = String::from_str(literal);
    *value == expected
}

fn clone_string(s: &String) -> (r: String)
    ensures
        r@ == s@,
{
    s.clone()
}

/// Reads the helper's pipe and token from the program's arguments, or finds
/// that the program does not run as the helper.
pub fn helper_args(values: Vec<String>) -> (r: Result<Option<HelperConfig>, HelperArgsError>)
    ensures
        match (r, helper_args_outcome(args_view(values@))) {
            (Ok(None), Ok(None)) => true,
            (Ok(Some(config)), Ok(Some((pipe, token)))) => config.pipe_name@ == pipe && config.token@ == token,
            (Err(e), Err(f)) => e == f,
            _ => false,
        },
{
    let ghost view = args_view(values@);
    let n = values.len();
    let mut found = false;
    let mut k: usize = 0;
    while k < n
        invariant
            n == values@.len(),
            view == args_view(values@),
            view.len() == n,
            k <= n,
            found <==> exists|j: int| 0 <= j < k && view[j] == "--process-helper"@,
        decreases n - k,
    {
        if is_arg(&values[k], "--process-helper") {
            found = true;
        }
        assert(view[k as int] == values@[k as int]@);
        k = k + 1;
    }
    proof {
        if found {
            let j = choose|j: int| 0 <= j < n && view[j] == "--process-helper"@;
            assert(view.contains(view[j]));
        }
        if view.contains("--process-helper"@) {
            let j = choose|j: int| 0 <= j < view.len() && view[j] == "--process-helper"@;
        }
    }
    if !found {
        return Ok(None);
    }
    let mut pipe_name: Option<String> = None;
    let mut token: Option<String> = None;
    let mut index: usize = 0;
    while index < n
        invariant
            n == values@.len(),
            view == args_view(values@),
            view.len() == n,
            index <= n,
            scan_helper_args(view, index as int, crate::text::opt_chars(pipe_name), crate::text::opt_chars(token))
                == scan_helper_args(view, 0, None, None),
        decreases n - index,
    {
        assert(view[index as int] == values@[index as int]@);
        let ghost before = (index as int, crate::text::opt_chars(pipe_name), crate::text::opt_chars(token));
        if is_arg(&values[index], "--pipe") {
            pipe_name = if index + 1 < n {
                assert(view[index + 1] == values@[index + 1]@);
                Some(clone_string(&values[index + 1]))
            } else {
                None
            };
            index = if index + 1 < n { index + 2 } else { n };
        } else if is_arg(&values[index], "--token") {
            token = if index + 1 < n {
                assert(view[index + 1] == values@[index + 1]@);
                Some(clone_string(&values[index + 1]))
            } else {
                None
            };
            index = if index + 1 < n { index + 2 } else { n };
        } else {
            index = index + 1;
        }
        proof {
            let after = (index as int, crate::text::opt_chars(pipe_name), crate::text::opt_chars(token));
            assert(scan_helper_args(view, n as int + 1, after.1, after.2) == scan_helper_args(view, n as int, after.1, after.2));
            assert(scan_helper_args(view, before.0, before.1, before.2) == scan_helper_args(view, after.0, after.1, after.2));
        }
    }
    match pipe_name {
        None => Err(HelperArgsError::MissingPipe),
        Some(pipe_name) => match token {
            None => Err(HelperArgsError::MissingToken),
            Some(token) => Ok(Some(HelperConfig { pipe_name, token })),
        },
    }
}

/// The name of the pipe a monitor with process id `pid` opens at `millis`
/// milliseconds since the Unix epoch.
pub open spec fn pipe_name_text(pid: nat, millis: nat) -> Seq<char> {
    "netmonitor-"@ + decimal(pid) + "-"@ + decimal(millis)
}

/// The token a monitor with process id `pid` hands its helper at `millis`.
pub open spec fn token_text(pid: nat, millis: nat) -> Seq<char> {
    decimal(pid) + "-"@ + decimal(millis)
}

/// The pipe name for this monitor process and time.
pub fn helper_pipe_name(pid: u32, millis: u128) -> (r: String)
    ensures
        r@ == pipe_name_text(pid as nat, millis as nat),
{
    let mut s = String::from_str("netmonitor-");
    push_decimal(&mut s, pid as u128);
    s.append("-");
    push_decimal(&mut s, millis);
    s
}

/// The handshake token for this monitor process and time.
pub fn helper_token(pid: u32, millis: u64) -> (r: String)
    ensures
        r@ == token_text(pid as nat, millis as nat),
{
    let mut s = String::new();
    push_decimal(&mut s, pid as u128);
    s.append("-");
    push_decimal(&mut s, millis as u128);
    s
}

/// The command-line parameters the elevated helper is started with.
pub open spec fn helper_parameters_text(pipe: Seq<char>, token: Seq<char>) -> Seq<char> {
    "--process-helper --pipe \""@ + pipe + "\" --token \""@ + token + "\""@
}

/// The parameters that start the program as the helper for this pipe and token.
pub fn helper_parameters(pipe_name: &str, token: &str) -> (r: String)
    ensures
        r@ == helper_parameters_text(pipe_name@, token@),
{
    let mut s = String::from_str("--process-helper --pipe \"");
    s.append(pipe_name);
    s.append("\" --token \"");
    s.append(token);
    s.append("\"");
    s
}

/// The helper's first report after its greeting: ready, or the reason the
/// kernel trace could not start.
pub fn startup_report(trace_error: Option<String>) -> (r: HelperMessage)
    ensures
        match trace_error {
            None => r is Ready,
            Some(e) => r matches HelperMessage::Error { message } && message@ == "ETW 启动失败: "@ + e@,
        },
{
    match trace_error {
        None => HelperMessage::Ready,
        Some(e) => {
            let mut message = String::from_str("ETW 启动失败: ");
            message.append(e.as_str());
            HelperMessage::Error { message }
        },
    }
}

/// The report the helper tries to send when sending its data failed.
pub fn send_failure_report(error: &str) -> (r: HelperMessage)
    ensures
        r matches HelperMessage::Error { message } && message@ == "发送进程监控数据失败: "@ + error@,
{
    let mut message = String::from_str("发送进程监控数据失败: ");
    message.append(error);
    HelperMessage::Error { message }
}

/// The periodic report of per-process rates.
pub fn processes_report(sampled_at: u64, processes: Vec<ProcessSnapshot>) -> (r: HelperMessage)
    ensures
        r == (HelperMessage::Processes { sampled_at, processes }),
{
    HelperMessage::Processes { sampled_at, processes }
}

/// One outcome of the helper reading a line from the monitor.
#[derive(Debug, Clone, Copy, PartialEq, Eq, Structural)]
pub enum CommandLine {
    /// The monitor closed the connection.
    Closed,
    /// A well-formed command.
    Command(HelperCommand),
    /// A line that is not a command.
    Malformed,
    /// Reading failed.
    ReadFailed,
}

/// Whether a line from the monitor stops the helper's monitoring: a closed
/// connection or a shutdown command does; a malformed line or a failed read
/// only ends the helper's reading, and monitoring goes on. No line lets
/// reading go on, since the only command is to shut down.
pub fn command_stops_helper(line: CommandLine) -> (r: bool)
    ensures
        r == (line == CommandLine::Closed || line == CommandLine::Command(HelperCommand::Shutdown)),
{
    match line {
        CommandLine::Closed => true,
        CommandLine::Command(HelperCommand::Shutdown) => true,
        CommandLine::Malformed => false,
        CommandLine::ReadFailed => false,
    }
}

/// The helper started with the parameters the monitor builds reads back the
/// same pipe and token: for any program name, any pipe name and any token,
/// the arguments `program --process-helper --pipe <pipe> --token <token>`
/// make the program run as the helper of that pipe with that token.
pub proof fn lemma_helper_args_round_trip(program: Seq<char>, pipe: Seq<char>, token: Seq<char>)
    ensures
        helper_args_outcome(seq![program, "--process-helper"@, "--pipe"@, pipe, "--token"@, token]) == Ok::<
            Option<(Seq<char>, Seq<char>)>,
            HelperArgsError,
        >(Some((pipe, token))),
{
    reveal_strlit("--process-helper");
    reveal_strlit("--pipe");
    reveal_strlit("--token");
    let values = seq![program, "--process-helper"@, "--pipe"@, pipe, "--token"@, token];
    assert(values[1] == "--process-helper"@);
    assert(values.contains("--process-helper"@));
    assert("--process-helper"@.len() != "--pipe"@.len());
    assert("--process-helper"@.len() != "--token"@.len());
    assert("--pipe"@[2] != "--token"@[2]);
    let after_token = scan_helper_args(values, 6, Some(pipe), Some(token));
    assert(after_token == (Some(pipe), Some(token)));
    assert(scan_helper_args(values, 4, Some(pipe), None) == after_token);
    assert(scan_helper_args(values, 2, None, None) == scan_helper_args(values, 4, Some(pipe), None));
    if program == "--pipe"@ {
        assert(scan_helper_args(values, 0, None, None) == scan_helper_args(values, 2, Some(values[1]), None));
        assert(scan_helper_args(values, 2, Some(values[1]), None) == scan_helper_args(values, 4, Some(pipe), None));
    } else if program == "--token"@ {
        assert(scan_helper_args(values, 0, None, None) == scan_helper_args(values, 2, None, Some(values[1])));
        assert(scan_helper_args(values, 2, None, Some(values[1])) == scan_helper_args(values, 4, Some(pipe), Some(values[1])));
        assert(scan_helper_args(values, 4, Some(pipe), Some(values[1])) == after_token);
    } else {
        assert(scan_helper_args(values, 0, None, None) == scan_helper_args(values, 1, None, None));
        assert(scan_helper_args(values, 1, None, None) == scan_helper_args(values, 2, None, None));
    }
}

} // verus!
