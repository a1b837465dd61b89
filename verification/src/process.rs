//! Command parsing, signals, the restart policy and the decisions taken when
//! a managed process exits.
use vstd::prelude::*;
use vstd::arithmetic::power2::{pow2, lemma_pow2_unfold, lemma_pow2_strictly_increases};
use crate::config::{ProcessConfig, ProcessConfigView, RestartPolicy, EnvVars, vars_view, opt_vars_view, vars_or_empty};
use crate::protocol::ProcessStatus;
use crate::text::{concat2, i32_decimal, int_decimal, is_prefix, owned, push_char, starts_with, str_eq, strs_view};

pub mod windows;

verus! {

pub const DEFAULT_KILL_TIMEOUT_MS: u64 = 5000;
pub const DEFAULT_MAX_RESTARTS: u32 = 15;
pub const BACKOFF_BASE_MS: u64 = 100;
pub const BACKOFF_CAP_MS: u64 = 30_000;
pub const DEFAULT_MIN_UPTIME_MS: u64 = 1000;
pub const SPAWN_VERIFY_DELAY_MS: u64 = 50;

#[verifier::external_type_specification]
#[verifier::external_body]
pub struct ExIoError(std::io::Error);

#[verifier::external_type_specification]
#[verifier::external_body]
pub struct ExNixSignal(nix::sys::signal::Signal);

/// Why an operation on a process failed.
#[derive(Debug)]
pub enum ProcessError {
    InvalidCommand(String),
    SpawnFailed(std::io::Error),
    NotFound(String),
    InvalidSignal(String),
    EnvFile(String),
    HookFailed(String),
    ImmediateExit { exit_code: Option<i32> },
}

/// `Display` of `std::io::Error`: the operating system's description of the
/// error; nothing is claimed of its text.
#[verifier::external_body]
fn io_error_text(e: &std::io::Error) -> String {
    e.to_string()
}

/// The `Debug` notation of an optional exit code: `Some(<code>)` or `None`.
pub open spec fn opt_code_debug(code: Option<i32>) -> Seq<char> {
    match code {
        Some(c) => "Some("@ + int_decimal(c as int) + ")"@,
        None => "None"@,
    }
}

/// The message of an error, for every kind but a failed spawn (whose text
/// comes from the operating system).
pub open spec fn error_text(e: ProcessError) -> Option<Seq<char>> {
    match e {
        ProcessError::InvalidCommand(s) => Some("invalid command: "@ + s@),
        ProcessError::SpawnFailed(_) => None,
        ProcessError::NotFound(s) => Some("process not found: "@ + s@),
        ProcessError::InvalidSignal(s) => Some("invalid signal: "@ + s@),
        ProcessError::EnvFile(s) => Some("env file error: "@ + s@),
        ProcessError::HookFailed(s) => Some("hook failed: "@ + s@),
        ProcessError::ImmediateExit { exit_code } =>
            Some("process exited immediately (exit code: "@ + opt_code_debug(exit_code) + ")"@),
    }
}

impl ProcessError {
    /// The message of the error.
    pub fn message(&self) -> (r: String)
        ensures
            error_text(*self) matches Some(t) ==> r@ == t,
            self is SpawnFailed ==> is_prefix("failed to spawn process: "@, r@),
    {
        proof {
            reveal_strlit("invalid command: ");
            reveal_strlit("failed to spawn process: ");
            reveal_strlit("process not found: ");
            reveal_strlit("invalid signal: ");
            reveal_strlit("env file error: ");
            reveal_strlit("hook failed: ");
            reveal_strlit("process exited immediately (exit code: ");
            reveal_strlit("Some(");
            reveal_strlit(")");
            reveal_strlit("None");
        }
        match self {
            ProcessError::InvalidCommand(s) => concat2("invalid command: ", s.as_str()),
            ProcessError::SpawnFailed(e) => {
                let t = io_error_text(e);
                let r = concat2("failed to spawn process: ", t.as_str());
                assert(r@.subrange(0, "failed to spawn process: "@.len() as int) =~= "failed to spawn process: "@);
                r
            },
            ProcessError::NotFound(s) => concat2("process not found: ", s.as_str()),
            ProcessError::InvalidSignal(s) => concat2("invalid signal: ", s.as_str()),
            ProcessError::EnvFile(s) => concat2("env file error: ", s.as_str()),
            ProcessError::HookFailed(s) => concat2("hook failed: ", s.as_str()),
            ProcessError::ImmediateExit { exit_code } => {
                let code = match exit_code {
                    Some(c) => {
                        let n = i32_decimal(*c);
                        let a = concat2("Some(", n.as_str());
                        concat2(a.as_str(), ")")
                    },
                    None => owned("None"),
                };
                let a = concat2("process exited immediately (exit code: ", code.as_str());
                let r = concat2(a.as_str(), ")");
                assert(r@ =~= "process exited immediately (exit code: "@ + opt_code_debug(*exit_code) + ")"@);
                r
            },
        }
    }
}

/// The words of a command line by POSIX shell rules, as `shell_words::split`
/// gives them (`None` where a quote is left open).
pub uninterp spec fn shell_split(s: Seq<char>) -> Option<Seq<Seq<char>>>;

/// `shell_words::split`: the words of `s` by POSIX shell quoting rules, or the
/// text of its only error, "missing closing quote". Besides naming the
/// result, the contract states what the crate's source plainly shows: a
/// string of spaces, tabs and line feeds alone has no words.
#[verifier::external_body]
fn split_words(s: &str) -> (r: Result<Vec<String>, String>)
    ensures
        r is Ok ==> shell_split(s@) == Some(strs_view(r->Ok_0@)),
        r is Err ==> shell_split(s@) is None && r->Err_0@ == "missing closing quote"@,
        r is Ok && r->Ok_0@.len() == 0 <== (forall|i: int| 0 <= i < s@.len()
            ==> #[trigger] s@[i] == ' ' || s@[i] == '\t' || s@[i] == '\n'),
{
    shell_words::split(s).map_err(|e| e.to_string())
}

/// What a command line is parsed into, given its words (or the splitter's
/// error text): the program and its arguments, or the text of an
/// `InvalidCommand` error.
pub open spec fn command_of_words(words: Result<Seq<Seq<char>>, Seq<char>>) -> Result<(Seq<char>, Seq<Seq<char>>), Seq<char>> {
    match words {
        Err(m) => Err("failed to parse: "@ + m),
        Ok(ws) => if ws.len() == 0 {
            Err("command is empty"@)
        } else {
            Ok((ws[0], ws.skip(1)))
        },
    }
}

/// Whether a parse result agrees with `command_of_words`.
pub open spec fn parsed_as(r: Result<(String, Vec<String>), ProcessError>, expected: Result<(Seq<char>, Seq<Seq<char>>), Seq<char>>) -> bool {
    match expected {
        Ok((p, a)) => r matches Ok((prog, args)) && prog@ == p && strs_view(args@) == a,
        Err(m) => r matches Err(ProcessError::InvalidCommand(t)) && t@ == m,
    }
}

/// Builds the program and arguments from the words of a command line, or
/// the error for a command that could not be split or has no words.
pub fn command_from_words(words: Result<Vec<String>, String>) -> (r: Result<(String, Vec<String>), ProcessError>)
    ensures
        parsed_as(r, command_of_words(match words {
            Ok(v) => Ok(strs_view(v@)),
            Err(m) => Err(m@),
        })),
{
    proof {
        reveal_strlit("failed to parse: ");
        reveal_strlit("command is empty");
    }
    match words {
        Err(m) => Err(ProcessError::InvalidCommand(concat2("failed to parse: ", m.as_str()))),
        Ok(ws) => {
            if ws.len() == 0 {
                return Err(ProcessError::InvalidCommand(owned("command is empty")));
            }
            let program = ws[0].clone();
            let mut args: Vec<String> = Vec::new();
            let mut i: usize = 1;
            while i < ws.len()
                invariant
                    1 <= i <= ws@.len(),
                    strs_view(args@) == strs_view(ws@).subrange(1, i as int),
                decreases ws@.len() - i,
            {
                let ghost a0 = args@;
                args.push(ws[i].clone());
                proof {
                    assert(strs_view(args@) =~= strs_view(a0).push(ws@[i as int]@));
                    assert(strs_view(args@) =~= strs_view(ws@).subrange(1, i + 1));
                }
                i = i + 1;
            }
            proof {
                assert(strs_view(ws@).subrange(1, i as int) =~= strs_view(ws@).skip(1));
            }
            Ok((program, args))
        },
    }
}

/// Parses a command line into a program and its arguments by POSIX shell
/// word-splitting rules. A blank command (empty, or spaces, tabs and line
/// feeds only) is the error "command is empty".
pub fn parse_command(command: &str) -> (r: Result<(String, Vec<String>), ProcessError>)
    ensures
        parsed_as(r, command_of_words(match shell_split(command@) {
            Some(ws) => Ok(ws),
            None => Err("missing closing quote"@),
        })),
        (forall|i: int| 0 <= i < command@.len() ==> #[trigger] command@[i] == ' ' || command@[i] == '\t' || command@[i] == '\n')
            ==> (r matches Err(ProcessError::InvalidCommand(t)) && t@ == "command is empty"@),
{
    let words = split_words(command);
    command_from_words(words)
}

/// The signal names that nix knows on every platform it supports.
pub open spec fn common_signal_name(n: Seq<char>) -> bool {
    ||| n == "SIGHUP"@ ||| n == "SIGINT"@ ||| n == "SIGQUIT"@ ||| n == "SIGILL"@
    ||| n == "SIGTRAP"@ ||| n == "SIGABRT"@ ||| n == "SIGBUS"@ ||| n == "SIGFPE"@
    ||| n == "SIGKILL"@ ||| n == "SIGUSR1"@ ||| n == "SIGSEGV"@ ||| n == "SIGUSR2"@
    ||| n == "SIGPIPE"@ ||| n == "SIGALRM"@ ||| n == "SIGTERM"@ ||| n == "SIGCHLD"@
    ||| n == "SIGCONT"@ ||| n == "SIGSTOP"@ ||| n == "SIGTSTP"@ ||| n == "SIGTTIN"@
    ||| n == "SIGTTOU"@ ||| n == "SIGURG"@ ||| n == "SIGXCPU"@ ||| n == "SIGXFSZ"@
    ||| n == "SIGVTALRM"@ ||| n == "SIGPROF"@ ||| n == "SIGWINCH"@ ||| n == "SIGSYS"@
}

/// The signal names that nix knows on at least one platform: the common
/// ones and those some platforms add.
pub open spec fn platform_signal_name(n: Seq<char>) -> bool {
    ||| common_signal_name(n)
    ||| n == "SIGSTKFLT"@ ||| n == "SIGIO"@ ||| n == "SIGPWR"@ ||| n == "SIGEMT"@ ||| n == "SIGINFO"@
}

/// `FromStr` of `nix::sys::signal::Signal`: the signal with that exact name
/// (such as `SIGTERM`), if the platform has one. Which names exist depends on
/// the platform; the contract claims what holds on every one: a name nix
/// knows everywhere is found, and nothing is found under a name that nix
/// knows on no platform. Which signal comes back is left unsaid, since the
/// signal is opaque here.
#[verifier::external_body]
fn nix_signal_named(name: &str) -> (r: Option<nix::sys::signal::Signal>)
    ensures
        common_signal_name(name@) ==> r is Some,
        r is Some ==> platform_signal_name(name@),
{
    <nix::sys::signal::Signal as std::str::FromStr>::from_str(name).ok()
}

/// A signal name with the `SIG` prefix added where it is missing.
pub open spec fn full_signal_name(name: Seq<char>) -> Seq<char> {
    if is_prefix("SIG"@, name) { name } else { "SIG"@ + name }
}

/// Adds the `SIG` prefix to a signal name that lacks it.
pub fn normalize_signal_name(name: &str) -> (r: String)
    ensures
        r@ == full_signal_name(name@),
{
    proof { reveal_strlit("SIG"); }
    if starts_with(name, "SIG") {
        owned(name)
    } else {
        concat2("SIG", name)
    }
}

/// A Unix signal, by the name nix gives it.
#[allow(non_camel_case_types, clippy::upper_case_acronyms)]
#[derive(Debug, Clone, Copy, PartialEq, Eq, Structural)]
pub enum UnixSignal {
    SIGHUP,
    SIGINT,
    SIGQUIT,
    SIGILL,
    SIGTRAP,
    SIGABRT,
    SIGBUS,
    SIGFPE,
    SIGKILL,
    SIGUSR1,
    SIGSEGV,
    SIGUSR2,
    SIGPIPE,
    SIGALRM,
    SIGTERM,
    SIGCHLD,
    SIGCONT,
    SIGSTOP,
    SIGTSTP,
    SIGTTIN,
    SIGTTOU,
    SIGURG,
    SIGXCPU,
    SIGXFSZ,
    SIGVTALRM,
    SIGPROF,
    SIGWINCH,
    SIGSYS,
    SIGSTKFLT,
    SIGIO,
    SIGPWR,
    SIGEMT,
    SIGINFO,
}

/// The name of a signal.
pub open spec fn signal_text(s: UnixSignal) -> Seq<char> {
    match s {
        UnixSignal::SIGHUP => "SIGHUP"@,
        UnixSignal::SIGINT => "SIGINT"@,
        UnixSignal::SIGQUIT => "SIGQUIT"@,
        UnixSignal::SIGILL => "SIGILL"@,
        UnixSignal::SIGTRAP => "SIGTRAP"@,
        UnixSignal::SIGABRT => "SIGABRT"@,
        UnixSignal::SIGBUS => "SIGBUS"@,
        UnixSignal::SIGFPE => "SIGFPE"@,
        UnixSignal::SIGKILL => "SIGKILL"@,
        UnixSignal::SIGUSR1 => "SIGUSR1"@,
        UnixSignal::SIGSEGV => "SIGSEGV"@,
        UnixSignal::SIGUSR2 => "SIGUSR2"@,
        UnixSignal::SIGPIPE => "SIGPIPE"@,
        UnixSignal::SIGALRM => "SIGALRM"@,
        UnixSignal::SIGTERM => "SIGTERM"@,
        UnixSignal::SIGCHLD => "SIGCHLD"@,
        UnixSignal::SIGCONT => "SIGCONT"@,
        UnixSignal::SIGSTOP => "SIGSTOP"@,
        UnixSignal::SIGTSTP => "SIGTSTP"@,
        UnixSignal::SIGTTIN => "SIGTTIN"@,
        UnixSignal::SIGTTOU => "SIGTTOU"@,
        UnixSignal::SIGURG => "SIGURG"@,
        UnixSignal::SIGXCPU => "SIGXCPU"@,
        UnixSignal::SIGXFSZ => "SIGXFSZ"@,
        UnixSignal::SIGVTALRM => "SIGVTALRM"@,
        UnixSignal::SIGPROF => "SIGPROF"@,
        UnixSignal::SIGWINCH => "SIGWINCH"@,
        UnixSignal::SIGSYS => "SIGSYS"@,
        UnixSignal::SIGSTKFLT => "SIGSTKFLT"@,
        UnixSignal::SIGIO => "SIGIO"@,
        UnixSignal::SIGPWR => "SIGPWR"@,
        UnixSignal::SIGEMT => "SIGEMT"@,
        UnixSignal::SIGINFO => "SIGINFO"@,
    }
}

impl UnixSignal {
    /// The signal's name, such as `SIGTERM`.
    pub fn name(&self) -> (r: &'static str)
        ensures
            r@ == signal_text(*self),
    {
        match self {
            UnixSignal::SIGHUP => "SIGHUP",
            UnixSignal::SIGINT => "SIGINT",
            UnixSignal::SIGQUIT => "SIGQUIT",
            UnixSignal::SIGILL => "SIGILL",
            UnixSignal::SIGTRAP => "SIGTRAP",
            UnixSignal::SIGABRT => "SIGABRT",
            UnixSignal::SIGBUS => "SIGBUS",
            UnixSignal::SIGFPE => "SIGFPE",
            UnixSignal::SIGKILL => "SIGKILL",
            UnixSignal::SIGUSR1 => "SIGUSR1",
            UnixSignal::SIGSEGV => "SIGSEGV",
            UnixSignal::SIGUSR2 => "SIGUSR2",
            UnixSignal::SIGPIPE => "SIGPIPE",
            UnixSignal::SIGALRM => "SIGALRM",
            UnixSignal::SIGTERM => "SIGTERM",
            UnixSignal::SIGCHLD => "SIGCHLD",
            UnixSignal::SIGCONT => "SIGCONT",
            UnixSignal::SIGSTOP => "SIGSTOP",
            UnixSignal::SIGTSTP => "SIGTSTP",
            UnixSignal::SIGTTIN => "SIGTTIN",
            UnixSignal::SIGTTOU => "SIGTTOU",
            UnixSignal::SIGURG => "SIGURG",
            UnixSignal::SIGXCPU => "SIGXCPU",
            UnixSignal::SIGXFSZ => "SIGXFSZ",
            UnixSignal::SIGVTALRM => "SIGVTALRM",
            UnixSignal::SIGPROF => "SIGPROF",
            UnixSignal::SIGWINCH => "SIGWINCH",
            UnixSignal::SIGSYS => "SIGSYS",
            UnixSignal::SIGSTKFLT => "SIGSTKFLT",
            UnixSignal::SIGIO => "SIGIO",
            UnixSignal::SIGPWR => "SIGPWR",
            UnixSignal::SIGEMT => "SIGEMT",
            UnixSignal::SIGINFO => "SIGINFO",
        }
    }
}

/// The signal named `full` (a name with its `SIG` prefix), if it is one
/// that nix knows on some platform.
fn signal_named(full: &str) -> (r: Option<UnixSignal>)
    ensures
        r is Some <==> platform_signal_name(full@),
        r matches Some(s) ==> signal_text(s) == full@,
{
    if str_eq(full, "SIGHUP") {
        return Some(UnixSignal::SIGHUP);
    }
    if str_eq(full, "SIGINT") {
        return Some(UnixSignal::SIGINT);
    }
    if str_eq(full, "SIGQUIT") {
        return Some(UnixSignal::SIGQUIT);
    }
    if str_eq(full, "SIGILL") {
        return Some(UnixSignal::SIGILL);
    }
    if str_eq(full, "SIGTRAP") {
        return Some(UnixSignal::SIGTRAP);
    }
    if str_eq(full, "SIGABRT") {
        return Some(UnixSignal::SIGABRT);
    }
    if str_eq(full, "SIGBUS") {
        return Some(UnixSignal::SIGBUS);
    }
    if str_eq(full, "SIGFPE") {
        return Some(UnixSignal::SIGFPE);
    }
    if str_eq(full, "SIGKILL") {
        return Some(UnixSignal::SIGKILL);
    }
    if str_eq(full, "SIGUSR1") {
        return Some(UnixSignal::SIGUSR1);
    }
    if str_eq(full, "SIGSEGV") {
        return Some(UnixSignal::SIGSEGV);
    }
    if str_eq(full, "SIGUSR2") {
        return Some(UnixSignal::SIGUSR2);
    }
    if str_eq(full, "SIGPIPE") {
        return Some(UnixSignal::SIGPIPE);
    }
    if str_eq(full, "SIGALRM") {
        return Some(UnixSignal::SIGALRM);
    }
    if str_eq(full, "SIGTERM") {
        return Some(UnixSignal::SIGTERM);
    }
    if str_eq(full, "SIGCHLD") {
        return Some(UnixSignal::SIGCHLD);
    }
    if str_eq(full, "SIGCONT") {
        return Some(UnixSignal::SIGCONT);
    }
    if str_eq(full, "SIGSTOP") {
        return Some(UnixSignal::SIGSTOP);
    }
    if str_eq(full, "SIGTSTP") {
        return Some(UnixSignal::SIGTSTP);
    }
    if str_eq(full, "SIGTTIN") {
        return Some(UnixSignal::SIGTTIN);
    }
    if str_eq(full, "SIGTTOU") {
        return Some(UnixSignal::SIGTTOU);
    }
    if str_eq(full, "SIGURG") {
        return Some(UnixSignal::SIGURG);
    }
    if str_eq(full, "SIGXCPU") {
        return Some(UnixSignal::SIGXCPU);
    }
    if str_eq(full, "SIGXFSZ") {
        return Some(UnixSignal::SIGXFSZ);
    }
    if str_eq(full, "SIGVTALRM") {
        return Some(UnixSignal::SIGVTALRM);
    }
    if str_eq(full, "SIGPROF") {
        return Some(UnixSignal::SIGPROF);
    }
    if str_eq(full, "SIGWINCH") {
        return Some(UnixSignal::SIGWINCH);
    }
    if str_eq(full, "SIGSYS") {
        return Some(UnixSignal::SIGSYS);
    }
    if str_eq(full, "SIGSTKFLT") {
        return Some(UnixSignal::SIGSTKFLT);
    }
    if str_eq(full, "SIGIO") {
        return Some(UnixSignal::SIGIO);
    }
    if str_eq(full, "SIGPWR") {
        return Some(UnixSignal::SIGPWR);
    }
    if str_eq(full, "SIGEMT") {
        return Some(UnixSignal::SIGEMT);
    }
    if str_eq(full, "SIGINFO") {
        return Some(UnixSignal::SIGINFO);
    }
    None
}

/// Parses a signal name, with or without the `SIG` prefix (`TERM` or
/// `SIGTERM`), into the signal of that name, if nix knows it on this
/// platform. The error names the input as given.
pub fn parse_signal(name: &str) -> (r: Result<UnixSignal, ProcessError>)
    ensures
        r matches Ok(s) ==> signal_text(s) == full_signal_name(name@),
        common_signal_name(full_signal_name(name@)) ==> r is Ok,
        r is Ok ==> platform_signal_name(full_signal_name(name@)),
        r is Err ==> (r matches Err(ProcessError::InvalidSignal(t)) && t@ == name@),
{
    let full = normalize_signal_name(name);
    let known = nix_signal_named(full.as_str()).is_some();
    if known {
        match signal_named(full.as_str()) {
            Some(s) => Ok(s),
            None => Err(ProcessError::InvalidSignal(owned(name))),
        }
    } else {
        Err(ProcessError::InvalidSignal(owned(name)))
    }
}

/// The signal name used to stop a process: its `kill_signal`, else `SIGTERM`.
pub fn stop_signal_name(config: &ProcessConfig) -> (r: String)
    ensures
        r@ == (match config@.kill_signal { Some(s) => s, None => "SIGTERM"@ }),
{
    proof { reveal_strlit("SIGTERM"); }
    match &config.kill_signal {
        Some(s) => s.clone(),
        None => owned("SIGTERM"),
    }
}

/// How long a stopping process may take before it is killed, in
/// milliseconds: its `kill_timeout`, else 5000.
pub fn stop_timeout_ms(config: &ProcessConfig) -> (r: u64)
    ensures
        r == (match config@.kill_timeout { Some(t) => t, None => DEFAULT_KILL_TIMEOUT_MS }),
{
    match config.kill_timeout {
        Some(t) => t,
        None => DEFAULT_KILL_TIMEOUT_MS,
    }
}

/// Minimum uptime, in milliseconds, after which a process counts as stable.
pub open spec fn min_uptime_of(c: ProcessConfigView) -> u64 {
    match c.min_uptime { Some(m) => m, None => DEFAULT_MIN_UPTIME_MS }
}

/// Whether a process that exited with `exit_code`, having been restarted
/// `restarts` times, is started again under configuration `c`.
pub open spec fn restart_allowed(c: ProcessConfigView, exit_code: Option<i32>, restarts: u32) -> bool {
    let policy = match c.restart { Some(p) => p, None => RestartPolicy::OnFailure };
    let max = match c.max_restarts { Some(m) => m, None => DEFAULT_MAX_RESTARTS };
    if restarts >= max {
        false
    } else {
        match policy {
            RestartPolicy::Never => false,
            RestartPolicy::Always => true,
            RestartPolicy::OnFailure => match exit_code {
                Some(0) => false,
                Some(code) => !(c.stop_exit_codes matches Some(codes) && codes.contains(code)),
                None => true,
            },
        }
    }
}

/// Whether `code` is one of `codes`.
fn contains_code(codes: &Vec<i32>, code: i32) -> (r: bool)
    ensures
        r == codes@.contains(code),
{
    let mut i: usize = 0;
    while i < codes.len()
        invariant
            i <= codes@.len(),
            forall|k: int| 0 <= k < i ==> codes@[k] != code,
        decreases codes@.len() - i,
    {
        if codes[i] == code {
            assert(codes@[i as int] == code);
            return true;
        }
        i = i + 1;
    }
    false
}

/// Whether configuration `config` restarts a process that exited with
/// `exit_code` after `restarts` restarts.
fn policy_allows(config: &ProcessConfig, exit_code: Option<i32>, restarts: u32) -> (r: bool)
    ensures
        r == restart_allowed(config@, exit_code, restarts),
{
    let policy = match config.restart {
        Some(p) => p,
        None => RestartPolicy::OnFailure,
    };
    let max_restarts = match config.max_restarts {
        Some(m) => m,
        None => DEFAULT_MAX_RESTARTS,
    };
    if restarts >= max_restarts {
        return false;
    }
    match policy {
        RestartPolicy::Never => false,
        RestartPolicy::Always => true,
        RestartPolicy::OnFailure => match exit_code {
            Some(code) => {
                if code == 0 {
                    false
                } else {
                    match &config.stop_exit_codes {
                        Some(codes) => !contains_code(codes, code),
                        None => true,
                    }
                }
            },
            None => true,
        },
    }
}

/// Decides whether an exited process is restarted: never once `restarts`
/// reaches `max_restarts` (15 by default); otherwise by the policy
/// (`on_failure` by default): `never` never, `always` always, `on_failure`
/// after a non-zero exit code that is not one of `stop_exit_codes`, or after
/// a kill by signal (no exit code). The uptime plays no part here.
pub fn evaluate_restart_policy(
    config: &ProcessConfig,
    exit_code: Option<i32>,
    _uptime: std::time::Duration,
    restarts: u32,
) -> (r: bool)
    ensures
        r == restart_allowed(config@, exit_code, restarts),
{
    policy_allows(config, exit_code, restarts)
}

/// A restart allowed after `restarts` restarts is allowed after fewer.
pub proof fn law_restart_allowed_with_fewer_restarts(c: ProcessConfigView, exit_code: Option<i32>, fewer: u32, restarts: u32)
    requires
        fewer <= restarts,
        restart_allowed(c, exit_code, restarts),
    ensures
        restart_allowed(c, exit_code, fewer),
{
}

/// A process is never restarted more than `max_restarts` times in a row,
/// never under the `never` policy, and a clean exit is restarted only under
/// the `always` policy.
pub proof fn law_restart_bounds(c: ProcessConfigView, exit_code: Option<i32>, restarts: u32)
    ensures
        restart_allowed(c, exit_code, restarts) ==> restarts < (match c.max_restarts { Some(m) => m, None => DEFAULT_MAX_RESTARTS }),
        c.restart == Some(RestartPolicy::Never) ==> !restart_allowed(c, exit_code, restarts),
        (exit_code == Some(0i32) && restart_allowed(c, exit_code, restarts)) ==> c.restart == Some(RestartPolicy::Always),
{
}

/// The delay before restart number `restart_count`: 100 ms doubled for each
/// earlier restart, capped at 30 s.
pub open spec fn backoff_ms(restart_count: nat) -> nat {
    let d: nat = (BACKOFF_BASE_MS as nat) * pow2(restart_count);
    if d < BACKOFF_CAP_MS { d } else { BACKOFF_CAP_MS as nat }
}

/// The delay before a restart, in milliseconds: `100 * 2^restart_count`,
/// capped at 30000.
pub fn compute_backoff(restart_count: u32) -> (ms: u64)
    ensures
        ms == backoff_ms(restart_count as nat),
{
    let mut ms: u64 = BACKOFF_BASE_MS;
    let mut i: u32 = 0;
    proof { vstd::arithmetic::power2::lemma_pow2(0); reveal(vstd::arithmetic::power::pow); }
    while i < restart_count && ms < BACKOFF_CAP_MS
        invariant
            i <= restart_count,
            ms == BACKOFF_BASE_MS * pow2(i as nat),
            ms < 2 * BACKOFF_CAP_MS,
        decreases restart_count - i,
    {
        proof { lemma_pow2_unfold((i + 1) as nat); }
        ms = ms * 2;
        i = i + 1;
    }
    proof {
        if i < restart_count {
            lemma_pow2_strictly_increases(i as nat, restart_count as nat);
        }
    }
    if ms < BACKOFF_CAP_MS { ms } else { BACKOFF_CAP_MS }
}

/// The backoff never exceeds 30 s, is at least 100 ms, never shrinks as
/// restarts accumulate, and doubles per restart until it reaches the cap.
pub proof fn law_backoff_shape(n: nat, m: nat)
    ensures
        BACKOFF_BASE_MS <= backoff_ms(n) <= BACKOFF_CAP_MS,
        n <= m ==> backoff_ms(n) <= backoff_ms(m),
        backoff_ms(n + 1) == (if 2 * backoff_ms(n) < BACKOFF_CAP_MS { 2 * backoff_ms(n) } else { BACKOFF_CAP_MS as nat }),
{
    vstd::arithmetic::power2::lemma_pow2_pos(n);
    lemma_pow2_unfold(n + 1);
    if n < m {
        lemma_pow2_strictly_increases(n, m);
    }
}

/// The status of a process just after it was spawned: `exited` is its exit
/// code if it has already exited (`Some(None)` when killed by a signal), and
/// `None` while it runs or when that cannot be told.
pub fn status_after_spawn(exited: Option<Option<i32>>, has_health_check: bool) -> (s: ProcessStatus)
    ensures
        s == (match exited {
            Some(code) => if code == Some(0i32) { ProcessStatus::Stopped } else { ProcessStatus::Errored },
            None => if has_health_check { ProcessStatus::Starting } else { ProcessStatus::Online },
        }),
{
    match exited {
        Some(code) => match code {
            Some(c) => if c == 0 { ProcessStatus::Stopped } else { ProcessStatus::Errored },
            None => ProcessStatus::Errored,
        },
        None => if has_health_check { ProcessStatus::Starting } else { ProcessStatus::Online },
    }
}

/// The environment a process is launched with, beyond the inherited one:
/// the variables of its env files, overridden by its `env`.
pub fn launch_env(config: &ProcessConfig, file_vars: &EnvVars) -> (r: EnvVars)
    requires
        config.wf(),
        file_vars.wf(),
    ensures
        r.wf(),
        vars_view(r) == vars_view(*file_vars).union_prefer_right(vars_or_empty(opt_vars_view(config.env))),
{
    let mut r = file_vars.duplicate();
    match &config.env {
        Some(env) => crate::config::merge_vars(&mut r, env),
        None => {
            assert(vars_view(r).union_prefer_right(Map::empty()) =~= vars_view(r));
        },
    }
    r
}

/// The error of a hook that exited unsuccessfully (`code` is `None` when it
/// was killed by a signal, shown as -1).
pub fn hook_failure(hook: &str, code: Option<i32>) -> (e: ProcessError)
    ensures
        e matches ProcessError::HookFailed(t) && t@ == "pre_start '"@ + hook@ + "' exited with code "@
            + int_decimal(match code { Some(c) => c as int, None => -1 }),
{
    proof {
        reveal_strlit("pre_start '");
        reveal_strlit("' exited with code ");
    }
    let c = match code { Some(c) => c, None => -1 };
    let a = concat2("pre_start '", hook);
    let b = concat2(a.as_str(), "' exited with code ");
    let n = i32_decimal(c);
    let t = concat2(b.as_str(), n.as_str());
    ProcessError::HookFailed(t)
}

/// What becomes of a managed process whose child exited.
#[derive(Debug, PartialEq, Eq, Structural)]
pub enum ExitAction {
    /// The exit is of a process that was replaced since: nothing changes.
    Ignore,
    /// No restart: the process gets `status`, loses its pid, and keeps
    /// `restarts` as its restart count.
    Settle { status: ProcessStatus, restarts: u32 },
    /// Restart: the process loses its pid and keeps `restarts` as its count;
    /// after `backoff_ms` (and unless a stop was requested meanwhile) it is
    /// spawned again with restart count `next_restarts`.
    Restart { restarts: u32, backoff_ms: u64, next_restarts: u32 },
}

/// The restart count after an exit: reset to 0 when the process ran for at
/// least its minimum uptime.
pub open spec fn count_after_exit(c: ProcessConfigView, uptime_ms: u128, restarts: u32) -> u32 {
    if uptime_ms >= min_uptime_of(c) as u128 { 0 } else { restarts }
}

/// The decision taken when a child exits.
pub open spec fn exit_action(current_pid: Option<u32>, monitored_pid: Option<u32>, stop_requested: bool,
    uptime_ms: u128, c: ProcessConfigView, restarts: u32, exit_code: Option<i32>) -> ExitAction
{
    if current_pid != monitored_pid {
        ExitAction::Ignore
    } else if stop_requested {
        ExitAction::Settle { status: ProcessStatus::Stopped, restarts }
    } else {
        let n = count_after_exit(c, uptime_ms, restarts);
        if restart_allowed(c, exit_code, n) {
            ExitAction::Restart { restarts: n, backoff_ms: backoff_ms(n as nat) as u64, next_restarts: (n + 1) as u32 }
        } else {
            ExitAction::Settle {
                status: if exit_code == Some(0i32) { ProcessStatus::Stopped } else { ProcessStatus::Errored },
                restarts: n,
            }
        }
    }
}

/// Decides what happens when the child of a managed process exits.
/// `current_pid` is the pid the process table holds now, `monitored_pid` the
/// one that exited, `stop_requested` whether a stop was signalled,
/// `uptime_ms` how long the child ran.
pub fn decide_child_exit(
    current_pid: Option<u32>,
    monitored_pid: Option<u32>,
    stop_requested: bool,
    uptime_ms: u128,
    config: &ProcessConfig,
    restarts: u32,
    exit_code: Option<i32>,
) -> (a: ExitAction)
    ensures
        a == exit_action(current_pid, monitored_pid, stop_requested, uptime_ms, config@, restarts, exit_code),
{
    if current_pid != monitored_pid {
        return ExitAction::Ignore;
    }
    if stop_requested {
        return ExitAction::Settle { status: ProcessStatus::Stopped, restarts };
    }
    let min_uptime: u64 = match config.min_uptime {
        Some(m) => m,
        None => DEFAULT_MIN_UPTIME_MS,
    };
    let n: u32 = if uptime_ms >= min_uptime as u128 { 0 } else { restarts };
    let should_restart = policy_allows(config, exit_code, n);
    if should_restart {
        let backoff = compute_backoff(n);
        ExitAction::Restart { restarts: n, backoff_ms: backoff, next_restarts: n + 1 }
    } else {
        let status = match exit_code {
            Some(c) => if c == 0 { ProcessStatus::Stopped } else { ProcessStatus::Errored },
            None => ProcessStatus::Errored,
        };
        ExitAction::Settle { status, restarts: n }
    }
}

/// A restart is scheduled only where the restart policy allows it, the new
/// count is one more than the stored one and stays within `max_restarts`,
/// and the exit of a replaced process changes nothing.
pub proof fn law_child_exit(current_pid: Option<u32>, monitored_pid: Option<u32>, stop_requested: bool,
    uptime_ms: u128, c: ProcessConfigView, restarts: u32, exit_code: Option<i32>)
    ensures
        ({
            let a = exit_action(current_pid, monitored_pid, stop_requested, uptime_ms, c, restarts, exit_code);
            &&& current_pid != monitored_pid ==> a == ExitAction::Ignore
            &&& stop_requested && current_pid == monitored_pid ==> a == ExitAction::Settle { status: ProcessStatus::Stopped, restarts }
            &&& a matches ExitAction::Restart { restarts: n, backoff_ms: b, next_restarts: m } ==> {
                &&& restart_allowed(c, exit_code, n)
                &&& m == n + 1
                &&& m <= (match c.max_restarts { Some(x) => x, None => DEFAULT_MAX_RESTARTS })
                &&& b as nat == backoff_ms(n as nat)
                &&& (n == 0 || n == restarts)
            }
        }),
{
}

} // verus!
