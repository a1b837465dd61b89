//! What the command-line client computes around a request: the request for
//! a subcommand, and how answers are shown.
use vstd::prelude::*;
use crate::cli::Command;
use crate::config::ProcessConfig;
use crate::protocol::Request;
use crate::strmap::StrMap;
use crate::text::{concat2, decimal, decimal_string, owned, push_char};

verus! {

/// Whether a list of processes is shown after the answer to `request`
/// (after starting, stopping, restarting or reloading).
pub fn should_auto_list(request: &Request) -> (r: bool)
    ensures
        r == (request is Start || request is Stop || request is Restart || request is Reload),
{
    match request {
        Request::Start { .. } | Request::Stop { .. } | Request::Restart { .. } | Request::Reload { .. } => true,
        _ => false,
    }
}

/// The request for a subcommand. `configs` is the configuration read from
/// `pm3.toml` (used by `start` only) and `path` the client's `PATH` (sent by
/// `start`, `reload` and `resurrect`). Subcommands that the client carries
/// out alone have no request.
pub fn command_to_request(command: Command, configs: StrMap<ProcessConfig>, path: Option<String>) -> (r: Request)
    requires
        !command.is_local(),
    ensures
        match command {
            Command::Start { names, env, wait } => r == Request::Start {
                configs,
                names: if names@.len() == 0 { None } else { Some(names) },
                env,
                wait,
                path,
            },
            Command::Stop { names } => r == Request::Stop { names: if names@.len() == 0 { None } else { Some(names) } },
            Command::Restart { names } => r == Request::Restart { names: if names@.len() == 0 { None } else { Some(names) } },
            Command::List => r == Request::List,
            Command::Kill => r == Request::Kill,
            Command::Reload { names } => r == Request::Reload { names: if names@.len() == 0 { None } else { Some(names) }, path },
            Command::Info { name } => r == Request::Info { name },
            Command::Signal { name, signal } => r == Request::Signal { name, signal },
            Command::Save => r == Request::Save,
            Command::Resurrect => r == Request::Resurrect { path },
            Command::Flush { names } => r == Request::Flush { names: if names@.len() == 0 { None } else { Some(names) } },
            Command::Log { name, lines, follow, err } => r == Request::Log { name, lines, follow, err },
            _ => false,
        },
{
    match command {
        Command::Start { names, env, wait } => Request::Start {
            configs,
            names: Command::optional_names(names),
            env,
            wait,
            path,
        },
        Command::Stop { names } => Request::Stop { names: Command::optional_names(names) },
        Command::Restart { names } => Request::Restart { names: Command::optional_names(names) },
        Command::List => Request::List,
        Command::Kill => Request::Kill,
        Command::Reload { names } => Request::Reload { names: Command::optional_names(names), path },
        Command::Info { name } => Request::Info { name },
        Command::Signal { name, signal } => Request::Signal { name, signal },
        Command::Save => Request::Save,
        Command::Resurrect => Request::Resurrect { path },
        Command::Flush { names } => Request::Flush { names: Command::optional_names(names) },
        Command::Log { name, lines, follow, err } => Request::Log { name, lines, follow, err },
        Command::Tui | Command::Init | Command::Startup | Command::Unstartup => {
            proof { assert(false); }
            Request::List
        },
    }
}

/// An uptime in seconds as shown to users: `-` when unknown; `<s>s` under a
/// minute; `<m>m <s>s` under an hour; `<h>h <m>m` under a day; `<d>d <h>h`
/// beyond.
pub open spec fn uptime_text(seconds: Option<u64>) -> Seq<char> {
    match seconds {
        None => "-"@,
        Some(s) => if s < 60 {
            decimal(s as nat) + "s"@
        } else if s < 3600 {
            decimal((s / 60) as nat) + "m "@ + decimal((s % 60) as nat) + "s"@
        } else if s < 86400 {
            decimal((s / 3600) as nat) + "h "@ + decimal(((s % 3600) / 60) as nat) + "m"@
        } else {
            decimal((s / 86400) as nat) + "d "@ + decimal(((s % 86400) / 3600) as nat) + "h"@
        },
    }
}

/// Two numbers with their units: `<a><unit_a> <b><unit_b>`.
fn two_units(a: u64, unit_a: &str, b: u64, unit_b: &str) -> (r: String)
    ensures
        r@ == decimal(a as nat) + unit_a@ + " "@ + decimal(b as nat) + unit_b@,
{
    proof { reveal_strlit(" "); }
    let mut r = decimal_string(a);
    r = concat2(r.as_str(), unit_a);
    push_char(&mut r, ' ');
    let d = decimal_string(b);
    r = concat2(r.as_str(), d.as_str());
    let r2 = concat2(r.as_str(), unit_b);
    assert(r2@ =~= decimal(a as nat) + unit_a@ + " "@ + decimal(b as nat) + unit_b@);
    r2
}

/// Formats an uptime given in seconds (see `uptime_text`).
pub fn format_uptime(seconds: Option<u64>) -> (r: String)
    ensures
        r@ == uptime_text(seconds),
{
    match seconds {
        None => owned("-"),
        Some(s) => {
            if s < 60 {
                let d = decimal_string(s);
                concat2(d.as_str(), "s")
            } else if s < 3600 {
                let r = two_units(s / 60, "m", s % 60, "s");
                assert(r@ =~= decimal((s / 60) as nat) + "m "@ + decimal((s % 60) as nat) + "s"@) by {
                    reveal_strlit("m");
                    reveal_strlit("m ");
                    reveal_strlit(" ");
                }
                r
            } else if s < 86400 {
                let r = two_units(s / 3600, "h", (s % 3600) / 60, "m");
                assert(r@ =~= decimal((s / 3600) as nat) + "h "@ + decimal(((s % 3600) / 60) as nat) + "m"@) by {
                    reveal_strlit("h");
                    reveal_strlit("h ");
                    reveal_strlit(" ");
                }
                r
            } else {
                let r = two_units(s / 86400, "d", (s % 86400) / 3600, "h");
                assert(r@ =~= decimal((s / 86400) as nat) + "d "@ + decimal(((s % 86400) / 3600) as nat) + "h"@) by {
                    reveal_strlit("d");
                    reveal_strlit("d ");
                    reveal_strlit(" ");
                }
                r
            }
        },
    }
}


/// The line shown for a successful answer: its message, else `ok`.
pub fn success_text(message: &Option<String>) -> (r: String)
    ensures
        r@ == (match message { Some(m) => m@, None => "ok"@ }),
{
    match message {
        Some(m) => m.clone(),
        None => owned("ok"),
    }
}

/// A table cell for an optional text: the text, else `-`.
pub fn cell_text(value: &Option<String>) -> (r: String)
    ensures
        r@ == (match value { Some(v) => v@, None => "-"@ }),
{
    match value {
        Some(v) => v.clone(),
        None => owned("-"),
    }
}

/// A table cell for an optional pid: the number, else `-`.
pub fn pid_text(pid: Option<u32>) -> (r: String)
    ensures
        r@ == (match pid { Some(p) => decimal(p as nat), None => "-"@ }),
{
    match pid {
        Some(p) => decimal_string(p as u64),
        None => owned("-"),
    }
}

/// What a process list shows when it holds `count` processes and nothing
/// else is to be shown: a notice when it is empty.
pub fn empty_list_notice(count: usize) -> (r: Option<String>)
    ensures
        count == 0 ==> (r matches Some(t) && t@ == "no processes running"@),
        count > 0 ==> r is None,
{
    if count == 0 { Some(owned("no processes running")) } else { None }
}


proof fn lemma_quot_rem(x: int, d: int, q: int, r: int)
    requires
        d > 0,
        0 <= r < d,
        x == q * d + r,
    ensures
        x / d == q,
        x % d == r,
{
    vstd::arithmetic::div_mod::lemma_fundamental_div_mod_converse_div(x, d, q, r);
    vstd::arithmetic::div_mod::lemma_fundamental_div_mod_converse_mod(x, d, q, r);
}

/// The uptime shows the two largest units of the time, each as a whole
/// count: seconds below a minute; minutes and the seconds left below an
/// hour; hours and the minutes left below a day; days and the hours left
/// from a day on.
pub proof fn law_uptime_units(s: u64, a: nat, b: nat, rest: nat)
    ensures
        s < 60 ==> uptime_text(Some(s)) == decimal(s as nat) + "s"@,
        (60 <= s < 3600 && s == 60 * a + b && b < 60)
            ==> uptime_text(Some(s)) == decimal(a) + "m "@ + decimal(b) + "s"@,
        (3600 <= s < 86400 && s == 3600 * a + 60 * b + rest && b < 60 && rest < 60)
            ==> uptime_text(Some(s)) == decimal(a) + "h "@ + decimal(b) + "m"@,
        (s >= 86400 && s == 86400 * a + 3600 * b + rest && b < 24 && rest < 3600)
            ==> uptime_text(Some(s)) == decimal(a) + "d "@ + decimal(b) + "h"@,
        uptime_text(None) == "-"@,
{
    if 60 <= s < 3600 && s == 60 * a + b && b < 60 {
        lemma_quot_rem(s as int, 60, a as int, b as int);
    }
    if 3600 <= s < 86400 && s == 3600 * a + 60 * b + rest && b < 60 && rest < 60 {
        lemma_quot_rem(s as int, 3600, a as int, (60 * b + rest) as int);
        lemma_quot_rem((60 * b + rest) as int, 60, b as int, rest as int);
    }
    if s >= 86400 && s == 86400 * a + 3600 * b + rest && b < 24 && rest < 3600 {
        lemma_quot_rem(s as int, 86400, a as int, (3600 * b + rest) as int);
        lemma_quot_rem((3600 * b + rest) as int, 3600, b as int, rest as int);
    }
}

} // verus!
