//! Messages between the client and the daemon, and their line framing.
use vstd::prelude::*;
use crate::config::ProcessConfig;
use crate::strmap::StrMap;
use crate::text::{push_char, trim_end, trim_end_spec, unicode_whitespace, lemma_trim_end_newline};

verus! {

/// Number of log lines shown when a request does not say.
pub fn default_log_lines() -> (n: usize)
    ensures
        n == 15,
{
    15
}

/// A request from the client to the daemon.
#[derive(Debug, PartialEq)]
pub enum Request {
    Start {
        configs: StrMap<ProcessConfig>,
        names: Option<Vec<String>>,
        env: Option<String>,
        wait: bool,
        path: Option<String>,
    },
    Stop { names: Option<Vec<String>> },
    Restart { names: Option<Vec<String>> },
    List,
    Kill,
    Reload { names: Option<Vec<String>>, path: Option<String> },
    Info { name: String },
    Signal { name: String, signal: String },
    Save,
    Resurrect { path: Option<String> },
    Flush { names: Option<Vec<String>> },
    Log { name: Option<String>, lines: usize, follow: bool, err: bool },
}

/// The life-cycle state of a managed process.
#[derive(Debug, Clone, Copy, PartialEq, Eq, Structural)]
pub enum ProcessStatus {
    Starting,
    Online,
    Unhealthy,
    Stopped,
    Errored,
}

/// The name of a status, as shown to users.
pub open spec fn status_text(s: ProcessStatus) -> Seq<char> {
    match s {
        ProcessStatus::Starting => "starting"@,
        ProcessStatus::Online => "online"@,
        ProcessStatus::Unhealthy => "unhealthy"@,
        ProcessStatus::Stopped => "stopped"@,
        ProcessStatus::Errored => "errored"@,
    }
}

impl ProcessStatus {
    /// The name of the status: `starting`, `online`, `unhealthy`, `stopped`
    /// or `errored`.
    pub fn to_string(&self) -> (r: String)
        ensures
            r@ == status_text(*self),
    {
        let s = match self {
            ProcessStatus::Starting => "starting",
            ProcessStatus::Online => "online",
            ProcessStatus::Unhealthy => "unhealthy",
            ProcessStatus::Stopped => "stopped",
            ProcessStatus::Errored => "errored",
        };
        proof {
            reveal_strlit("starting");
            reveal_strlit("online");
            reveal_strlit("unhealthy");
            reveal_strlit("stopped");
            reveal_strlit("errored");
        }
        s.to_owned()
    }

    /// Whether the process counts as running (starting or online).
    pub fn is_running(&self) -> (r: bool)
        ensures
            r == (*self == ProcessStatus::Online || *self == ProcessStatus::Starting),
    {
        match self {
            ProcessStatus::Online | ProcessStatus::Starting => true,
            _ => false,
        }
    }
}

/// Frames one encoded message as a line: the message followed by a line feed.
pub fn frame_line(message: String) -> (r: String)
    ensures
        r@ == message@.push('\n'),
{
    let mut r = message;
    push_char(&mut r, '\n');
    r
}

/// The message carried by a received line: the line without its trailing
/// whitespace (the line feed among it).
pub fn unframe_line(line: &str) -> (r: String)
    ensures
        r@ == trim_end_spec(line@),
{
    trim_end(line)
}

/// Unframing a framed message gives back the message without its trailing
/// whitespace; a message that does not end in whitespace comes back whole.
pub proof fn law_unframe_frame(message: Seq<char>)
    ensures
        trim_end_spec(message.push('\n')) == trim_end_spec(message),
        (message.len() == 0 || !unicode_whitespace(message.last()))
            ==> trim_end_spec(message.push('\n')) == message,
{
    lemma_trim_end_newline(message);
    if message.len() == 0 || !unicode_whitespace(message.last()) {
        assert(message.subrange(0, message.len() as int) =~= message);
    }
}

} // verus!
