//! Command lines and signals as the Windows build reads them: backslashes
//! are kept literally, double quotes group words, and only three signals
//! exist.
use vstd::prelude::*;
use crate::process::{ProcessError, command_of_words, parsed_as, command_from_words};
use crate::text::{chars_of, is_prefix, owned, push_char, strs_view, to_uppercase, trim, trim_spec,
    unicode_uppercase};

verus! {

/// Scanner state: the words so far, the word being read, and whether the
/// scanner is inside double quotes.
pub type ScanState = (Seq<Seq<char>>, Seq<char>, bool);

/// One character of the scan: a double quote toggles quoting; an unquoted
/// space or tab ends the current word (if any); any other character is
/// added to the current word.
pub open spec fn scan_step(st: ScanState, c: char) -> ScanState {
    let (words, cur, quoted) = st;
    if c == '"' {
        (words, cur, !quoted)
    } else if (c == ' ' || c == '\t') && !quoted {
        if cur.len() > 0 { (words.push(cur), Seq::empty(), quoted) } else { st }
    } else {
        (words, cur.push(c), quoted)
    }
}

/// The scanner state after reading all of `s`.
pub open spec fn scan(s: Seq<char>) -> ScanState
    decreases s.len(),
{
    if s.len() == 0 {
        (Seq::empty(), Seq::empty(), false)
    } else {
        scan_step(scan(s.drop_last()), s.last())
    }
}

/// The words of `s`: the finished words, then the last one if non-empty.
pub open spec fn quoted_words(s: Seq<char>) -> Seq<Seq<char>> {
    let (words, cur, _) = scan(s);
    if cur.len() > 0 { words.push(cur) } else { words }
}

/// Parses a command line into a program and its arguments: the line is
/// trimmed, then split on spaces and tabs outside double quotes; the quotes
/// themselves are dropped and backslashes are kept as they are.
pub fn parse_command(command: &str) -> (r: Result<(String, Vec<String>), ProcessError>)
    ensures
        parsed_as(r, command_of_words(Ok(quoted_words(trim_spec(command@))))),
{
    let t = trim(command);
    let v = chars_of(t.as_str());
    let mut words: Vec<String> = Vec::new();
    let mut current = String::new();
    let mut in_quotes = false;
    let mut i: usize = 0;
    while i < v.len()
        invariant
            i <= v@.len(),
            v@ == trim_spec(command@),
            scan(v@.subrange(0, i as int)) == (strs_view(words@), current@, in_quotes),
        decreases v@.len() - i,
    {
        let c = v[i];
        proof {
            assert(v@.subrange(0, i + 1).drop_last() =~= v@.subrange(0, i as int));
        }
        if c == '"' {
            in_quotes = !in_quotes;
        } else if (c == ' ' || c == '\t') && !in_quotes {
            if current.unicode_len() > 0 {
                let w = current;
                current = String::new();
                words.push(w);
                proof {
                    assert(strs_view(words@) =~= strs_view(words@.drop_last()).push(words@.last()@));
                    assert(current@ =~= Seq::<char>::empty());
                }
            }
        } else {
            push_char(&mut current, c);
        }
        i = i + 1;
    }
    proof { assert(v@.subrange(0, i as int) =~= v@); }
    let ghost w0 = strs_view(words@);
    let ghost c0 = current@;
    if current.unicode_len() > 0 {
        words.push(current);
        proof {
            assert(strs_view(words@) =~= w0.push(c0));
        }
    }
    proof {
        assert(strs_view(words@) == quoted_words(trim_spec(command@)));
    }
    command_from_words(Ok(words))
}

/// The signals that can be sent on Windows.
#[derive(Debug, Clone, Copy, PartialEq, Eq, Structural)]
pub enum WinSignal {
    Term,
    Kill,
    Int,
}

/// The signal named by an uppercased name without its `SIG` prefix.
pub open spec fn signal_of_bare_name(bare: Seq<char>) -> Option<WinSignal> {
    if bare == "TERM"@ {
        Some(WinSignal::Term)
    } else if bare == "KILL"@ {
        Some(WinSignal::Kill)
    } else if bare == "INT"@ {
        Some(WinSignal::Int)
    } else {
        None
    }
}

/// The signal a name stands for: uppercased, with an optional `SIG` prefix.
pub open spec fn signal_named(name: Seq<char>) -> Option<WinSignal> {
    let up = unicode_uppercase(name);
    signal_of_bare_name(if is_prefix("SIG"@, up) { up.skip(3) } else { up })
}

impl WinSignal {
    /// The conventional name of the signal.
    pub fn name(&self) -> (r: String)
        ensures
            r@ == (match *self {
                WinSignal::Term => "SIGTERM"@,
                WinSignal::Kill => "SIGKILL"@,
                WinSignal::Int => "SIGINT"@,
            }),
    {
        match self {
            WinSignal::Term => owned("SIGTERM"),
            WinSignal::Kill => owned("SIGKILL"),
            WinSignal::Int => owned("SIGINT"),
        }
    }
}

/// Parses a signal name, case-insensitively and with or without the `SIG`
/// prefix: `TERM`, `KILL` and `INT` are known. The error names the input as
/// given.
pub fn parse_signal(name: &str) -> (r: Result<WinSignal, ProcessError>)
    ensures
        match signal_named(name@) {
            Some(s) => r == Ok::<WinSignal, ProcessError>(s),
            None => r matches Err(ProcessError::InvalidSignal(t)) && t@ == name@,
        },
{
    proof {
        reveal_strlit("SIG");
        reveal_strlit("TERM");
        reveal_strlit("KILL");
        reveal_strlit("INT");
    }
    let up = to_uppercase(name);
    let v = chars_of(up.as_str());
    let has_prefix = crate::text::starts_with(up.as_str(), "SIG");
    let lo: usize = if has_prefix { 3 } else { 0 };
    let bare = crate::text::string_from_chars(v.as_slice(), lo, v.len());
    proof {
        if has_prefix {
            assert(bare@ =~= up@.skip(3));
        } else {
            assert(bare@ =~= up@);
        }
    }
    if crate::text::str_eq(bare.as_str(), "TERM") {
        Ok(WinSignal::Term)
    } else if crate::text::str_eq(bare.as_str(), "KILL") {
        Ok(WinSignal::Kill)
    } else if crate::text::str_eq(bare.as_str(), "INT") {
        Ok(WinSignal::Int)
    } else {
        Err(ProcessError::InvalidSignal(owned(name)))
    }
}

} // verus!
