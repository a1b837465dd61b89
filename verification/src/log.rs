//! Process log lines, and the rotation of log files.
use vstd::prelude::*;
use crate::paths::{numbered, rotated_path};
use crate::text::{chars_of, concat2, decimal, string_from_chars, strs_view};

verus! {

/// Size past which a log file is rotated: 10 MiB.
pub const LOG_ROTATION_SIZE: u64 = 10 * 1024 * 1024;

/// Number of rotated files kept (`.1` .. `.3`).
pub const LOG_ROTATION_KEEP: u32 = 3;

/// The stream a log line came from.
#[derive(Debug, Clone, Copy, PartialEq, Eq, Structural)]
pub enum LogStream {
    Stdout,
    Stderr,
}

/// One line of a process's output.
#[derive(Debug, Clone)]
pub struct LogEntry {
    pub stream: LogStream,
    pub line: String,
}

/// Whether writing `line_len` more bytes to a log holding `byte_count`
/// bytes goes past the rotation size.
pub fn needs_rotation(byte_count: u64, line_len: u64) -> (r: bool)
    ensures
        r == (byte_count + line_len > LOG_ROTATION_SIZE),
{
    line_len > LOG_ROTATION_SIZE || byte_count > LOG_ROTATION_SIZE - line_len
}

/// A log line with a timestamp in front: `<timestamp> | <line>`.
pub fn timestamped_line(timestamp: &str, line: &str) -> (r: String)
    ensures
        r@ == timestamp@ + " | "@ + line@,
{
    let a = concat2(timestamp, " | ");
    let r = concat2(a.as_str(), line);
    assert(r@ =~= timestamp@ + " | "@ + line@);
    r
}

/// The renames that rotate the log `path` keeping `keep` old files, in
/// the order they are made: `.k-1` to `.k`, ..., `.1` to `.2`, then the log
/// itself to `.1`. (The oldest file, `.keep`, is removed first.)
pub open spec fn rotation_moves(path: Seq<char>, keep: nat) -> Seq<(Seq<char>, Seq<char>)> {
    Seq::new((if keep > 0 { keep - 1 } else { 0 }) as nat, |j: int| {
        let i = keep - 1 - j;
        (numbered(path, i as nat), numbered(path, (i + 1) as nat))
    }).push((path, numbered(path, 1)))
}

/// The rotation of log `path` keeping `keep` old files: the file removed
/// first (`.keep`), then the renames, in order (see `rotation_moves`).
pub fn rotation_plan(path: &str, keep: u32) -> (r: (String, Vec<(String, String)>))
    ensures
        r.0@ == numbered(path@, keep as nat),
        r.1@.map_values(|m: (String, String)| (m.0@, m.1@)) == rotation_moves(path@, keep as nat),
{
    let oldest = rotated_path(path, keep);
    let mut moves: Vec<(String, String)> = Vec::new();
    let n: u32 = if keep > 0 { keep - 1 } else { 0 };
    let ghost target = rotation_moves(path@, keep as nat);
    let mut j: u32 = 0;
    while j < n
        invariant
            n == (if keep > 0 { keep - 1 } else { 0 }),
            j <= n,
            moves@.len() == j,
            forall|k: int| 0 <= k < j ==> (#[trigger] moves@[k]).0@ == numbered(path@, (keep - 1 - k) as nat)
                && moves@[k].1@ == numbered(path@, (keep - k) as nat),
        decreases n - j,
    {
        let i = keep - 1 - j;
        let from = rotated_path(path, i);
        let to = rotated_path(path, i + 1);
        moves.push((from, to));
        j = j + 1;
    }
    let first = rotated_path(path, 1);
    moves.push((crate::text::owned(path), first));
    proof {
        assert(moves@.map_values(|m: (String, String)| (m.0@, m.1@)) =~= target);
    }
    (oldest, moves)
}


/// Index of the first line feed of `s` (its length if it has none).
pub open spec fn first_newline(s: Seq<char>) -> nat
    decreases s.len(),
{
    if s.len() == 0 || s[0] == '\n' { 0 } else { 1 + first_newline(s.drop_first()) }
}

/// The line of `s` that ends at the line feed at `k` (or at the end): a
/// carriage return before that line feed is not part of it.
pub open spec fn line_before(s: Seq<char>, k: nat) -> Seq<char> {
    if k < s.len() && k > 0 && s[k - 1] == '\r' { s.take(k - 1) } else { s.take(k as int) }
}

/// The lines of a text as `str::lines` gives them: split at each line feed
/// (a carriage return before it dropped), with no empty line after a final
/// line feed.
pub open spec fn text_lines(s: Seq<char>) -> Seq<Seq<char>>
    decreases s.len(),
{
    if s.len() == 0 {
        Seq::empty()
    } else {
        let k = first_newline(s);
        if k >= s.len() {
            seq![s]
        } else {
            seq![line_before(s, k)] + text_lines(s.skip((k + 1) as int))
        }
    }
}

proof fn lemma_first_newline(s: Seq<char>, m: int)
    requires
        0 <= m <= s.len(),
        forall|j: int| 0 <= j < m ==> #[trigger] s[j] != '\n',
        m < s.len() ==> s[m] == '\n',
    ensures
        first_newline(s) == m,
    decreases s.len(),
{
    if m > 0 {
        let d = s.drop_first();
        assert forall|j: int| 0 <= j < m - 1 implies #[trigger] d[j] != '\n' by {
            assert(d[j] == s[j + 1]);
        }
        if m < s.len() { assert(d[m - 1] == s[m]); }
        assert(s[0] != '\n');
        lemma_first_newline(d, m - 1);
    }
}

/// The first `n` lines of `text` (all of them if it has fewer), as
/// `str::lines` splits it: what a tail of a log shows of the text read from
/// where its last `n` lines begin.
pub fn tail_lines(text: &str, n: usize) -> (r: Vec<String>)
    ensures
        strs_view(r@) == text_lines(text@).take(
            if n < text_lines(text@).len() { n as int } else { text_lines(text@).len() as int }),
{
    let v = chars_of(text);
    let len = v.len();
    let mut out: Vec<String> = Vec::new();
    let mut i: usize = 0;
    proof { assert(v@.skip(0) =~= v@); assert(strs_view(out@) + text_lines(v@) =~= text_lines(v@)); }
    while i < len && out.len() < n
        invariant
            len == v@.len(),
            v@ == text@,
            i <= len,
            out@.len() <= n,
            text_lines(v@) == strs_view(out@) + text_lines(v@.skip(i as int)),
        decreases len - i,
    {
        let mut k: usize = i;
        while k < len && v[k] != '\n'
            invariant
                i <= k <= len,
                len == v@.len(),
                forall|j: int| i <= j < k ==> v@[j] != '\n',
            decreases len - k,
        {
            k = k + 1;
        }
        let ghost t = v@.skip(i as int);
        let ghost m = k - i;
        proof {
            assert forall|j: int| 0 <= j < m implies #[trigger] t[j] != '\n' by {
                assert(t[j] == v@[i + j]);
            }
            if k < len { assert(t[m as int] == v@[k as int]); }
            lemma_first_newline(t, m as int);
        }
        let end: usize = if k < len && k > i && v[k - 1] == '\r' { k - 1 } else { k };
        let line = string_from_chars(v.as_slice(), i, end);
        let ghost before = strs_view(out@);
        out.push(line);
        proof {
            assert(strs_view(out@) =~= before.push(v@.subrange(i as int, end as int)));
            if k < len {
                if k > i && v@[k - 1] == '\r' {
                    assert(t[m - 1] == v@[k - 1]);
                    assert(line_before(t, m as nat) =~= v@.subrange(i as int, end as int));
                } else {
                    assert(line_before(t, m as nat) =~= v@.subrange(i as int, end as int));
                }
                assert(t.skip(m + 1) =~= v@.skip(k + 1));
                assert(text_lines(t) == seq![line_before(t, m as nat)] + text_lines(t.skip(m + 1)));
                assert(text_lines(v@) =~= strs_view(out@) + text_lines(v@.skip(k + 1)));
            } else {
                assert(t =~= v@.subrange(i as int, end as int));
                assert(text_lines(t) == seq![t]);
                assert(v@.skip(len as int) =~= Seq::<char>::empty());
                assert(text_lines(v@) =~= strs_view(out@) + text_lines(v@.skip(len as int)));
            }
        }
        i = if k < len { k + 1 } else { len };
    }
    proof {
        let all = text_lines(v@);
        if out@.len() == n {
            assert(all.take(n as int) =~= strs_view(out@));
        } else {
            assert(v@.skip(i as int) =~= Seq::<char>::empty());
            assert(all =~= strs_view(out@));
            assert(all.take(all.len() as int) =~= all);
        }
    }
    out
}


/// The number of line feeds (byte 10) in `b`.
pub open spec fn newline_count(b: Seq<u8>) -> nat
    decreases b.len(),
{
    if b.len() == 0 { 0 } else { newline_count(b.drop_last()) + if b.last() == 10 { 1nat } else { 0nat } }
}

/// Scans a block of a log backwards, going on from `seen` line feeds
/// counted after it, for where its last `n` lines begin: `Ok(i)` when the
/// line feed at `i - 1` is the `n + 1`-th from the end (the lines begin at
/// `i`), else `Err` of the count so far.
pub fn scan_for_tail(buf: &[u8], seen: usize, n: usize) -> (r: Result<usize, usize>)
    requires
        seen <= n,
    ensures
        match r {
            Ok(i) => 1 <= i <= buf@.len() && buf@[i - 1] == 10
                && seen + newline_count(buf@.skip(i as int)) == n,
            Err(t) => t == seen + newline_count(buf@) && t <= n,
        },
{
    let mut count: usize = seen;
    let mut i: usize = buf.len();
    proof { assert(buf@.skip(i as int) =~= Seq::<u8>::empty()); }
    while i > 0
        invariant
            i <= buf@.len(),
            seen <= count <= n,
            count == seen + newline_count(buf@.skip(i as int)),
        decreases i,
    {
        let ghost tail = buf@.skip(i as int);
        proof {
            let t2 = buf@.skip(i - 1);
            lemma_newline_count_front(t2);
            assert(t2.drop_first() =~= tail);
            assert(t2[0] == buf@[i - 1]);
        }
        if buf[i - 1] == 10u8 {
            if count == n {
                return Ok(i);
            }
            count = count + 1;
        }
        i = i - 1;
    }
    proof { assert(buf@.skip(0) =~= buf@); }
    Err(count)
}

/// Counting from the front: the first byte, then the rest.
proof fn lemma_newline_count_front(b: Seq<u8>)
    requires
        b.len() > 0,
    ensures
        newline_count(b) == newline_count(b.drop_first()) + if b[0] == 10 { 1nat } else { 0nat },
    decreases b.len(),
{
    if b.len() > 1 {
        lemma_newline_count_front(b.drop_last());
        assert(b.drop_last().drop_first() =~= b.drop_first().drop_last());
        assert(b.drop_first().last() == b.last());
        assert(b.drop_last()[0] == b[0]);
        assert(newline_count(b.drop_first()) == newline_count(b.drop_first().drop_last())
            + if b.drop_first().last() == 10 { 1nat } else { 0nat });
    } else {
        assert(b.drop_first().len() == 0);
        assert(b.drop_last().len() == 0);
        assert(b.last() == b[0]);
        assert(newline_count(b.drop_first()) == 0);
        assert(newline_count(b.drop_last()) == 0);
    }
}


/// A text has no more lines than characters.
proof fn lemma_text_lines_len(s: Seq<char>)
    ensures
        text_lines(s).len() <= s.len(),
    decreases s.len(),
{
    if s.len() > 0 {
        let k = first_newline(s);
        if k < s.len() {
            lemma_text_lines_len(s.skip((k + 1) as int));
        }
    }
}

/// All the lines of `text`, as `str::lines` gives them.
pub fn all_lines(text: &str) -> (r: Vec<String>)
    ensures
        strs_view(r@) == text_lines(text@),
{
    let v = chars_of(text);
    proof {
        lemma_text_lines_len(text@);
        assert(text_lines(text@).take(text_lines(text@).len() as int) =~= text_lines(text@));
    }
    tail_lines(text, v.len())
}


/// What a tail does after scanning a block of its log.
#[derive(Debug, PartialEq, Eq, Structural)]
pub enum TailStep {
    /// Read the log from this offset to its end.
    Start(u64),
    /// Scan the block before this one, with this many line feeds counted.
    ReadEarlier(usize),
}

/// Scans the block of a log that begins at offset `block_start`, going on
/// from `seen` line feeds counted after it, for where its last `n` lines
/// begin: there, if it holds the `n + 1`-th line feed from the end; else
/// the block before it, or the start of the log when this block is its
/// first.
pub fn tail_step(block_start: u64, buf: &[u8], seen: usize, n: usize) -> (r: TailStep)
    requires
        seen <= n,
        block_start + buf@.len() <= u64::MAX,
    ensures
        match r {
            TailStep::Start(o) => ({
                ||| (exists|i: int| 1 <= i <= buf@.len() && o == block_start + i && buf@[i - 1] == 10
                        && seen + newline_count(buf@.skip(i)) == n)
                ||| (o == 0 && block_start == 0 && seen + newline_count(buf@) <= n)
            }),
            TailStep::ReadEarlier(t) => block_start > 0 && t == seen + newline_count(buf@) && t <= n,
        },
        (exists|i: int| 1 <= i <= buf@.len() && buf@[i - 1] == 10 && seen + newline_count(buf@.skip(i)) == n)
            ==> r is Start,
{
    match scan_for_tail(buf, seen, n) {
        Ok(i) => TailStep::Start(block_start + i as u64),
        Err(t) => {
            proof { lemma_no_tail_start(buf@, seen as nat, n as nat); }
            if block_start == 0 { TailStep::Start(0) } else { TailStep::ReadEarlier(t) }
        },
    }
}

/// Where the count of a whole block stays within `n`, no line feed of it
/// is the `n + 1`-th from the end.
proof fn lemma_no_tail_start(b: Seq<u8>, seen: nat, n: nat)
    requires
        seen + newline_count(b) <= n,
    ensures
        !(exists|i: int| 1 <= i <= b.len() && b[i - 1] == 10 && seen + newline_count(b.skip(i)) == n),
{
    if exists|i: int| 1 <= i <= b.len() && b[i - 1] == 10 && seen + newline_count(b.skip(i)) == n {
        let i = choose|i: int| 1 <= i <= b.len() && b[i - 1] == 10 && seen + newline_count(b.skip(i)) == n;
        lemma_newline_count_split(b, i - 1);
        lemma_newline_count_front(b.skip(i - 1));
        assert(b.skip(i - 1).drop_first() =~= b.skip(i));
        assert(b.skip(i - 1)[0] == b[i - 1]);
    }
}

/// The line feeds of a block are those before `k` and those from `k` on.
proof fn lemma_newline_count_split(b: Seq<u8>, k: int)
    requires
        0 <= k <= b.len(),
    ensures
        newline_count(b) == newline_count(b.take(k)) + newline_count(b.skip(k)),
    decreases b.len() - k,
{
    if k < b.len() {
        lemma_newline_count_split(b, k + 1);
        lemma_newline_count_front(b.skip(k));
        assert(b.skip(k).drop_first() =~= b.skip(k + 1));
        assert(b.take(k + 1).drop_last() =~= b.take(k));
        assert(b.take(k + 1).last() == b[k]);
        assert(b.skip(k)[0] == b[k]);
    } else {
        assert(b.take(k) =~= b);
        assert(b.skip(k).len() == 0);
    }
}

} // verus!
