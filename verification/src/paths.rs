//! Where the daemon keeps its files: pid, socket, dump and logs, with paths
//! as text joined by the Unix rules of `PathBuf::join`.
use vstd::prelude::*;
use crate::text::{concat2, decimal, decimal_string, owned, push_char};

verus! {

/// Whether a path is absolute (begins at the root `/`).
pub open spec fn is_absolute(p: Seq<char>) -> bool {
    p.len() > 0 && p[0] == '/'
}

/// `base` joined with `p`: an absolute `p` replaces `base`; otherwise `p` is
/// appended, with a `/` between unless `base` is empty or already ends in one.
pub open spec fn join_path(base: Seq<char>, p: Seq<char>) -> Seq<char> {
    if is_absolute(p) {
        p
    } else if base.len() == 0 || base.last() == '/' {
        base + p
    } else {
        base + "/"@ + p
    }
}

/// Joins a path onto a base path.
pub fn join(base: &str, p: &str) -> (r: String)
    ensures
        r@ == join_path(base@, p@),
{
    proof { reveal_strlit("/"); }
    let starts_at_root = p.unicode_len() > 0 && p.get_char(0) == '/';
    if starts_at_root {
        return owned(p);
    }
    let n = base.unicode_len();
    if n == 0 || base.get_char(n - 1) == '/' {
        concat2(base, p)
    } else {
        let mut r = owned(base);
        push_char(&mut r, '/');
        let r2 = concat2(r.as_str(), p);
        assert(r2@ =~= base@ + "/"@ + p@);
        r2
    }
}

/// `path` followed by `.n`.
pub open spec fn numbered(path: Seq<char>, n: nat) -> Seq<char> {
    path + "."@ + decimal(n)
}

/// The path of rotated file number `n` of `path`: `path` followed by `.n`.
pub fn rotated_path(path: &str, n: u32) -> (r: String)
    ensures
        r@ == numbered(path@, n as nat),
{
    proof { reveal_strlit("."); }
    let mut r = owned(path);
    push_char(&mut r, '.');
    let d = decimal_string(n as u64);
    let r2 = concat2(r.as_str(), d.as_str());
    assert(r2@ =~= path@ + "."@ + decimal(n as nat));
    r2
}

/// Index of the last `/` of `p` (-1 if it has none).
pub open spec fn last_slash(p: Seq<char>) -> int
    decreases p.len(),
{
    if p.len() == 0 { -1 } else if p.last() == '/' { p.len() - 1 } else { last_slash(p.drop_last()) }
}

/// A path read the same way on every platform, with no component that
/// `Path` drops or treats apart: not empty, no trailing `/`, no `//`, no
/// `.` component, no `\\` or `:` (no Windows separator or prefix), and a
/// last component other than `..`.
pub open spec fn plain_path(p: Seq<char>) -> bool {
    &&& p.len() > 0 && p.last() != '/'
    &&& forall|i: int| 0 <= i < p.len() ==> #[trigger] p[i] != '\\' && p[i] != ':'
    &&& forall|i: int| 0 <= i < p.len() - 1 ==> !(#[trigger] p[i] == '/' && p[i + 1] == '/')
    &&& forall|i: int| 0 <= i < p.len() && #[trigger] p[i] == '.'
            ==> !((i == 0 || p[i - 1] == '/') && (i == p.len() - 1 || p[i + 1] == '/'))
    &&& p.skip(last_slash(p) + 1) != ".."@
}

/// The parent of a plain path: the text before its last `/` (the root for
/// `/name`, the empty path for a bare name).
pub open spec fn plain_parent(p: Seq<char>) -> Seq<char> {
    let k = last_slash(p);
    if k < 0 { Seq::empty() } else if k == 0 { seq!['/'] } else { p.take(k) }
}

/// The file name of a plain path: the text after its last `/`.
pub open spec fn plain_file_name(p: Seq<char>) -> Seq<char> {
    p.skip(last_slash(p) + 1)
}

/// The parent of a path, as `Path::parent` gives it.
pub uninterp spec fn path_parent(p: Seq<char>) -> Option<Seq<char>>;

/// The last component of a path, as `Path::file_name` gives it.
pub uninterp spec fn path_file_name(p: Seq<char>) -> Option<Seq<char>>;

/// `Path::parent`: the path without its last component, if it has one.
/// Of how components are read, only plain paths are claimed (see
/// `plain_path`): their parent is the text before the last `/`.
#[verifier::external_body]
fn parent_of(p: &str) -> (r: Option<String>)
    ensures
        r is None ==> path_parent(p@) is None,
        r is Some ==> path_parent(p@) == Some(r->0@),
        plain_path(p@) ==> (r is Some && r->0@ == plain_parent(p@)),
{
    std::path::Path::new(p).parent().map(|q| q.to_string_lossy().into_owned())
}

/// `Path::file_name`: the last component of a path when it is a normal
/// one. Of how components are read, only plain paths are claimed (see
/// `plain_path`): their file name is the text after the last `/`.
#[verifier::external_body]
fn file_name_of(p: &str) -> (r: Option<String>)
    ensures
        r is None ==> path_file_name(p@) is None,
        r is Some ==> path_file_name(p@) == Some(r->0@),
        plain_path(p@) ==> (r is Some && r->0@ == plain_file_name(p@)),
{
    std::path::Path::new(p).file_name().map(|f| f.to_string_lossy().into_owned())
}

/// Where rotated file number `n` of `log_path` goes, given the path's
/// parent and file name: beside it, named `<file name>.n`; where the path
/// has no parent or no file name, the path itself followed by `.n`.
pub open spec fn rotated_beside(log_path: Seq<char>, parent: Option<Seq<char>>, file_name: Option<Seq<char>>, n: nat) -> Seq<char> {
    match (parent, file_name) {
        (Some(dir), Some(file)) => join_path(dir, numbered(file, n)),
        _ => numbered(log_path, n),
    }
}

/// Places rotated file number `n` of `log_path` from the path's parent and
/// file name (see `rotated_beside`).
pub fn rotated_log_path(log_path: &str, parent: Option<String>, file_name: Option<String>, n: u32) -> (r: String)
    ensures
        r@ == rotated_beside(log_path@, opt_view(parent), opt_view(file_name), n as nat),
{
    match (parent, file_name) {
        (Some(dir), Some(file)) => {
            let name = rotated_path(file.as_str(), n);
            join(dir.as_str(), name.as_str())
        },
        (_, _) => rotated_path(log_path, n),
    }
}

pub open spec fn opt_view(o: Option<String>) -> Option<Seq<char>> {
    match o {
        Some(s) => Some(s@),
        None => None,
    }
}

/// A log path resolved against an optional working directory: an absolute
/// path stays; a relative one is joined onto `cwd` when given, and otherwise
/// stays relative.
pub open spec fn resolved_log(log_path: Seq<char>, cwd: Option<Seq<char>>) -> Seq<char> {
    if is_absolute(log_path) {
        log_path
    } else {
        match cwd {
            Some(dir) => join_path(dir, log_path),
            None => log_path,
        }
    }
}

/// The files of the daemon, all under one data directory.
#[derive(Clone, Debug)]
pub struct Paths {
    data_dir: String,
}

impl Paths {
    /// The data directory.
    pub closed spec fn dir(&self) -> Seq<char> {
        self.data_dir@
    }

    /// Paths under the data directory `base`.
    pub fn with_base(base: String) -> (p: Self)
        ensures
            p.dir() == base@,
    {
        Paths { data_dir: base }
    }

    /// The data directory chosen at start-up: `env_dir` (the `PM3_DATA_DIR`
    /// setting) when given, else `pm3` under the platform's data directory,
    /// and `None` when neither is known.
    pub fn select(env_dir: Option<String>, platform_dir: Option<String>) -> (p: Option<Self>)
        ensures
            match env_dir {
                Some(d) => p matches Some(q) && q.dir() == d@,
                None => match platform_dir {
                    Some(b) => p matches Some(q) && q.dir() == join_path(b@, "pm3"@),
                    None => p is None,
                },
            },
    {
        match env_dir {
            Some(d) => Some(Paths { data_dir: d }),
            None => match platform_dir {
                Some(b) => Some(Paths { data_dir: join(b.as_str(), "pm3") }),
                None => None,
            },
        }
    }

    /// The data directory.
    pub fn data_dir(&self) -> (r: &str)
        ensures
            r@ == self.dir(),
    {
        self.data_dir.as_str()
    }

    /// `pm3.pid` in the data directory.
    pub fn pid_file(&self) -> (r: String)
        ensures
            r@ == join_path(self.dir(), "pm3.pid"@),
    {
        join(self.data_dir.as_str(), "pm3.pid")
    }

    /// `pm3.sock` in the data directory.
    pub fn socket_file(&self) -> (r: String)
        ensures
            r@ == join_path(self.dir(), "pm3.sock"@),
    {
        join(self.data_dir.as_str(), "pm3.sock")
    }

    /// `dump.json` in the data directory.
    pub fn dump_file(&self) -> (r: String)
        ensures
            r@ == join_path(self.dir(), "dump.json"@),
    {
        join(self.data_dir.as_str(), "dump.json")
    }

    /// `pm3.port` in the data directory.
    pub fn port_file(&self) -> (r: String)
        ensures
            r@ == join_path(self.dir(), "pm3.port"@),
    {
        join(self.data_dir.as_str(), "pm3.port")
    }

    /// The `logs` directory under the data directory.
    pub fn log_dir(&self) -> (r: String)
        ensures
            r@ == join_path(self.dir(), "logs"@),
    {
        join(self.data_dir.as_str(), "logs")
    }

    /// `logs/<name>-out.log`.
    pub fn stdout_log(&self, name: &str) -> (r: String)
        ensures
            r@ == join_path(join_path(self.dir(), "logs"@), name@ + "-out.log"@),
    {
        let dir = self.log_dir();
        let file = concat2(name, "-out.log");
        join(dir.as_str(), file.as_str())
    }

    /// `logs/<name>-err.log`.
    pub fn stderr_log(&self, name: &str) -> (r: String)
        ensures
            r@ == join_path(join_path(self.dir(), "logs"@), name@ + "-err.log"@),
    {
        let dir = self.log_dir();
        let file = concat2(name, "-err.log");
        join(dir.as_str(), file.as_str())
    }

    /// `logs/<name>-out.log.<n>`.
    pub fn rotated_stdout_log(&self, name: &str, n: u32) -> (r: String)
        ensures
            r@ == join_path(join_path(self.dir(), "logs"@), numbered(name@ + "-out.log"@, n as nat)),
    {
        let dir = self.log_dir();
        let file = concat2(name, "-out.log");
        let numbered_file = rotated_path(file.as_str(), n);
        join(dir.as_str(), numbered_file.as_str())
    }

    /// `logs/<name>-err.log.<n>`.
    pub fn rotated_stderr_log(&self, name: &str, n: u32) -> (r: String)
        ensures
            r@ == join_path(join_path(self.dir(), "logs"@), numbered(name@ + "-err.log"@, n as nat)),
    {
        let dir = self.log_dir();
        let file = concat2(name, "-err.log");
        let numbered_file = rotated_path(file.as_str(), n);
        join(dir.as_str(), numbered_file.as_str())
    }

    /// Resolves a log file path: absolute paths stay; relative ones are
    /// resolved against `cwd` when given, and otherwise stay relative (to
    /// the daemon's working directory).
    pub fn resolve_log_path(&self, log_path: &str, cwd: Option<&str>) -> (r: String)
        ensures
            r@ == resolved_log(log_path@, match cwd { Some(d) => Some(d@), None => None }),
    {
        let absolute = log_path.unicode_len() > 0 && log_path.get_char(0) == '/';
        if absolute {
            owned(log_path)
        } else {
            match cwd {
                Some(dir) => join(dir, log_path),
                None => owned(log_path),
            }
        }
    }

    /// The stdout log: the custom path (resolved) when set, else the default.
    pub fn get_stdout_log(&self, name: &str, custom_path: Option<&str>, cwd: Option<&str>) -> (r: String)
        ensures
            r@ == (match custom_path {
                Some(p) => resolved_log(p@, match cwd { Some(d) => Some(d@), None => None }),
                None => join_path(join_path(self.dir(), "logs"@), name@ + "-out.log"@),
            }),
    {
        match custom_path {
            Some(p) => self.resolve_log_path(p, cwd),
            None => self.stdout_log(name),
        }
    }

    /// The stderr log: the custom path (resolved) when set, else the default.
    pub fn get_stderr_log(&self, name: &str, custom_path: Option<&str>, cwd: Option<&str>) -> (r: String)
        ensures
            r@ == (match custom_path {
                Some(p) => resolved_log(p@, match cwd { Some(d) => Some(d@), None => None }),
                None => join_path(join_path(self.dir(), "logs"@), name@ + "-err.log"@),
            }),
    {
        match custom_path {
            Some(p) => self.resolve_log_path(p, cwd),
            None => self.stderr_log(name),
        }
    }

    /// Rotated stdout log number `n`: beside the custom log when one is set
    /// (see `rotated_beside`), else the default rotated log.
    pub fn get_rotated_stdout_log(&self, name: &str, n: u32, custom_path: Option<&str>, cwd: Option<&str>) -> (r: String)
        ensures
            r@ == (match custom_path {
                Some(p) => {
                    let lp = resolved_log(p@, match cwd { Some(d) => Some(d@), None => None });
                    rotated_beside(lp, path_parent(lp), path_file_name(lp), n as nat)
                },
                None => join_path(join_path(self.dir(), "logs"@), numbered(name@ + "-out.log"@, n as nat)),
            }),
            (match custom_path {
                Some(p) => {
                    let lp = resolved_log(p@, match cwd { Some(d) => Some(d@), None => None });
                    plain_path(lp) ==> r@ == numbered(lp, n as nat)
                },
                None => true,
            }),
    {
        match custom_path {
            Some(p) => {
                let lp = self.resolve_log_path(p, cwd);
                let parent = parent_of(lp.as_str());
                let file = file_name_of(lp.as_str());
                proof {
                    if plain_path(lp@) {
                        law_rotated_log_beside(lp@, n as nat);
                    }
                }
                rotated_log_path(lp.as_str(), parent, file, n)
            },
            None => self.rotated_stdout_log(name, n),
        }
    }

    /// Rotated stderr log number `n`: beside the custom log when one is set
    /// (see `rotated_beside`), else the default rotated log.
    pub fn get_rotated_stderr_log(&self, name: &str, n: u32, custom_path: Option<&str>, cwd: Option<&str>) -> (r: String)
        ensures
            r@ == (match custom_path {
                Some(p) => {
                    let lp = resolved_log(p@, match cwd { Some(d) => Some(d@), None => None });
                    rotated_beside(lp, path_parent(lp), path_file_name(lp), n as nat)
                },
                None => join_path(join_path(self.dir(), "logs"@), numbered(name@ + "-err.log"@, n as nat)),
            }),
            (match custom_path {
                Some(p) => {
                    let lp = resolved_log(p@, match cwd { Some(d) => Some(d@), None => None });
                    plain_path(lp) ==> r@ == numbered(lp, n as nat)
                },
                None => true,
            }),
    {
        match custom_path {
            Some(p) => {
                let lp = self.resolve_log_path(p, cwd);
                let parent = parent_of(lp.as_str());
                let file = file_name_of(lp.as_str());
                proof {
                    if plain_path(lp@) {
                        law_rotated_log_beside(lp@, n as nat);
                    }
                }
                rotated_log_path(lp.as_str(), parent, file, n)
            },
            None => self.rotated_stderr_log(name, n),
        }
    }
}

/// The last `/` of a path: none after it, and it is one.
proof fn lemma_last_slash(p: Seq<char>)
    ensures
        -1 <= last_slash(p) < p.len(),
        last_slash(p) >= 0 ==> p[last_slash(p)] == '/',
        forall|j: int| last_slash(p) < j < p.len() ==> #[trigger] p[j] != '/',
    decreases p.len(),
{
    if p.len() > 0 && p.last() != '/' {
        lemma_last_slash(p.drop_last());
        assert forall|j: int| last_slash(p) < j < p.len() implies #[trigger] p[j] != '/' by {
            if j < p.len() - 1 { assert(p.drop_last()[j] == p[j]); }
        }
        if last_slash(p) >= 0 { assert(p.drop_last()[last_slash(p)] == p[last_slash(p)]); }
    }
}

/// A rotated log sits beside its log: for a plain path, the rotated file
/// placed by its parent and file name is the path followed by `.n`.
pub proof fn law_rotated_log_beside(lp: Seq<char>, n: nat)
    requires
        plain_path(lp),
    ensures
        rotated_beside(lp, Some(plain_parent(lp)), Some(plain_file_name(lp)), n) == numbered(lp, n),
{
    reveal_strlit("/");
    reveal_strlit(".");
    lemma_last_slash(lp);
    let k = last_slash(lp);
    let f = plain_file_name(lp);
    let fr = numbered(f, n);
    assert(k < lp.len() - 1);
    assert(f.len() > 0);
    assert(f[0] == lp[k + 1]);
    assert(fr[0] == f[0]);
    assert(!is_absolute(fr));
    if k < 0 {
        assert(f =~= lp);
        assert(join_path(Seq::empty(), fr) =~= numbered(lp, n));
    } else if k == 0 {
        assert(lp =~= seq!['/'] + f);
        assert(join_path(seq!['/'], fr) =~= numbered(lp, n));
    } else {
        let pp = lp.take(k);
        assert(pp.last() == lp[k - 1]);
        assert(lp[k - 1] != '/');
        assert(lp =~= pp + "/"@ + f);
        assert(join_path(pp, fr) =~= numbered(lp, n));
    }
}

/// Every file of the daemon lies directly in its data directory or in its
/// `logs` directory: the path is the directory, a `/` where the directory
/// does not end in one, and the file name.
pub proof fn law_files_under_data_dir(dir: Seq<char>, file: Seq<char>)
    requires
        !is_absolute(file),
    ensures
        crate::text::is_prefix(dir, join_path(dir, file)),
        crate::text::is_suffix(file, join_path(dir, file)),
{
    let j = join_path(dir, file);
    if dir.len() == 0 || dir.last() == '/' {
        assert(j.subrange(0, dir.len() as int) =~= dir);
        assert(j.subrange(j.len() - file.len(), j.len() as int) =~= file);
    } else {
        assert(j.subrange(0, dir.len() as int) =~= dir);
        assert(j.subrange(j.len() - file.len(), j.len() as int) =~= file);
    }
}

} // verus!
