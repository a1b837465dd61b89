//! The text of an env file: `KEY=VALUE` lines.
use vstd::prelude::*;
use crate::config::{EnvVars, vars_view};
use crate::log::{all_lines, text_lines};
use crate::strmap::StrMap;
use crate::text::{chars_of, concat2, string_from_chars, strs_view, trim, trim_spec};

verus! {

/// A value without one pair of matching quotes (`"` or `'`) around it.
pub open spec fn unquoted(v: Seq<char>) -> Seq<char> {
    if v.len() >= 2 && ((v[0] == '"' && v.last() == '"') || (v[0] == '\'' && v.last() == '\'')) {
        v.subrange(1, v.len() - 1)
    } else {
        v
    }
}

/// Index of the first `=` of `s` (its length if it has none).
pub open spec fn first_equals(s: Seq<char>) -> nat
    decreases s.len(),
{
    if s.len() == 0 || s[0] == '=' { 0 } else { 1 + first_equals(s.drop_first()) }
}

/// What one line of an env file gives: nothing for a blank line or a `#`
/// comment, else the variable (its name and value trimmed, matching quotes
/// around the value removed), or an error for a line without `=`.
pub open spec fn env_line(line: Seq<char>) -> Option<Result<(Seq<char>, Seq<char>), Seq<char>>> {
    let t = trim_spec(line);
    if t.len() == 0 || t[0] == '#' {
        None
    } else {
        let k = first_equals(t);
        if k >= t.len() {
            Some(Err("malformed line: "@ + t))
        } else {
            Some(Ok((trim_spec(t.take(k as int)), unquoted(trim_spec(t.skip((k + 1) as int))))))
        }
    }
}

/// The variables of the lines, in order (a later line replaces an earlier
/// one of the same name), or the error of the first malformed line.
pub open spec fn env_vars_of(lines: Seq<Seq<char>>) -> Result<Map<Seq<char>, Seq<char>>, Seq<char>>
    decreases lines.len(),
{
    if lines.len() == 0 {
        Ok(Map::empty())
    } else {
        match env_vars_of(lines.drop_last()) {
            Err(e) => Err(e),
            Ok(m) => match env_line(lines.last()) {
                None => Ok(m),
                Some(Err(e)) => Err(e),
                Some(Ok((k, v))) => Ok(m.insert(k, v)),
            },
        }
    }
}

proof fn lemma_first_equals(s: Seq<char>, m: int)
    requires
        0 <= m <= s.len(),
        forall|j: int| 0 <= j < m ==> #[trigger] s[j] != '=',
        m < s.len() ==> s[m] == '=',
    ensures
        first_equals(s) == m,
    decreases s.len(),
{
    if m > 0 {
        let d = s.drop_first();
        assert forall|j: int| 0 <= j < m - 1 implies #[trigger] d[j] != '=' by {
            assert(d[j] == s[j + 1]);
        }
        if m < s.len() { assert(d[m - 1] == s[m]); }
        assert(s[0] != '=');
        lemma_first_equals(d, m - 1);
    }
}

/// One line of an env file (see `env_line`).
fn parse_env_line(line: &str) -> (r: Option<Result<(String, String), String>>)
    ensures
        match env_line(line@) {
            None => r is None,
            Some(Err(e)) => r matches Some(Err(m)) && m@ == e,
            Some(Ok((k, v))) => r matches Some(Ok((a, b))) && a@ == k && b@ == v,
        },
{
    proof { reveal_strlit("malformed line: "); }
    let t = trim(line);
    let c = chars_of(t.as_str());
    let n = c.len();
    if n == 0 || c[0] == '#' {
        return None;
    }
    let mut k: usize = 0;
    while k < n && c[k] != '='
        invariant
            k <= n == c@.len(),
            forall|j: int| 0 <= j < k ==> c@[j] != '=',
        decreases n - k,
    {
        k = k + 1;
    }
    proof { lemma_first_equals(c@, k as int); }
    if k == n {
        return Some(Err(concat2("malformed line: ", t.as_str())));
    }
    let key_raw = string_from_chars(c.as_slice(), 0, k);
    let val_raw = string_from_chars(c.as_slice(), k + 1, n);
    let key = trim(key_raw.as_str());
    let val = trim(val_raw.as_str());
    let vc = chars_of(val.as_str());
    let m = vc.len();
    proof {
        assert(key_raw@ =~= t@.take(k as int));
        assert(val_raw@ =~= t@.skip(k + 1));
    }
    if m >= 2 && ((vc[0] == '"' && vc[m - 1] == '"') || (vc[0] == '\'' && vc[m - 1] == '\'')) {
        let inner = string_from_chars(vc.as_slice(), 1, m - 1);
        Some(Ok((key, inner)))
    } else {
        Some(Ok((key, val)))
    }
}

/// Reads the text of an env file: one `KEY=VALUE` per line, blank lines and
/// `#` comments skipped, name and value trimmed and matching quotes around
/// the value removed; a later line replaces an earlier one of the same
/// name. A line without `=` is the error "malformed line: <line>".
pub fn parse_env_text(text: &str) -> (r: Result<EnvVars, String>)
    ensures
        match env_vars_of(text_lines(text@)) {
            Ok(m) => r matches Ok(vars) && vars.wf() && vars_view(vars) == m,
            Err(e) => r matches Err(msg) && msg@ == e,
        },
{
    let lines = all_lines(text);
    let ghost ls = text_lines(text@);
    let mut vars: EnvVars = StrMap::new();
    let mut i: usize = 0;
    proof {
        vars.lemma_wf();
        assert(ls.take(0) =~= Seq::<Seq<char>>::empty());
        assert(vars_view(vars) =~= Map::<Seq<char>, Seq<char>>::empty());
    }
    while i < lines.len()
        invariant
            ls == text_lines(text@),
            strs_view(lines@) == ls,
            i <= lines@.len(),
            vars.wf(),
            env_vars_of(ls.take(i as int)) == Ok::<Map<Seq<char>, Seq<char>>, Seq<char>>(vars_view(vars)),
        decreases lines@.len() - i,
    {
        let line = &lines[i];
        proof {
            assert(ls.take(i + 1).drop_last() =~= ls.take(i as int));
            assert(ls.take(i + 1).last() == line@);
        }
        match parse_env_line(line.as_str()) {
            None => {},
            Some(Err(m)) => {
                proof {
                    let t = ls.take(i + 1);
                    assert(t.len() > 0);
                    assert(env_vars_of(t.drop_last()) is Ok);
                    assert(env_vars_of(t) == Err::<Map<Seq<char>, Seq<char>>, Seq<char>>(m@));
                    lemma_env_error_stays(ls, (i + 1) as nat);
                    assert(ls.take(((i + 1) as nat) as int) == t);
                    assert(env_vars_of(text_lines(text@)) == Err::<Map<Seq<char>, Seq<char>>, Seq<char>>(m@));
                }
                return Err(m);
            },
            Some(Ok((k, v))) => {
                let ghost before = vars;
                vars.insert(k, v);
                proof {
                    assert(vars_view(vars) =~= vars_view(before).insert(k@, v@));
                }
            },
        }
        i = i + 1;
    }
    proof { assert(ls.take(i as int) =~= ls); }
    Ok(vars)
}

/// Once a line is malformed, so is the whole text, with that line's error.
proof fn lemma_env_error_stays(ls: Seq<Seq<char>>, k: nat)
    requires
        k <= ls.len(),
        env_vars_of(ls.take(k as int)) is Err,
    ensures
        env_vars_of(ls) == env_vars_of(ls.take(k as int)),
    decreases ls.len() - k,
{
    if k < ls.len() {
        assert(ls.take((k + 1) as int).drop_last() =~= ls.take(k as int));
        lemma_env_error_stays(ls, k + 1);
    } else {
        assert(ls.take(k as int) =~= ls);
    }
}

} // verus!
