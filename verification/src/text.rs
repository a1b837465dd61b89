//! Character-level helpers on strings, with their mathematical meaning.
use vstd::prelude::*;

verus! {

/// `String::push` appends one character at the end of the string.
#[verifier::external_body]
pub fn push_char(s: &mut String, c: char)
    ensures
        final(s)@ == old(s)@.push(c),
{
    s.push(c);
}

/// The characters of a string slice, in order.
pub fn chars_of(s: &str) -> (v: Vec<char>)
    ensures
        v@ == s@,
{
    let n = s.unicode_len();
    let mut v: Vec<char> = Vec::new();
    let mut i: usize = 0;
    while i < n
        invariant
            n == s@.len(),
            i <= n,
            v@ == s@.subrange(0, i as int),
        decreases n - i,
    {
        v.push(s.get_char(i));
        i = i + 1;
    }
    v
}

/// Builds a string from a run of characters.
pub fn string_from_chars(v: &[char], lo: usize, hi: usize) -> (s: String)
    requires
        lo <= hi <= v@.len(),
    ensures
        s@ == v@.subrange(lo as int, hi as int),
{
    let mut s = String::new();
    let mut i = lo;
    while i < hi
        invariant
            lo <= i <= hi,
            hi <= v@.len(),
            s@ == v@.subrange(lo as int, i as int),
        decreases hi - i,
    {
        push_char(&mut s, v[i]);
        i = i + 1;
    }
    s
}

/// Owned copy of a string slice.
pub fn owned(s: &str) -> (r: String)
    ensures
        r@ == s@,
{
    s.to_owned()
}

/// Concatenation of two strings into a new one.
pub fn concat2(a: &str, b: &str) -> (r: String)
    ensures
        r@ == a@ + b@,
{
    let mut r = a.to_owned();
    r.append(b);
    r
}

/// Equality of two string slices, character by character.
pub fn str_eq(a: &str, b: &str) -> (r: bool)
    ensures
        r == (a@ == b@),
{
    let x = a.to_owned();
    let y = b.to_owned();
    x == y
}

/// Whether `s` begins with `prefix`.
pub open spec fn is_prefix(prefix: Seq<char>, s: Seq<char>) -> bool {
    prefix.len() <= s.len() && s.subrange(0, prefix.len() as int) == prefix
}

/// Whether `s` ends with `suffix`.
pub open spec fn is_suffix(suffix: Seq<char>, s: Seq<char>) -> bool {
    suffix.len() <= s.len() && s.subrange(s.len() - suffix.len(), s.len() as int) == suffix
}

/// Whether `needle` occurs in `s` at position `i`.
pub open spec fn occurs_at(needle: Seq<char>, s: Seq<char>, i: int) -> bool {
    0 <= i && i + needle.len() <= s.len() && s.subrange(i, i + needle.len()) == needle
}

/// Whether `needle` occurs anywhere in `s`.
pub open spec fn contains_seq(s: Seq<char>, needle: Seq<char>) -> bool {
    exists|i: int| occurs_at(needle, s, i)
}

pub fn starts_with(s: &str, prefix: &str) -> (r: bool)
    ensures
        r == is_prefix(prefix@, s@),
{
    let sv = chars_of(s);
    let pv = chars_of(prefix);
    if pv.len() > sv.len() {
        return false;
    }
    let mut i: usize = 0;
    while i < pv.len()
        invariant
            pv.len() <= sv.len(),
            i <= pv.len(),
            sv@ == s@,
            pv@ == prefix@,
            forall|j: int| 0 <= j < i ==> sv@[j] == pv@[j],
        decreases pv.len() - i,
    {
        if sv[i] != pv[i] {
            assert(s@.subrange(0, prefix@.len() as int)[i as int] != prefix@[i as int]);
            return false;
        }
        i = i + 1;
    }
    assert(s@.subrange(0, prefix@.len() as int) =~= prefix@);
    true
}

fn occurs_at_exec(sv: &Vec<char>, nv: &Vec<char>, i: usize) -> (r: bool)
    requires
        i + nv@.len() <= sv@.len(),
    ensures
        r == occurs_at(nv@, sv@, i as int),
{
    let n = sv.len();
    let mut j: usize = 0;
    while j < nv.len()
        invariant
            n == sv@.len(),
            i + nv@.len() <= sv@.len(),
            j <= nv.len(),
            forall|k: int| 0 <= k < j ==> sv@[i + k] == nv@[k],
        decreases nv.len() - j,
    {
        if sv[i + j] != nv[j] {
            assert(sv@.subrange(i as int, i + nv@.len())[j as int] != nv@[j as int]);
            return false;
        }
        j = j + 1;
    }
    assert(sv@.subrange(i as int, i + nv@.len()) =~= nv@);
    true
}

/// Whether `needle` occurs in `s`.
pub fn contains_str(s: &str, needle: &str) -> (r: bool)
    ensures
        r == contains_seq(s@, needle@),
{
    let sv = chars_of(s);
    let nv = chars_of(needle);
    if nv.len() > sv.len() {
        assert(!contains_seq(s@, needle@));
        return false;
    }
    let last = sv.len() - nv.len();
    let mut i: usize = 0;
    while i <= last
        invariant
            last == sv.len() - nv.len(),
            nv.len() <= sv.len(),
            sv@ == s@,
            nv@ == needle@,
            i <= last,
            forall|k: int| 0 <= k < i ==> !occurs_at(needle@, s@, k),
        ensures
            forall|k: int| 0 <= k <= last ==> !occurs_at(needle@, s@, k),
        decreases last - i,
    {
        if occurs_at_exec(&sv, &nv, i) {
            return true;
        }
        if i == last {
            break;
        }
        i = i + 1;
    }
    assert forall|k: int| !occurs_at(needle@, s@, k) by {
        if occurs_at(needle@, s@, k) {
            assert(k <= last);
        }
    }
    false
}

/// Whether the character `c` occurs in `s`.
pub fn contains_char(s: &str, c: char) -> (r: bool)
    ensures
        r == s@.contains(c),
{
    let sv = chars_of(s);
    let mut i: usize = 0;
    while i < sv.len()
        invariant
            sv@ == s@,
            i <= sv.len(),
            forall|k: int| 0 <= k < i ==> sv@[k] != c,
        decreases sv.len() - i,
    {
        if sv[i] == c {
            return true;
        }
        i = i + 1;
    }
    false
}

/// The character of a decimal digit.
pub open spec fn digit_char(d: nat) -> char {
    if d == 0 { '0' }
    else if d == 1 { '1' }
    else if d == 2 { '2' }
    else if d == 3 { '3' }
    else if d == 4 { '4' }
    else if d == 5 { '5' }
    else if d == 6 { '6' }
    else if d == 7 { '7' }
    else if d == 8 { '8' }
    else { '9' }
}

/// The decimal notation of a natural number, without leading zeros.
pub open spec fn decimal(n: nat) -> Seq<char>
    decreases n,
{
    if n < 10 {
        seq![digit_char(n)]
    } else {
        decimal(n / 10).push(digit_char(n % 10))
    }
}

fn digit_exec(d: u64) -> (c: char)
    requires
        d < 10,
    ensures
        c == digit_char(d as nat),
{
    if d == 0 { '0' }
    else if d == 1 { '1' }
    else if d == 2 { '2' }
    else if d == 3 { '3' }
    else if d == 4 { '4' }
    else if d == 5 { '5' }
    else if d == 6 { '6' }
    else if d == 7 { '7' }
    else if d == 8 { '8' }
    else { '9' }
}

/// Appends the decimal notation of `n` to `s`.
pub fn push_decimal(s: &mut String, n: u64)
    ensures
        final(s)@ == old(s)@ + decimal(n as nat),
    decreases n,
{
    if n < 10 {
        push_char(s, digit_exec(n));
        assert(decimal(n as nat) =~= seq![digit_char(n as nat)]);
    } else {
        push_decimal(s, n / 10);
        push_char(s, digit_exec(n % 10));
        assert(decimal(n as nat) == decimal((n / 10) as nat).push(digit_char((n % 10) as nat)));
    }
}

/// The decimal notation of `n` as a string.
pub fn decimal_string(n: u64) -> (s: String)
    ensures
        s@ == decimal(n as nat),
{
    let mut s = String::new();
    push_decimal(&mut s, n);
    s
}

/// Lexicographic order on character sequences, characters compared by code
/// point; this is the order of `str` (UTF-8 keeps code point order).
pub open spec fn seq_lt(a: Seq<char>, b: Seq<char>) -> bool
    decreases a.len(),
{
    if a.len() == 0 {
        b.len() > 0
    } else if b.len() == 0 {
        false
    } else if (a[0] as int) < (b[0] as int) {
        true
    } else if a[0] == b[0] {
        seq_lt(a.drop_first(), b.drop_first())
    } else {
        false
    }
}

fn lt_from(a: &Vec<char>, b: &Vec<char>, i: usize) -> (r: bool)
    requires
        i <= a@.len(),
        i <= b@.len(),
    ensures
        r == seq_lt(a@.subrange(i as int, a@.len() as int), b@.subrange(i as int, b@.len() as int)),
    decreases a@.len() - i,
{
    let ghost sa = a@.subrange(i as int, a@.len() as int);
    let ghost sb = b@.subrange(i as int, b@.len() as int);
    if i == a.len() {
        return i < b.len();
    }
    if i == b.len() {
        return false;
    }
    assert(sa[0] == a@[i as int]);
    assert(sb[0] == b@[i as int]);
    if a[i] < b[i] {
        true
    } else if a[i] == b[i] {
        assert(sa.drop_first() =~= a@.subrange(i + 1, a@.len() as int));
        assert(sb.drop_first() =~= b@.subrange(i + 1, b@.len() as int));
        lt_from(a, b, i + 1)
    } else {
        false
    }
}

/// Whether `a` sorts strictly before `b`.
pub fn str_lt(a: &str, b: &str) -> (r: bool)
    ensures
        r == seq_lt(a@, b@),
{
    let av = chars_of(a);
    let bv = chars_of(b);
    assert(av@.subrange(0, av@.len() as int) =~= av@);
    assert(bv@.subrange(0, bv@.len() as int) =~= bv@);
    lt_from(&av, &bv, 0)
}

} // verus!

verus! {

/// No sequence sorts before itself.
pub proof fn lemma_seq_lt_irreflexive(a: Seq<char>)
    ensures
        !seq_lt(a, a),
    decreases a.len(),
{
    if a.len() > 0 {
        assert(a.drop_first() == a.drop_first());
        lemma_seq_lt_irreflexive(a.drop_first());
    }
}

/// The order is transitive.
pub proof fn lemma_seq_lt_transitive(a: Seq<char>, b: Seq<char>, c: Seq<char>)
    requires
        seq_lt(a, b),
        seq_lt(b, c),
    ensures
        seq_lt(a, c),
    decreases a.len(),
{
    if a.len() > 0 && b.len() > 0 && c.len() > 0 {
        if a[0] == b[0] && b[0] == c[0] {
            lemma_seq_lt_transitive(a.drop_first(), b.drop_first(), c.drop_first());
        }
    }
}

/// Two different sequences are ordered one way or the other.
pub proof fn lemma_seq_lt_total(a: Seq<char>, b: Seq<char>)
    requires
        a != b,
    ensures
        seq_lt(a, b) || seq_lt(b, a),
    decreases a.len(),
{
    if a.len() > 0 && b.len() > 0 {
        if a[0] == b[0] {
            if a.drop_first() == b.drop_first() {
                assert(a =~= seq![a[0]] + a.drop_first());
                assert(b =~= seq![b[0]] + b.drop_first());
            }
            lemma_seq_lt_total(a.drop_first(), b.drop_first());
        } else {
        }
    } else if a.len() == 0 && b.len() == 0 {
        assert(a =~= b);
    }
}

/// The order is asymmetric.
pub proof fn lemma_seq_lt_asymmetric(a: Seq<char>, b: Seq<char>)
    requires
        seq_lt(a, b),
    ensures
        !seq_lt(b, a),
{
    if seq_lt(b, a) {
        lemma_seq_lt_transitive(a, b, a);
        lemma_seq_lt_irreflexive(a);
    }
}

/// The characters of each string of a list.
pub open spec fn strs_view(v: Seq<String>) -> Seq<Seq<char>> {
    v.map_values(|s: String| s@)
}

/// Each string sorts strictly before every later one.
pub open spec fn sorted_strict(s: Seq<Seq<char>>) -> bool {
    forall|i: int, j: int| 0 <= i < j < s.len() ==> seq_lt(s[i], s[j])
}

/// Sorts a list of distinct strings in ascending order.
pub fn sort_strings(v: Vec<String>) -> (r: Vec<String>)
    requires
        strs_view(v@).no_duplicates(),
    ensures
        sorted_strict(strs_view(r@)),
        strs_view(r@).to_set() == strs_view(v@).to_set(),
        r@.len() == v@.len(),
{
    let mut r: Vec<String> = Vec::new();
    let mut i: usize = 0;
    let ghost sv = strs_view(v@);
    while i < v.len()
        invariant
            sv == strs_view(v@),
            sv.no_duplicates(),
            i <= v@.len(),
            r@.len() == i,
            sorted_strict(strs_view(r@)),
            strs_view(r@).to_set() == sv.subrange(0, i as int).to_set(),
        decreases v@.len() - i,
    {
        let x = v[i].clone();
        let ghost rv = strs_view(r@);
        assert(!rv.to_set().contains(x@)) by {
            if rv.to_set().contains(x@) {
                assert(sv.subrange(0, i as int).to_set().contains(x@));
                let j = choose|j: int| 0 <= j < i && sv.subrange(0, i as int)[j] == x@;
                assert(sv[j] == sv[i as int]);
            }
        }
        let mut p: usize = 0;
        while p < r.len() && str_lt(r[p].as_str(), x.as_str())
            invariant
                p <= r@.len(),
                rv == strs_view(r@),
                forall|k: int| 0 <= k < p ==> seq_lt(rv[k], x@),
            decreases r@.len() - p,
        {
            p = p + 1;
        }
        proof {
            if p < r@.len() {
                assert(rv.contains(rv[p as int]));
                assert(rv[p as int] != x@) by {
                    if rv[p as int] == x@ { assert(rv.to_set().contains(x@)); }
                }
                lemma_seq_lt_total(rv[p as int], x@);
            }
        }
        r.insert(p, x);
        proof {
            let nv = strs_view(r@);
            assert(nv =~= rv.subrange(0, p as int).push(x@) + rv.subrange(p as int, rv.len() as int));
            assert forall|a: int, b: int| 0 <= a < b < nv.len() implies seq_lt(nv[a], nv[b]) by {
                if b == p {
                } else if a == p {
                    if b > p + 1 {
                        lemma_seq_lt_transitive(x@, rv[p as int], rv[b - 1]);
                    }
                } else if a < p && b > p {
                    if b > p + 1 {
                        lemma_seq_lt_transitive(x@, rv[p as int], rv[b - 1]);
                    }
                    lemma_seq_lt_transitive(rv[a], x@, nv[b]);
                }
            }
            assert(nv.to_set() =~= rv.to_set().insert(x@)) by {
                assert forall|q: Seq<char>| nv.to_set().contains(q) <==> rv.to_set().insert(x@).contains(q) by {
                    if nv.contains(q) {
                        let k = choose|k: int| 0 <= k < nv.len() && nv[k] == q;
                        if k < p { assert(rv[k] == q); } else if k > p { assert(rv[k - 1] == q); }
                    }
                    if rv.contains(q) {
                        let k = choose|k: int| 0 <= k < rv.len() && rv[k] == q;
                        if k < p { assert(nv[k] == q); } else { assert(nv[k + 1] == q); }
                    }
                    if q == x@ { assert(nv[p as int] == q); }
                }
            }
            let s0 = sv.subrange(0, i as int);
            let s1 = sv.subrange(0, i + 1);
            assert(s1 =~= s0.push(x@));
            assert(s1.to_set() =~= s0.to_set().insert(x@)) by {
                assert forall|q: Seq<char>| s1.to_set().contains(q) <==> s0.to_set().insert(x@).contains(q) by {
                    if s1.contains(q) {
                        let k = choose|k: int| 0 <= k < s1.len() && s1[k] == q;
                        if k < i { assert(s0[k] == q); }
                    }
                    if s0.contains(q) {
                        let k = choose|k: int| 0 <= k < s0.len() && s0[k] == q;
                        assert(s1[k] == q);
                    }
                    if q == x@ { assert(s1[i as int] == q); }
                }
            }
        }
        i = i + 1;
    }
    proof { assert(sv.subrange(0, i as int) =~= sv); }
    r
}

} // verus!

verus! {

/// The parts joined with `sep` between consecutive parts.
pub open spec fn join_with(parts: Seq<Seq<char>>, sep: Seq<char>) -> Seq<char>
    decreases parts.len(),
{
    if parts.len() == 0 {
        Seq::empty()
    } else if parts.len() == 1 {
        parts[0]
    } else {
        join_with(parts.drop_last(), sep) + sep + parts.last()
    }
}

/// Joins strings with a separator.
pub fn join_strings(parts: &Vec<String>, sep: &str) -> (r: String)
    ensures
        r@ == join_with(strs_view(parts@), sep@),
{
    let mut r = String::new();
    let mut i: usize = 0;
    while i < parts.len()
        invariant
            i <= parts@.len(),
            r@ == join_with(strs_view(parts@).subrange(0, i as int), sep@),
        decreases parts@.len() - i,
    {
        let ghost sub = strs_view(parts@).subrange(0, i + 1);
        proof {
            assert(sub.drop_last() =~= strs_view(parts@).subrange(0, i as int));
            assert(sub.last() == parts@[i as int]@);
        }
        if i > 0 {
            r.append(sep);
        }
        r.append(parts[i].as_str());
        proof {
            if i == 0 {
                assert(sub.len() == 1);
                assert(r@ =~= sub[0]);
            }
        }
        i = i + 1;
    }
    proof {
        assert(strs_view(parts@).subrange(0, i as int) =~= strs_view(parts@));
    }
    r
}

} // verus!

verus! {

/// Whether a character has the Unicode `White_Space` property (the meaning
/// of `char::is_whitespace`): tab to carriage return, space, next line,
/// no-break space, the Ogham space mark, the en quad to the hair space, the
/// line and paragraph separators, the narrow no-break space, the medium
/// mathematical space and the ideographic space.
pub open spec fn unicode_whitespace(c: char) -> bool {
    let n = c as u32;
    ||| 0x9 <= n <= 0xD
    ||| n == 0x20 || n == 0x85 || n == 0xA0 || n == 0x1680
    ||| 0x2000 <= n <= 0x200A
    ||| n == 0x2028 || n == 0x2029 || n == 0x202F || n == 0x205F || n == 0x3000
}

/// Whether a character has the Unicode `Alphabetic` property
/// (the meaning of `char::is_alphabetic`).
pub uninterp spec fn unicode_alphabetic(c: char) -> bool;

/// The Unicode uppercase mapping of a string (the meaning of `str::to_uppercase`).
pub uninterp spec fn unicode_uppercase(s: Seq<char>) -> Seq<char>;

/// Whether `c` has the Unicode `White_Space` property, as
/// `char::is_whitespace` tells.
pub fn is_whitespace(c: char) -> (r: bool)
    ensures
        r == unicode_whitespace(c),
{
    let n = c as u32;
    (0x9 <= n && n <= 0xD) || n == 0x20 || n == 0x85 || n == 0xA0 || n == 0x1680
        || (0x2000 <= n && n <= 0x200A)
        || n == 0x2028 || n == 0x2029 || n == 0x202F || n == 0x205F || n == 0x3000
}

/// An ASCII character.
pub open spec fn is_ascii_char(c: char) -> bool {
    (c as u32) < 0x80
}

/// An ASCII letter.
pub open spec fn is_ascii_letter(c: char) -> bool {
    ('a' <= c && c <= 'z') || ('A' <= c && c <= 'Z')
}

/// The ASCII uppercase of a character: lowercase letters raised, anything
/// else kept.
pub open spec fn ascii_upper(c: char) -> char {
    if 'a' <= c && c <= 'z' { ((c as u32) - 32) as char } else { c }
}

/// `char::is_alphabetic`: whether `c` has the `Alphabetic` property. Of the
/// property, only its ASCII part is claimed here: among ASCII characters
/// the letters are the alphabetic ones.
#[verifier::external_body]
pub fn is_alphabetic(c: char) -> (r: bool)
    ensures
        r == unicode_alphabetic(c),
        is_ascii_char(c) ==> (r <==> is_ascii_letter(c)),
{
    c.is_alphabetic()
}

/// `str::to_uppercase`: the uppercase equivalent of a string, as a new
/// `String`. Of the Unicode case mapping, only its ASCII part is claimed
/// here: an ASCII string has its lowercase letters raised, one for one.
#[verifier::external_body]
pub fn to_uppercase(s: &str) -> (r: String)
    ensures
        r@ == unicode_uppercase(s@),
        (forall|i: int| 0 <= i < s@.len() ==> is_ascii_char(#[trigger] s@[i]))
            ==> r@ == s@.map_values(|c: char| ascii_upper(c)),
{
    s.to_uppercase()
}

/// Number of leading whitespace characters of `s`.
pub open spec fn leading_ws(s: Seq<char>) -> nat
    decreases s.len(),
{
    if s.len() > 0 && unicode_whitespace(s[0]) {
        1 + leading_ws(s.drop_first())
    } else {
        0
    }
}

/// Number of trailing whitespace characters of `s`.
pub open spec fn trailing_ws(s: Seq<char>) -> nat
    decreases s.len(),
{
    if s.len() > 0 && unicode_whitespace(s.last()) {
        1 + trailing_ws(s.drop_last())
    } else {
        0
    }
}

/// `s` without its trailing whitespace.
pub open spec fn trim_end_spec(s: Seq<char>) -> Seq<char> {
    s.subrange(0, s.len() - trailing_ws(s))
}

/// `s` without its leading and trailing whitespace.
pub open spec fn trim_spec(s: Seq<char>) -> Seq<char> {
    let t = s.skip(leading_ws(s) as int);
    t.subrange(0, t.len() - trailing_ws(t))
}

pub proof fn lemma_leading_ws(s: Seq<char>)
    ensures
        leading_ws(s) <= s.len(),
        forall|i: int| 0 <= i < leading_ws(s) ==> unicode_whitespace(#[trigger] s[i]),
        leading_ws(s) < s.len() ==> !unicode_whitespace(s[leading_ws(s) as int]),
    decreases s.len(),
{
    if s.len() > 0 && unicode_whitespace(s[0]) {
        lemma_leading_ws(s.drop_first());
        assert forall|i: int| 0 <= i < leading_ws(s) implies unicode_whitespace(#[trigger] s[i]) by {
            if i > 0 {
                assert(s[i] == s.drop_first()[i - 1]);
            }
        }
    }
}

pub proof fn lemma_trailing_ws(s: Seq<char>)
    ensures
        trailing_ws(s) <= s.len(),
        forall|i: int| s.len() - trailing_ws(s) <= i < s.len() ==> unicode_whitespace(#[trigger] s[i]),
        trailing_ws(s) < s.len() ==> !unicode_whitespace(s[s.len() - trailing_ws(s) - 1]),
    decreases s.len(),
{
    if s.len() > 0 && unicode_whitespace(s.last()) {
        lemma_trailing_ws(s.drop_last());
        assert forall|i: int| s.len() - trailing_ws(s) <= i < s.len() implies unicode_whitespace(#[trigger] s[i]) by {
            if i < s.len() - 1 {
                assert(s[i] == s.drop_last()[i]);
            }
        }
    }
}

/// The trailing whitespace of `s` is the characters after the last
/// non-whitespace one.
proof fn lemma_trailing_ws_prefix(s: Seq<char>, k: int)
    requires
        0 <= k <= s.len(),
        forall|i: int| k <= i < s.len() ==> unicode_whitespace(#[trigger] s[i]),
        k > 0 ==> !unicode_whitespace(s[k - 1]),
    ensures
        trailing_ws(s) == s.len() - k,
    decreases s.len(),
{
    if s.len() > k {
        let d = s.drop_last();
        assert forall|i: int| k <= i < d.len() implies unicode_whitespace(#[trigger] d[i]) by {
            assert(d[i] == s[i]);
        }
        if k > 0 { assert(d[k - 1] == s[k - 1]); }
        lemma_trailing_ws_prefix(d, k);
    } else if k > 0 {
        assert(s.last() == s[k - 1]);
    }
}

proof fn lemma_leading_ws_suffix(s: Seq<char>, k: int)
    requires
        0 <= k <= s.len(),
        forall|i: int| 0 <= i < k ==> unicode_whitespace(#[trigger] s[i]),
        k < s.len() ==> !unicode_whitespace(s[k]),
    ensures
        leading_ws(s) == k,
    decreases s.len(),
{
    if k > 0 {
        let d = s.drop_first();
        assert forall|i: int| 0 <= i < k - 1 implies unicode_whitespace(#[trigger] d[i]) by {
            assert(d[i] == s[i + 1]);
        }
        if k < s.len() { assert(d[k - 1] == s[k]); }
        assert(unicode_whitespace(s[0]));
        lemma_leading_ws_suffix(d, k - 1);
    } else if s.len() > 0 {
        assert(!unicode_whitespace(s[0]));
    }
}

/// Index just past the last non-whitespace character of `v[lo..hi]`.
fn trim_end_index(v: &Vec<char>, lo: usize, hi: usize) -> (r: usize)
    requires
        lo <= hi <= v@.len(),
    ensures
        lo <= r <= hi,
        r == hi - trailing_ws(v@.subrange(lo as int, hi as int)),
{
    let mut e = hi;
    while e > lo && is_whitespace(v[e - 1])
        invariant
            lo <= e <= hi,
            hi <= v@.len(),
            forall|i: int| e <= i < hi ==> unicode_whitespace(#[trigger] v@[i]),
        decreases e - lo,
    {
        e = e - 1;
    }
    proof {
        let t = v@.subrange(lo as int, hi as int);
        assert forall|i: int| e - lo <= i < t.len() implies unicode_whitespace(#[trigger] t[i]) by {
            assert(t[i] == v@[lo + i]);
        }
        if e > lo { assert(t[e - lo - 1] == v@[e - 1]); }
        lemma_trailing_ws_prefix(t, e - lo);
    }
    e
}

/// Index of the first non-whitespace character of `v[lo..hi]` (or `hi`).
fn trim_start_index(v: &Vec<char>, lo: usize, hi: usize) -> (r: usize)
    requires
        lo <= hi <= v@.len(),
    ensures
        lo <= r <= hi,
        r == lo + leading_ws(v@.subrange(lo as int, hi as int)),
{
    let mut b = lo;
    while b < hi && is_whitespace(v[b])
        invariant
            lo <= b <= hi,
            hi <= v@.len(),
            forall|i: int| lo <= i < b ==> unicode_whitespace(#[trigger] v@[i]),
        decreases hi - b,
    {
        b = b + 1;
    }
    proof {
        let t = v@.subrange(lo as int, hi as int);
        assert forall|i: int| 0 <= i < b - lo implies unicode_whitespace(#[trigger] t[i]) by {
            assert(t[i] == v@[lo + i]);
        }
        if b < hi { assert(t[b - lo] == v@[b as int]); }
        lemma_leading_ws_suffix(t, b - lo);
    }
    b
}

/// `str::trim_end`: the string without trailing whitespace.
pub fn trim_end(s: &str) -> (r: String)
    ensures
        r@ == trim_end_spec(s@),
{
    let v = chars_of(s);
    let e = trim_end_index(&v, 0, v.len());
    proof { assert(v@.subrange(0, v@.len() as int) =~= s@); }
    string_from_chars(v.as_slice(), 0, e)
}

/// `str::trim`: the string without leading and trailing whitespace.
pub fn trim(s: &str) -> (r: String)
    ensures
        r@ == trim_spec(s@),
{
    let v = chars_of(s);
    let n = v.len();
    let b = trim_start_index(&v, 0, n);
    let e = trim_end_index(&v, b, n);
    proof {
        assert(v@.subrange(0, n as int) =~= s@);
        let t = s@.skip(leading_ws(s@) as int);
        assert(v@.subrange(b as int, n as int) =~= t);
        assert(v@.subrange(b as int, e as int) =~= t.subrange(0, t.len() - trailing_ws(t)));
    }
    string_from_chars(v.as_slice(), b, e)
}

/// Removing trailing whitespace is not changed by a line feed at the end.
pub proof fn lemma_trim_end_newline(s: Seq<char>)
    ensures
        trim_end_spec(s.push('\n')) == trim_end_spec(s),
{
    let t = s.push('\n');
    assert(t.drop_last() =~= s);
    assert(trailing_ws(t) == 1 + trailing_ws(s));
    lemma_trailing_ws(s);
    assert(t.subrange(0, t.len() - trailing_ws(t)) =~= s.subrange(0, s.len() - trailing_ws(s)));
}

/// Optional sign followed by the decimal notation of the magnitude.
pub open spec fn int_decimal(n: int) -> Seq<char> {
    if n < 0 {
        seq!['-'] + decimal((-n) as nat)
    } else {
        decimal(n as nat)
    }
}

/// The decimal notation of a signed integer.
pub fn i32_decimal(n: i32) -> (s: String)
    ensures
        s@ == int_decimal(n as int),
{
    if n < 0 {
        let m: u64 = (0i64 - (n as i64)) as u64;
        let mut s = String::new();
        push_char(&mut s, '-');
        push_decimal(&mut s, m);
        s
    } else {
        decimal_string(n as u64)
    }
}

} // verus!
