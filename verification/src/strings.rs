//! Utilities over character sequences: conversions between `String` and
//! `Vec<char>`, substring tests, the replace-all operation that the
//! placeholder resolver is built on, lexicographic ordering of names, and
//! decimal rendering of placeholder indices.

use vstd::prelude::*;
use vstd::string::*;

verus! {

/// Appends one character to a `String`.
///
/// Relies on `String::push`, which appends the given `char` to the end of
/// the string; vstd gives it no specification.
#[verifier::external_body]
pub(crate) fn push_char(s: &mut String, c: char)
    ensures
        final(s)@ == old(s)@.push(c),
{
    s.push(c);
}

/// Collects the characters of a string slice into a vector.
pub fn str_to_chars(s: &str) -> (v: Vec<char>)
    ensures
        v@ == s@,
{
    let n = s.unicode_len();
    let mut v: Vec<char> = Vec::new();
    for i in 0..n
        invariant
            n == s@.len(),
            v@ == s@.take(i as int),
    {
        v.push(s.get_char(i));
        proof {
            assert(v@ =~= s@.take(i + 1));
        }
    }
    proof {
        assert(v@ =~= s@);
    }
    v
}

/// Builds a `String` from a vector of characters.
pub fn chars_to_string(v: &Vec<char>) -> (s: String)
    ensures
        s@ == v@,
{
    let mut s = String::new();
    for i in 0..v.len()
        invariant
            s@ == v@.take(i as int),
    {
        push_char(&mut s, v[i]);
        proof {
            assert(s@ =~= v@.take(i + 1));
        }
    }
    proof {
        assert(s@ =~= v@);
    }
    s
}

/// Two string slices hold the same characters.
pub fn str_eq(a: &str, b: &str) -> (r: bool)
    ensures
        r == (a@ == b@),
{
    let n = a.unicode_len();
    let m = b.unicode_len();
    if n != m {
        proof {
            assert(a@ != b@);
        }
        return false;
    }
    for i in 0..n
        invariant
            n == a@.len() && n == b@.len(),
            forall|j: int| 0 <= j < i ==> a@[j] == b@[j],
    {
        if a.get_char(i) != b.get_char(i) {
            return false;
        }
    }
    proof {
        assert(a@ =~= b@);
    }
    true
}

/// The pattern `pat` occurs in `s` starting at position `i`.
pub open spec fn contains_at(s: Seq<char>, pat: Seq<char>, i: int) -> bool {
    0 <= i && i + pat.len() <= s.len() && s.subrange(i, i + pat.len()) == pat
}

/// The pattern `pat` occurs somewhere in `s`.
pub open spec fn contains_seq(s: Seq<char>, pat: Seq<char>) -> bool {
    exists|i: int| contains_at(s, pat, i)
}

/// Every occurrence of `pat` in `s`, scanned left to right and without
/// overlap, replaced by `rep`.  A pattern with no characters leaves `s`
/// unchanged.
pub open spec fn replace_all(s: Seq<char>, pat: Seq<char>, rep: Seq<char>) -> Seq<char>
    decreases s.len(),
{
    if pat.len() == 0 || s.len() < pat.len() {
        s
    } else if s.subrange(0, pat.len() as int) == pat {
        rep + replace_all(s.subrange(pat.len() as int, s.len() as int), pat, rep)
    } else {
        s.subrange(0, 1) + replace_all(s.subrange(1, s.len() as int), pat, rep)
    }
}

/// A string without the pattern is left unchanged by replacement.
pub proof fn lemma_replace_all_absent(s: Seq<char>, pat: Seq<char>, rep: Seq<char>)
    requires
        !contains_seq(s, pat),
    ensures
        replace_all(s, pat, rep) == s,
    decreases s.len(),
{
    if pat.len() == 0 || s.len() < pat.len() {
    } else {
        if s.subrange(0, pat.len() as int) == pat {
            assert(contains_at(s, pat, 0));
        }
        let tail = s.subrange(1, s.len() as int);
        assert forall|i: int| !contains_at(tail, pat, i) by {
            if contains_at(tail, pat, i) {
                assert(s.subrange(i + 1, i + 1 + pat.len()) =~= tail.subrange(i, i + pat.len()));
                assert(contains_at(s, pat, i + 1));
            }
        }
        lemma_replace_all_absent(tail, pat, rep);
        assert(s.subrange(0, 1) + tail =~= s);
    }
}

/// A pattern occurring in the right part of a concatenation occurs in the
/// whole.
pub proof fn lemma_contains_concat_right(a: Seq<char>, b: Seq<char>, p: Seq<char>)
    requires
        contains_seq(b, p),
    ensures
        contains_seq(a + b, p),
{
    let i = choose|i: int| contains_at(b, p, i);
    assert((a + b).subrange(a.len() + i, a.len() + i + p.len()) =~= b.subrange(i, i + p.len()));
    assert(contains_at(a + b, p, a.len() + i));
}

/// A pattern occurring at some position of a suffix occurs in the whole.
pub proof fn lemma_contains_in_skip(s: Seq<char>, n: int, p: Seq<char>)
    requires
        0 <= n <= s.len(),
        contains_seq(s.skip(n), p),
    ensures
        contains_seq(s, p),
{
    let i = choose|i: int| contains_at(s.skip(n), p, i);
    assert(s.subrange(n + i, n + i + p.len()) =~= s.skip(n).subrange(i, i + p.len()));
    assert(contains_at(s, p, n + i));
}

/// Unfolding step of `replace_all` when the pattern matches at the front.
proof fn lemma_replace_all_step_match(s: Seq<char>, pat: Seq<char>, rep: Seq<char>)
    requires
        pat.len() >= 1,
        contains_at(s, pat, 0),
    ensures
        replace_all(s, pat, rep) == rep + replace_all(
            s.subrange(pat.len() as int, s.len() as int),
            pat,
            rep,
        ),
{
}

/// Unfolding step of `replace_all` when the pattern does not match at the
/// front: the first character is kept and the scan moves on by one.
proof fn lemma_replace_all_step_nomatch(s: Seq<char>, pat: Seq<char>, rep: Seq<char>)
    requires
        pat.len() >= 1,
        s.len() >= 1,
        !contains_at(s, pat, 0),
    ensures
        replace_all(s, pat, rep) == s.subrange(0, 1) + replace_all(
            s.subrange(1, s.len() as int),
            pat,
            rep,
        ),
{
    if s.len() < pat.len() {
        let tail = s.subrange(1, s.len() as int);
        assert(tail.len() < pat.len());
        assert(s.subrange(0, 1) + tail =~= s);
    }
}

/// Appends all characters of `w` to `v`.
pub fn push_all(v: &mut Vec<char>, w: &Vec<char>)
    ensures
        final(v)@ == old(v)@ + w@,
{
    for i in 0..w.len()
        invariant
            v@ == old(v)@ + w@.take(i as int),
    {
        v.push(w[i]);
        proof {
            assert(old(v)@ + w@.take(i as int) + seq![w@[i as int]] =~= old(v)@ + w@.take(
                i + 1,
            ));
        }
    }
    proof {
        assert(old(v)@ + w@.take(w@.len() as int) =~= old(v)@ + w@);
    }
}

/// Replaces every occurrence of `pat` in `s` by `rep`, scanning left to
/// right without overlap.
pub fn vec_replace_all(s: &Vec<char>, pat: &Vec<char>, rep: &Vec<char>) -> (r: Vec<char>)
    ensures
        r@ == replace_all(s@, pat@, rep@),
{
    if pat.len() == 0 {
        return s.clone();
    }
    let n = s.len();
    let mut out: Vec<char> = Vec::new();
    let mut i: usize = 0;
    proof {
        assert(s@.subrange(0, n as int) =~= s@);
        assert(out@ + replace_all(s@, pat@, rep@) =~= replace_all(s@, pat@, rep@));
    }
    while i < n
        invariant
            n == s@.len(),
            pat@.len() >= 1,
            i <= n,
            replace_all(s@, pat@, rep@) == out@ + replace_all(
                s@.subrange(i as int, n as int),
                pat@,
                rep@,
            ),
        decreases n - i,
    {
        let ghost tail = s@.subrange(i as int, n as int);
        if pat.len() <= n - i && match_at(s, pat, i) {
            proof {
                assert(tail.subrange(0, pat@.len() as int) =~= s@.subrange(
                    i as int,
                    i + pat@.len(),
                ));
                assert(contains_at(tail, pat@, 0));
                lemma_replace_all_step_match(tail, pat@, rep@);
                assert(tail.subrange(pat@.len() as int, tail.len() as int) =~= s@.subrange(
                    i + pat@.len(),
                    n as int,
                ));
            }
            let ghost out0 = out@;
            push_all(&mut out, rep);
            i = i + pat.len();
            proof {
                assert(out0 + (rep@ + replace_all(s@.subrange(i as int, n as int), pat@, rep@))
                    =~= out@ + replace_all(s@.subrange(i as int, n as int), pat@, rep@));
            }
        } else {
            proof {
                if contains_at(s@, pat@, i as int) {
                    assert(pat@.len() <= n - i);
                }
                assert(!contains_at(tail, pat@, 0)) by {
                    if contains_at(tail, pat@, 0) {
                        assert(s@.subrange(i as int, i + pat@.len()) =~= tail.subrange(
                            0,
                            pat@.len() as int,
                        ));
                        assert(contains_at(s@, pat@, i as int));
                    }
                }
                lemma_replace_all_step_nomatch(tail, pat@, rep@);
                assert(tail.subrange(0, 1) =~= seq![s@[i as int]]);
                assert(tail.subrange(1, tail.len() as int) =~= s@.subrange(i + 1, n as int));
            }
            let ghost out0 = out@;
            out.push(s[i]);
            i = i + 1;
            proof {
                assert(out0 + (seq![s@[i - 1]] + replace_all(
                    s@.subrange(i as int, n as int),
                    pat@,
                    rep@,
                )) =~= out@ + replace_all(s@.subrange(i as int, n as int), pat@, rep@));
            }
        }
    }
    proof {
        let empty = s@.subrange(n as int, n as int);
        assert(empty.len() == 0);
        assert(out@ + replace_all(empty, pat@, rep@) =~= out@);
    }
    out
}

/// `pat` occurs in `s` at position `i` (callers check the bounds).
pub fn match_at(s: &Vec<char>, pat: &Vec<char>, i: usize) -> (r: bool)
    requires
        i + pat@.len() <= s@.len(),
    ensures
        r == contains_at(s@, pat@, i as int),
{
    let n = s.len();
    for j in 0..pat.len()
        invariant
            n == s@.len(),
            i + pat@.len() <= n,
            forall|k: int| 0 <= k < j ==> s@[i + k] == pat@[k],
    {
        if s[i + j] != pat[j] {
            proof {
                assert(s@.subrange(i as int, i + pat@.len())[j as int] != pat@[j as int]);
            }
            return false;
        }
    }
    proof {
        assert(s@.subrange(i as int, i + pat@.len()) =~= pat@);
    }
    true
}

/// Whether `pat` occurs anywhere in `s`.
pub fn vec_contains_seq(s: &Vec<char>, pat: &Vec<char>) -> (r: bool)
    ensures
        r == contains_seq(s@, pat@),
{
    if pat.len() > s.len() {
        return false;
    }
    if pat.len() == 0 {
        proof {
            assert(contains_at(s@, pat@, 0)) by {
                assert(s@.subrange(0, 0) =~= pat@);
            }
        }
        return true;
    }
    let n = s.len();
    let last = n - pat.len();
    let mut i: usize = 0;
    while i <= last
        invariant
            n == s@.len(),
            1 <= pat@.len() <= n,
            last == n - pat@.len(),
            i <= last + 1,
            forall|k: int| 0 <= k < i ==> !contains_at(s@, pat@, k),
        decreases last + 1 - i,
    {
        if match_at(s, pat, i) {
            return true;
        }
        i = i + 1;
    }
    false
}

/// The lowercase form of a character sequence, as `str::to_lowercase`
/// computes it: a function of the characters alone.
pub uninterp spec fn lower_of(s: Seq<char>) -> Seq<char>;

/// Lowercases a string for case-insensitive comparison.
///
/// Relies on `str::to_lowercase`: the result depends on the characters of
/// the input alone.
#[verifier::external_body]
pub(crate) fn lowercase(s: &str) -> (r: String)
    ensures
        r@ == lower_of(s@),
        s@.len() == 0 ==> r@.len() == 0,
{
    s.to_lowercase()
}

/// Strict lexicographic order on character sequences, comparing characters
/// by their scalar values.
pub open spec fn lex_lt(a: Seq<char>, b: Seq<char>) -> bool
    decreases a.len(),
{
    if b.len() == 0 {
        false
    } else if a.len() == 0 {
        true
    } else if a[0] as int != b[0] as int {
        (a[0] as int) < (b[0] as int)
    } else {
        lex_lt(a.skip(1), b.skip(1))
    }
}

/// Any two character sequences are ordered or equal.
pub proof fn lemma_lex_connex(a: Seq<char>, b: Seq<char>)
    ensures
        lex_lt(a, b) || lex_lt(b, a) || a == b,
    decreases a.len(),
{
    if b.len() == 0 || a.len() == 0 {
        if a.len() == 0 && b.len() == 0 {
            assert(a =~= b);
        }
    } else if a[0] as int == b[0] as int {
        lemma_lex_connex(a.skip(1), b.skip(1));
        if a.skip(1) == b.skip(1) {
            assert(a.skip(1).len() == a.len() - 1);
            assert(b.skip(1).len() == b.len() - 1);
            assert(a.len() == b.len());
            assert forall|k: int| 0 <= k < a.len() implies a[k] == b[k] by {
                if k > 0 {
                    assert(a[k] == a.skip(1)[k - 1]);
                    assert(b[k] == b.skip(1)[k - 1]);
                }
            }
            assert(a =~= b);
        }
    }
}

/// Lexicographic order is irreflexive.
pub proof fn lemma_lex_irrefl(a: Seq<char>)
    ensures
        !lex_lt(a, a),
    decreases a.len(),
{
    if a.len() > 0 {
        lemma_lex_irrefl(a.skip(1));
    }
}

/// Lexicographic order is transitive.
pub proof fn lemma_lex_trans(a: Seq<char>, b: Seq<char>, c: Seq<char>)
    requires
        lex_lt(a, b),
        lex_lt(b, c),
    ensures
        lex_lt(a, c),
    decreases a.len() + b.len() + c.len(),
{
    if a.len() == 0 {
        assert(b.len() > 0);
        assert(c.len() > 0);
    } else {
        assert(b.len() > 0 && c.len() > 0);
        if a[0] == b[0] && b[0] == c[0] {
            lemma_lex_trans(a.skip(1), b.skip(1), c.skip(1));
        }
    }
}

/// Compares two string slices in the lexicographic order `lex_lt`.
pub fn str_lex_lt(a: &str, b: &str) -> (r: bool)
    ensures
        r == lex_lt(a@, b@),
{
    let na = a.unicode_len();
    let nb = b.unicode_len();
    let mut i: usize = 0;
    proof {
        assert(a@.skip(0) =~= a@);
        assert(b@.skip(0) =~= b@);
    }
    while i < na && i < nb
        invariant
            na == a@.len(),
            nb == b@.len(),
            i <= na && i <= nb,
            lex_lt(a@, b@) == lex_lt(a@.skip(i as int), b@.skip(i as int)),
        decreases na - i,
    {
        let ca = a.get_char(i);
        let cb = b.get_char(i);
        if (ca as u32) != (cb as u32) {
            return (ca as u32) < (cb as u32);
        }
        proof {
            assert(a@.skip(i as int).skip(1) =~= a@.skip(i + 1));
            assert(b@.skip(i as int).skip(1) =~= b@.skip(i + 1));
        }
        i = i + 1;
    }
    i == na && i < nb
}

/// The character for one decimal digit.
pub open spec fn digit_char(d: int) -> char {
    if d == 0 {
        '0'
    } else if d == 1 {
        '1'
    } else if d == 2 {
        '2'
    } else if d == 3 {
        '3'
    } else if d == 4 {
        '4'
    } else if d == 5 {
        '5'
    } else if d == 6 {
        '6'
    } else if d == 7 {
        '7'
    } else if d == 8 {
        '8'
    } else {
        '9'
    }
}

/// The decimal rendering of a natural number, most significant digit first,
/// with no leading zeros (zero itself is rendered as one digit).
pub open spec fn dec_str(n: nat) -> Seq<char>
    decreases n,
{
    if n < 10 {
        seq![digit_char(n as int)]
    } else {
        dec_str(n / 10) + seq![digit_char((n % 10) as int)]
    }
}

/// A decimal rendering holds at least one character.
pub proof fn lemma_dec_str_len(n: nat)
    ensures
        dec_str(n).len() >= 1,
    decreases n,
{
    if n >= 10 {
        lemma_dec_str_len(n / 10);
    }
}

/// Distinct numbers render to distinct decimal strings.
pub proof fn lemma_dec_str_injective(m: nat, n: nat)
    requires
        dec_str(m) == dec_str(n),
    ensures
        m == n,
    decreases m,
{
    if m < 10 && n < 10 {
        assert(dec_str(m)[0] == digit_char(m as int));
        assert(dec_str(n)[0] == digit_char(n as int));
    } else if m < 10 && n >= 10 {
        lemma_dec_str_len(n / 10);
        assert(dec_str(n).len() >= 2);
    } else if m >= 10 && n < 10 {
        lemma_dec_str_len(m / 10);
        assert(dec_str(m).len() >= 2);
    } else {
        let dm = dec_str(m / 10);
        let dn = dec_str(n / 10);
        assert(dec_str(m).last() == digit_char((m % 10) as int));
        assert(dec_str(n).last() == digit_char((n % 10) as int));
        assert(m % 10 == n % 10);
        assert(dm =~= dec_str(m).drop_last());
        assert(dn =~= dec_str(n).drop_last());
        lemma_dec_str_injective(m / 10, n / 10);
    }
}

/// The character for one decimal digit, executable form.
fn digit_exec(d: usize) -> (c: char)
    requires
        d < 10,
    ensures
        c == digit_char(d as int),
{
    if d == 0 {
        '0'
    } else if d == 1 {
        '1'
    } else if d == 2 {
        '2'
    } else if d == 3 {
        '3'
    } else if d == 4 {
        '4'
    } else if d == 5 {
        '5'
    } else if d == 6 {
        '6'
    } else if d == 7 {
        '7'
    } else if d == 8 {
        '8'
    } else {
        '9'
    }
}

/// Appends the decimal rendering of `n` to `out`.
fn push_dec(out: &mut Vec<char>, n: usize)
    ensures
        final(out)@ == old(out)@ + dec_str(n as nat),
    decreases n,
{
    if n < 10 {
        out.push(digit_exec(n));
        proof {
            assert(final(out)@ =~= old(out)@ + dec_str(n as nat));
        }
    } else {
        push_dec(out, n / 10);
        out.push(digit_exec(n % 10));
        proof {
            assert(old(out)@ + dec_str((n / 10) as nat) + seq![
                digit_char((n % 10) as int),
            ] =~= old(out)@ + dec_str(n as nat));
        }
    }
}

/// The `$i` placeholder for one call-time argument position.
pub open spec fn dollar_ph(i: nat) -> Seq<char> {
    seq!['$'] + dec_str(i)
}

/// The `#i` placeholder for one fallback argument position.
pub open spec fn hash_ph(i: nat) -> Seq<char> {
    seq!['#'] + dec_str(i)
}

/// Builds the placeholder `marker` followed by the decimal rendering of `i`.
pub fn make_placeholder(marker: char, i: usize) -> (r: Vec<char>)
    ensures
        r@ == seq![marker] + dec_str(i as nat),
{
    let mut v: Vec<char> = Vec::new();
    v.push(marker);
    push_dec(&mut v, i);
    proof {
        assert(seq![marker] + dec_str(i as nat) =~= v@);
    }
    v
}

} // verus!
