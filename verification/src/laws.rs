//! The engine's general laws, proved once and for all: how the resolver
//! behaves on templates without placeholders or with only direct
//! placeholders, how conflict enumeration counts sources, what an add
//! followed by a remove leaves behind, and that contexts never
//! cross-contaminate.

use vstd::prelude::*;
use crate::config::{sec_conflicts, lemma_sec_conflicts_skip_absent, ConfigManager};
use crate::resolver::{
    apply_dollar_args, apply_fallback, apply_vars, resolve_template_spec, var_key_defined,
};
use crate::strings::{contains_seq, dollar_ph, hash_ph, lemma_replace_all_absent};
use crate::variables::VariableManager;

verus! {

/// The direct-placeholder pass leaves a string unchanged when none of the
/// remaining `$i` placeholders occurs in it.
pub proof fn lemma_dollar_pass_id(s: Seq<char>, args: Seq<Seq<char>>, k: int)
    requires
        forall|i: int| k < i <= args.len() ==> !contains_seq(s, #[trigger] dollar_ph(i as nat)),
    ensures
        apply_dollar_args(s, args, k) == s,
    decreases args.len() - k,
{
    if 0 <= k < args.len() {
        lemma_replace_all_absent(s, dollar_ph((k + 1) as nat), args[k]);
        lemma_dollar_pass_id(s, args, k + 1);
    }
}

/// The variable pass leaves a string unchanged when none of the remaining
/// variable names occurs in it.
pub proof fn lemma_vars_pass_id(s: Seq<char>, vars: Seq<(Seq<char>, Seq<char>)>, k: int)
    requires
        forall|j: int| k <= j < vars.len() ==> !contains_seq(s, (#[trigger] vars[j]).0),
    ensures
        apply_vars(s, vars, k) == s,
    decreases vars.len() - k,
{
    if 0 <= k < vars.len() {
        lemma_replace_all_absent(s, vars[k].0, vars[k].1);
        lemma_vars_pass_id(s, vars, k + 1);
    }
}

/// The fallback pass leaves a string unchanged when none of the remaining
/// `#i` placeholders occurs in it.
pub proof fn lemma_fallback_pass_id(
    s: Seq<char>,
    vars: Seq<(Seq<char>, Seq<char>)>,
    args: Seq<Seq<char>>,
    i0: int,
    next_arg: int,
)
    requires
        forall|i: int| i0 <= i <= args.len() + 10 ==> !contains_seq(s, #[trigger] hash_ph(i as nat)),
    ensures
        apply_fallback(s, vars, args, i0, next_arg) == s,
    decreases args.len() + 11 - i0,
{
    if 1 <= i0 <= args.len() + 10 {
        lemma_fallback_pass_id(s, vars, args, i0 + 1, next_arg);
    }
}

/// Resolving a template that holds no placeholder of either family and no
/// stored variable name returns it unchanged, whatever the variables and
/// arguments are.
pub proof fn law_resolve_without_placeholders(
    t: Seq<char>,
    vars: Seq<(Seq<char>, Seq<char>)>,
    args: Seq<Seq<char>>,
)
    requires
        forall|i: int| 1 <= i <= args.len() ==> !contains_seq(t, #[trigger] dollar_ph(i as nat)),
        forall|j: int| 0 <= j < vars.len() ==> !contains_seq(t, (#[trigger] vars[j]).0),
        forall|i: int| 1 <= i <= args.len() + 10 ==> !contains_seq(t, #[trigger] hash_ph(i as nat)),
    ensures
        resolve_template_spec(t, vars, args) == t,
{
    lemma_dollar_pass_id(t, args, 0);
    lemma_vars_pass_id(t, vars, 0);
    lemma_fallback_pass_id(t, vars, args, 1, 0);
}

/// When a template's resolution is a matter of direct `$i` placeholders
/// alone — after the direct pass no stored variable name and no `#i`
/// placeholder occurs in the intermediate — the result is exactly the
/// direct 1-indexed substitution, independent of the stored variables.
pub proof fn law_dollar_substitution(
    t: Seq<char>,
    vars: Seq<(Seq<char>, Seq<char>)>,
    args: Seq<Seq<char>>,
)
    requires
        forall|j: int|
            0 <= j < vars.len() ==> !contains_seq(
                apply_dollar_args(t, args, 0),
                (#[trigger] vars[j]).0,
            ),
        forall|i: int|
            1 <= i <= args.len() + 10 ==> !contains_seq(
                apply_dollar_args(t, args, 0),
                #[trigger] hash_ph(i as nat),
            ),
    ensures
        resolve_template_spec(t, vars, args) == apply_dollar_args(t, args, 0),
{
    let t1 = apply_dollar_args(t, args, 0);
    lemma_vars_pass_id(t1, vars, 0);
    lemma_fallback_pass_id(t1, vars, args, 1, 0);
}

/// Direct substitution of fallback placeholders: `#i` replaced by the
/// argument at position `i`, for `i` from `i0` up to `k`, in increasing
/// order.
pub open spec fn direct_hash_subst(s: Seq<char>, args: Seq<Seq<char>>, i0: int, k: int) -> Seq<
    char,
>
    decreases k + 1 - i0,
{
    if i0 < 1 || i0 > k || k > args.len() {
        s
    } else {
        direct_hash_subst(
            crate::strings::replace_all(s, hash_ph(i0 as nat), args[i0 - 1]),
            args,
            i0 + 1,
            k,
        )
    }
}

/// The fallback pass with no stored variables performs the direct
/// substitution when each `#i` is still present at its turn and none
/// beyond `k` ever appears.
proof fn lemma_fallback_is_direct(s: Seq<char>, args: Seq<Seq<char>>, i0: int, k: int)
    requires
        1 <= i0 <= k + 1,
        k <= args.len(),
        forall|i: int|
            i0 <= i <= k ==> contains_seq(direct_hash_subst(s, args, i0, i - 1), #[trigger] hash_ph(
                i as nat,
            )),
        forall|i: int|
            k < i <= args.len() + 10 ==> !contains_seq(
                direct_hash_subst(s, args, i0, k),
                #[trigger] hash_ph(i as nat),
            ),
    ensures
        apply_fallback(s, Seq::empty(), args, i0, i0 - 1) == direct_hash_subst(s, args, i0, k),
    decreases args.len() + 11 - i0,
{
    assert(forall|key: Seq<char>| !var_key_defined(Seq::empty(), key));
    if i0 == k + 1 {
        assert(direct_hash_subst(s, args, i0, k) == s);
        lemma_fallback_pass_id(s, Seq::empty(), args, i0, i0 - 1);
    } else {
        assert(direct_hash_subst(s, args, i0, i0 - 1) == s);
        assert(contains_seq(s, hash_ph(i0 as nat)));
        let s1 = crate::strings::replace_all(s, hash_ph(i0 as nat), args[i0 - 1]);
        assert(direct_hash_subst(s, args, i0, k) == direct_hash_subst(s1, args, i0 + 1, k));
        assert forall|i: int|
            i0 + 1 <= i <= k implies contains_seq(
            direct_hash_subst(s1, args, i0 + 1, i - 1),
            #[trigger] hash_ph(i as nat),
        ) by {
            assert(direct_hash_subst(s, args, i0, i - 1) == direct_hash_subst(
                s1,
                args,
                i0 + 1,
                i - 1,
            ));
        }
        lemma_fallback_is_direct(s1, args, i0 + 1, k);
    }
}

/// A template holding only fallback `#i` placeholders, resolved with no
/// stored variables, becomes the template with each `#i` replaced by the
/// argument at position `i`, consumed in increasing placeholder order.
/// The hypotheses say exactly that the placeholder families do not
/// interfere: no `$i` occurs, each `#i` up to `k` is still present when
/// its turn comes, and no `#i` beyond `k` ever appears in the window.
pub proof fn law_positional_fallback(t: Seq<char>, args: Seq<Seq<char>>, k: int)
    requires
        0 <= k <= args.len(),
        forall|i: int| 1 <= i <= args.len() ==> !contains_seq(t, #[trigger] dollar_ph(i as nat)),
        forall|i: int|
            1 <= i <= k ==> contains_seq(direct_hash_subst(t, args, 1, i - 1), #[trigger] hash_ph(
                i as nat,
            )),
        forall|i: int|
            k < i <= args.len() + 10 ==> !contains_seq(
                direct_hash_subst(t, args, 1, k),
                #[trigger] hash_ph(i as nat),
            ),
    ensures
        resolve_template_spec(t, Seq::empty(), args) == direct_hash_subst(t, args, 1, k),
{
    lemma_dollar_pass_id(t, args, 0);
    assert(apply_vars(t, Seq::empty(), 0) == t);
    lemma_fallback_is_direct(t, args, 1, k);
}

/// The character is one of the decimal digits.
pub open spec fn is_digit_char(c: char) -> bool {
    48 <= c as int <= 57
}

/// Every character of a decimal rendering is a digit.
proof fn lemma_dec_str_digits(n: nat)
    ensures
        forall|idx: int|
            0 <= idx < crate::strings::dec_str(n).len() ==> is_digit_char(
                #[trigger] crate::strings::dec_str(n)[idx],
            ),
    decreases n,
{
    if n >= 10 {
        lemma_dec_str_digits(n / 10);
        assert forall|idx: int|
            0 <= idx < crate::strings::dec_str(n).len() implies is_digit_char(
            #[trigger] crate::strings::dec_str(n)[idx],
        ) by {
            if idx < crate::strings::dec_str(n / 10).len() {
                assert(crate::strings::dec_str(n)[idx] == crate::strings::dec_str(n / 10)[idx]);
            }
        }
    }
}

/// The shape of a fallback placeholder: a hash sign followed by digits.
proof fn lemma_hash_ph_shape(i: nat)
    ensures
        hash_ph(i).len() >= 2,
        hash_ph(i)[0] == '#',
        forall|idx: int| 1 <= idx < hash_ph(i).len() ==> is_digit_char(#[trigger] hash_ph(i)[idx]),
        i < 10 ==> hash_ph(i).len() == 2,
{
    crate::strings::lemma_dec_str_len(i);
    lemma_dec_str_digits(i);
    assert forall|idx: int|
        1 <= idx < hash_ph(i).len() implies is_digit_char(#[trigger] hash_ph(i)[idx]) by {
        assert(hash_ph(i)[idx] == crate::strings::dec_str(i)[idx - 1]);
    }
}

/// A digit-only prefix of a replaced string was already a prefix of the
/// original, because replacement text never begins with a digit.
proof fn lemma_digit_prefix_preserved(s: Seq<char>, pat: Seq<char>, rep: Seq<char>, w: Seq<char>)
    requires
        pat.len() == 2,
        pat[0] == '#',
        rep.len() >= 1,
        !is_digit_char(rep[0]),
        w.len() >= 1,
        forall|idx: int| 0 <= idx < w.len() ==> is_digit_char(#[trigger] w[idx]),
        crate::strings::contains_at(crate::strings::replace_all(s, pat, rep), w, 0),
    ensures
        crate::strings::contains_at(s, w, 0),
    decreases s.len(),
{
    let r = crate::strings::replace_all(s, pat, rep);
    assert(r.subrange(0, w.len() as int) == w);
    if s.len() < 2 {
    } else if s.subrange(0, 2) == pat {
        let tail = s.subrange(2, s.len() as int);
        assert(r == rep + crate::strings::replace_all(tail, pat, rep));
        assert(r[0] == rep[0]);
        assert(w[0] == r.subrange(0, w.len() as int)[0]);
        assert(is_digit_char(w[0]));
        assert(false);
    } else {
        let s1 = s.subrange(1, s.len() as int);
        let r1 = crate::strings::replace_all(s1, pat, rep);
        assert(r == s.subrange(0, 1) + r1);
        assert(r[0] == s[0]);
        assert(w[0] == r[0]);
        if w.len() == 1 {
            assert(s.subrange(0, 1) =~= w);
            assert(crate::strings::contains_at(s, w, 0));
        } else {
            assert(crate::strings::contains_at(r1, w.skip(1), 0)) by {
                assert(w.skip(1).len() >= 1);
                assert forall|idx: int|
                    0 <= idx < w.skip(1).len() implies r1.subrange(0, w.len() - 1)[idx] == w.skip(
                    1,
                )[idx] by {
                    assert(r1[idx] == r[idx + 1]);
                    assert(w.skip(1)[idx] == w[idx + 1]);
                }
                assert(r1.subrange(0, w.len() - 1) =~= w.skip(1));
            }
            assert forall|idx: int|
                0 <= idx < w.skip(1).len() implies is_digit_char(#[trigger] w.skip(1)[idx]) by {
                assert(w.skip(1)[idx] == w[idx + 1]);
            }
            lemma_digit_prefix_preserved(s1, pat, rep, w.skip(1));
            assert forall|idx: int| 0 <= idx < w.len() implies s.subrange(0, w.len() as int)[idx]
                == w[idx] by {
                if idx >= 1 {
                    assert(s1.subrange(0, w.len() - 1)[idx - 1] == w.skip(1)[idx - 1]);
                    assert(s[idx] == s1[idx - 1]);
                    assert(w.skip(1)[idx - 1] == w[idx]);
                }
            }
            assert(s.subrange(0, w.len() as int) =~= w);
            assert(crate::strings::contains_at(s, w, 0));
        }
    }
}

/// Replacing one fallback placeholder cannot introduce another: the
/// replacement text holds no hash sign and does not begin with a digit.
proof fn lemma_hash_absent_preserved(s: Seq<char>, pat: Seq<char>, rep: Seq<char>, pj: Seq<char>)
    requires
        pat.len() == 2,
        pat[0] == '#',
        rep.len() >= 1,
        !is_digit_char(rep[0]),
        !contains_seq(rep, seq!['#']),
        pj.len() >= 2,
        pj[0] == '#',
        forall|idx: int| 1 <= idx < pj.len() ==> is_digit_char(#[trigger] pj[idx]),
        !contains_seq(s, pj),
    ensures
        !contains_seq(crate::strings::replace_all(s, pat, rep), pj),
    decreases s.len(),
{
    let r = crate::strings::replace_all(s, pat, rep);
    if s.len() < 2 {
    } else if s.subrange(0, 2) == pat {
        let tail = s.subrange(2, s.len() as int);
        let rt = crate::strings::replace_all(tail, pat, rep);
        assert(r == rep + rt);
        assert(!contains_seq(tail, pj)) by {
            if contains_seq(tail, pj) {
                assert(tail =~= s.skip(2));
                crate::strings::lemma_contains_in_skip(s, 2, pj);
            }
        }
        lemma_hash_absent_preserved(tail, pat, rep, pj);
        assert forall|q: int| !crate::strings::contains_at(r, pj, q) by {
            if crate::strings::contains_at(r, pj, q) {
                if q < rep.len() {
                    assert(r[q] == rep[q]);
                    assert(r.subrange(q, q + pj.len())[0] == pj[0]);
                    assert(rep[q] == '#');
                    assert(rep.subrange(q, q + 1) =~= seq!['#']);
                    assert(crate::strings::contains_at(rep, seq!['#'], q));
                } else {
                    assert(rt.subrange(q - rep.len(), q - rep.len() + pj.len()) =~= r.subrange(
                        q,
                        q + pj.len(),
                    ));
                    assert(crate::strings::contains_at(rt, pj, q - rep.len()));
                }
            }
        }
    } else {
        let s1 = s.subrange(1, s.len() as int);
        let r1 = crate::strings::replace_all(s1, pat, rep);
        assert(r == s.subrange(0, 1) + r1);
        assert(!contains_seq(s1, pj)) by {
            if contains_seq(s1, pj) {
                assert(s1 =~= s.skip(1));
                crate::strings::lemma_contains_in_skip(s, 1, pj);
            }
        }
        lemma_hash_absent_preserved(s1, pat, rep, pj);
        assert forall|q: int| !crate::strings::contains_at(r, pj, q) by {
            if crate::strings::contains_at(r, pj, q) {
                if q == 0 {
                    assert(r.subrange(0, pj.len() as int) == pj);
                    assert(crate::strings::contains_at(r1, pj.skip(1), 0)) by {
                        assert forall|idx: int|
                            0 <= idx < pj.len() - 1 implies r1.subrange(0, pj.len() - 1)[idx]
                            == pj.skip(1)[idx] by {
                            assert(r1[idx] == r[idx + 1]);
                            assert(r.subrange(0, pj.len() as int)[idx + 1] == pj[idx + 1]);
                            assert(pj.skip(1)[idx] == pj[idx + 1]);
                        }
                        assert(r1.subrange(0, pj.len() - 1) =~= pj.skip(1));
                    }
                    assert forall|idx: int|
                        0 <= idx < pj.skip(1).len() implies is_digit_char(
                        #[trigger] pj.skip(1)[idx],
                    ) by {
                        assert(pj.skip(1)[idx] == pj[idx + 1]);
                    }
                    lemma_digit_prefix_preserved(s1, pat, rep, pj.skip(1));
                    assert(crate::strings::contains_at(s, pj, 0)) by {
                        assert forall|idx: int|
                            0 <= idx < pj.len() implies s.subrange(0, pj.len() as int)[idx]
                            == pj[idx] by {
                            if idx == 0 {
                                assert(r.subrange(0, pj.len() as int)[0] == pj[0]);
                                assert(r[0] == s[0]);
                            } else {
                                assert(s1.subrange(0, pj.len() - 1)[idx - 1] == pj.skip(1)[idx
                                    - 1]);
                                assert(s[idx] == s1[idx - 1]);
                                assert(pj.skip(1)[idx - 1] == pj[idx]);
                            }
                        }
                        assert(s.subrange(0, pj.len() as int) =~= pj);
                    }
                } else {
                    assert(r1.subrange(q - 1, q - 1 + pj.len()) =~= r.subrange(q, q + pj.len()));
                    assert(crate::strings::contains_at(r1, pj, q - 1));
                }
            }
        }
    }
}

/// Replacing one fallback placeholder leaves occurrences of a different
/// single-digit placeholder in place.
proof fn lemma_hash_present_preserved(s: Seq<char>, pat: Seq<char>, rep: Seq<char>, pj: Seq<char>)
    requires
        pat.len() == 2,
        pat[0] == '#',
        is_digit_char(pat[1]),
        pj.len() == 2,
        pj[0] == '#',
        is_digit_char(pj[1]),
        pat[1] != pj[1],
        contains_seq(s, pj),
    ensures
        contains_seq(crate::strings::replace_all(s, pat, rep), pj),
    decreases s.len(),
{
    let r = crate::strings::replace_all(s, pat, rep);
    let q = choose|q: int| crate::strings::contains_at(s, pj, q);
    assert(s.subrange(q, q + 2) == pj);
    if s.len() < 2 {
        assert(false);
    } else if s.subrange(0, 2) == pat {
        let tail = s.subrange(2, s.len() as int);
        let rt = crate::strings::replace_all(tail, pat, rep);
        assert(r == rep + rt);
        assert(q != 0) by {
            if q == 0 {
                assert(s.subrange(0, 2)[1] == pat[1]);
                assert(s.subrange(q, q + 2)[1] == pj[1]);
            }
        }
        assert(q != 1) by {
            if q == 1 {
                assert(s.subrange(0, 2)[1] == pat[1]);
                assert(s.subrange(1, 3)[0] == pj[0]);
                assert(s[1] == pat[1] && s[1] == '#');
            }
        }
        assert(crate::strings::contains_at(tail, pj, q - 2)) by {
            assert(tail.subrange(q - 2, q) =~= s.subrange(q, q + 2));
        }
        lemma_hash_present_preserved(tail, pat, rep, pj);
        crate::strings::lemma_contains_concat_right(rep, rt, pj);
    } else {
        let s1 = s.subrange(1, s.len() as int);
        let r1 = crate::strings::replace_all(s1, pat, rep);
        assert(r == s.subrange(0, 1) + r1);
        if q == 0 {
            // the first two characters survive: s1 cannot start with the
            // pattern, whose first character is a hash, not a digit
            assert(s[0] == '#' && s[1] == pj[1]);
            assert(s1[0] == pj[1]);
            assert(r1[0] == s1[0]) by {
                if s1.len() < 2 {
                } else if s1.subrange(0, 2) == pat {
                    assert(s1.subrange(0, 2)[0] == pat[0]);
                    assert(false);
                } else {
                    assert(r1 == s1.subrange(0, 1) + crate::strings::replace_all(
                        s1.subrange(1, s1.len() as int),
                        pat,
                        rep,
                    ));
                }
            }
            assert(r1.len() >= 1);
            assert(r.subrange(0, 2) =~= pj) by {
                assert(r[0] == s[0]);
                assert(r[1] == r1[0]);
            }
            assert(crate::strings::contains_at(r, pj, 0));
        } else {
            assert(crate::strings::contains_at(s1, pj, q - 1)) by {
                assert(s1.subrange(q - 1, q + 1) =~= s.subrange(q, q + 2));
            }
            lemma_hash_present_preserved(s1, pat, rep, pj);
            crate::strings::lemma_contains_concat_right(s.subrange(0, 1), r1, pj);
        }
    }
}

/// Peeling the last step off the direct substitution.
proof fn lemma_direct_subst_peel(s: Seq<char>, args: Seq<Seq<char>>, i0: int, k: int)
    requires
        1 <= i0 <= k,
        k <= args.len(),
    ensures
        direct_hash_subst(s, args, i0, k) == crate::strings::replace_all(
            direct_hash_subst(s, args, i0, k - 1),
            hash_ph(k as nat),
            args[k - 1],
        ),
    decreases k - i0,
{
    let s1 = crate::strings::replace_all(s, hash_ph(i0 as nat), args[i0 - 1]);
    assert(direct_hash_subst(s, args, i0, k) == direct_hash_subst(s1, args, i0 + 1, k));
    if i0 == k {
        assert(direct_hash_subst(s1, args, i0 + 1, k) == s1);
        assert(direct_hash_subst(s, args, i0, k - 1) == s);
    } else {
        lemma_direct_subst_peel(s1, args, i0 + 1, k);
        assert(direct_hash_subst(s, args, i0, k - 1) == direct_hash_subst(s1, args, i0 + 1, k - 1));
    }
}

/// After the first `j` direct substitutions, the placeholders still to
/// come are still present, and none beyond `k` has appeared.
proof fn lemma_direct_subst_good(t: Seq<char>, args: Seq<Seq<char>>, k: int, j: int)
    requires
        0 <= k <= 9,
        k <= args.len(),
        0 <= j <= k,
        forall|m: int|
            0 <= m < k ==> (#[trigger] args[m]).len() > 0 && !is_digit_char(args[m][0])
                && !contains_seq(args[m], seq!['#']),
        forall|i: int| 1 <= i <= k ==> contains_seq(t, #[trigger] hash_ph(i as nat)),
        forall|i: int|
            k < i <= args.len() + 10 ==> !contains_seq(t, #[trigger] hash_ph(i as nat)),
    ensures
        forall|i: int|
            j < i <= k ==> contains_seq(
                direct_hash_subst(t, args, 1, j),
                #[trigger] hash_ph(i as nat),
            ),
        forall|i: int|
            k < i <= args.len() + 10 ==> !contains_seq(
                direct_hash_subst(t, args, 1, j),
                #[trigger] hash_ph(i as nat),
            ),
    decreases j,
{
    if j == 0 {
        assert(direct_hash_subst(t, args, 1, 0) == t);
    } else {
        lemma_direct_subst_good(t, args, k, j - 1);
        let u = direct_hash_subst(t, args, 1, j - 1);
        lemma_direct_subst_peel(t, args, 1, j);
        lemma_hash_ph_shape(j as nat);
        assert(hash_ph(j as nat).len() == 2);
        assert forall|i: int|
            j < i <= k implies contains_seq(
            direct_hash_subst(t, args, 1, j),
            #[trigger] hash_ph(i as nat),
        ) by {
            lemma_hash_ph_shape(i as nat);
            assert(hash_ph(j as nat)[1] == crate::strings::dec_str(j as nat)[0]);
            assert(hash_ph(i as nat)[1] == crate::strings::dec_str(i as nat)[0]);
            assert(hash_ph(j as nat)[1] != hash_ph(i as nat)[1]) by {
                if hash_ph(j as nat)[1] == hash_ph(i as nat)[1] {
                    assert(crate::strings::dec_str(j as nat) =~= crate::strings::dec_str(
                        i as nat,
                    ));
                    crate::strings::lemma_dec_str_injective(j as nat, i as nat);
                }
            }
            lemma_hash_present_preserved(u, hash_ph(j as nat), args[j - 1], hash_ph(i as nat));
        }
        assert forall|i: int|
            k < i <= args.len() + 10 implies !contains_seq(
            direct_hash_subst(t, args, 1, j),
            #[trigger] hash_ph(i as nat),
        ) by {
            lemma_hash_ph_shape(i as nat);
            lemma_hash_absent_preserved(u, hash_ph(j as nat), args[j - 1], hash_ph(i as nat));
        }
    }
}

/// A template holding exactly the fallback placeholders `#1` to `#k`,
/// resolved with no stored variables, becomes the template with each `#i`
/// replaced by the argument at position `i`, consumed in increasing
/// placeholder order.  The arguments consumed must not themselves look
/// like placeholder text: nonempty, no hash sign, not beginning with a
/// digit.  The bound `k <= 9` is semantic, not a proof artifact: with a
/// two-digit placeholder in play the property fails, because the pass for
/// `#1` textually rewrites the prefix of `#10` before its turn comes.
pub proof fn law_positional_resolution(t: Seq<char>, args: Seq<Seq<char>>, k: int)
    requires
        0 <= k <= 9,
        k <= args.len(),
        forall|i: int| 1 <= i <= args.len() ==> !contains_seq(t, #[trigger] dollar_ph(i as nat)),
        forall|i: int| 1 <= i <= k ==> contains_seq(t, #[trigger] hash_ph(i as nat)),
        forall|i: int|
            k < i <= args.len() + 10 ==> !contains_seq(t, #[trigger] hash_ph(i as nat)),
        forall|m: int|
            0 <= m < k ==> (#[trigger] args[m]).len() > 0 && !is_digit_char(args[m][0])
                && !contains_seq(args[m], seq!['#']),
    ensures
        resolve_template_spec(t, Seq::empty(), args) == direct_hash_subst(t, args, 1, k),
{
    assert forall|i: int|
        1 <= i <= k implies contains_seq(
        direct_hash_subst(t, args, 1, i - 1),
        #[trigger] hash_ph(i as nat),
    ) by {
        lemma_direct_subst_good(t, args, k, i - 1);
    }
    lemma_direct_subst_good(t, args, k, k);
    law_positional_fallback(t, args, k);
}

/// The definitions of a name among secondary registries of which exactly
/// one, at position `i`, defines it: one tagged entry.
proof fn lemma_sec_conflicts_single(
    ss: Seq<(Seq<char>, crate::config::Config)>,
    name: Seq<char>,
    i: int,
)
    requires
        0 <= i < ss.len(),
        ss[i].1.as_map().contains_key(name),
        forall|m: int|
            0 <= m < ss.len() && m != i ==> !(#[trigger] ss[m]).1.as_map().contains_key(name),
    ensures
        sec_conflicts(ss, name) == seq![(ss[i].0, ss[i].1.as_map()[name])],
{
    lemma_sec_conflicts_skip_absent(ss, name, i);
    let tail = ss.skip(i);
    assert(tail[0] == ss[i]);
    assert(sec_conflicts(tail, name) == seq![(ss[i].0, ss[i].1.as_map()[name])] + sec_conflicts(
        tail.skip(1),
        name,
    ));
    assert forall|m: int|
        0 <= m < tail.skip(1).len() implies !(#[trigger] tail.skip(1)[m]).1.as_map().contains_key(
        name,
    ) by {
        assert(tail.skip(1)[m] == ss[i + 1 + m]);
    }
    lemma_sec_conflicts_skip_absent(tail.skip(1), name, tail.skip(1).len() as int);
    assert(tail.skip(1).skip(tail.skip(1).len() as int) =~= Seq::<
        (Seq<char>, crate::config::Config),
    >::empty());
    assert(sec_conflicts(tail.skip(1), name) =~= Seq::<
        (Seq<char>, (Seq<char>, Option<Seq<char>>)),
    >::empty());
    assert(sec_conflicts(ss, name) =~= seq![(ss[i].0, ss[i].1.as_map()[name])]);
}

/// A name defined in the primary registry and in exactly two secondary
/// registries is enumerated as exactly three definitions, the first tagged
/// `main`.
pub proof fn law_conflicts_three_sources(m: ConfigManager, name: Seq<char>, i: int, j: int)
    requires
        m.wf(),
        m.main_config.as_map().contains_key(name),
        0 <= i < j < m.sources().len(),
        m.sources()[i].1.as_map().contains_key(name),
        m.sources()[j].1.as_map().contains_key(name),
        forall|k: int|
            0 <= k < m.sources().len() && k != i && k != j ==> !(#[trigger] m.sources()[k]).1
                .as_map().contains_key(name),
    ensures
        m.conflict_list(name).len() == 3,
        m.conflict_list(name)[0].0 == "main"@,
{
    let ss = m.sources();
    lemma_sec_conflicts_skip_absent(ss, name, i);
    let tail = ss.skip(i);
    assert(tail[0] == ss[i]);
    assert(sec_conflicts(tail, name) == seq![(ss[i].0, ss[i].1.as_map()[name])] + sec_conflicts(
        tail.skip(1),
        name,
    ));
    assert(tail.skip(1) =~= ss.skip(i + 1));
    assert(ss.skip(i + 1)[j - i - 1] == ss[j]);
    assert forall|k: int|
        0 <= k < ss.skip(i + 1).len() && k != j - i - 1 implies !(#[trigger] ss.skip(i + 1)[k]).1
        .as_map().contains_key(name) by {
        assert(ss.skip(i + 1)[k] == ss[i + 1 + k]);
    }
    lemma_sec_conflicts_single(ss.skip(i + 1), name, j - i - 1);
    assert(sec_conflicts(ss, name).len() == 2);
    assert(m.conflict_list(name) == seq![("main"@, m.main_config.as_map()[name])] + sec_conflicts(
        ss,
        name,
    ));
    assert(m.conflict_list(name)[0] == ("main"@, m.main_config.as_map()[name]));
}

/// Adding a name to the primary registry and then removing it leaves the
/// primary registry without the name, so that only the secondary
/// registries' definitions of it remain visible, exactly as before.  In
/// the terms of single-result lookup: the name is then not found at all
/// when no secondary registry defines it, and else the first secondary
/// definition (what `get_command` returns) is the same as before the
/// round trip.
pub proof fn law_add_remove_round_trip(
    m0: ConfigManager,
    m1: ConfigManager,
    m2: ConfigManager,
    name: Seq<char>,
    cmd: Seq<char>,
)
    requires
        // m1 is m0 after the name was added to the primary registry
        m1.main_config.as_map() == m0.main_config.as_map().insert(name, (cmd, None)),
        m1.sources() == m0.sources(),
        // m2 is m1 after the name was removed from the primary registry
        m2.main_config.as_map() == m1.main_config.as_map().remove(name),
        m2.sources() == m1.sources(),
    ensures
        !m2.main_config.as_map().contains_key(name),
        m2.conflict_list(name) == sec_conflicts(m0.sources(), name),
        // lookup now reports not-found exactly when no secondary defines it
        m2.conflict_list(name).len() == 0 <==> sec_conflicts(m0.sources(), name).len() == 0,
        // and else yields the first secondary definition's template
        sec_conflicts(m0.sources(), name).len() > 0 ==> m2.conflict_list(name)[0].1.0
            == sec_conflicts(m0.sources(), name)[0].1.0,
{
    assert(m2.conflict_list(name) =~= sec_conflicts(m2.sources(), name));
}

/// Setting a variable in one context never touches another context: after
/// setting a name in two different contexts, each context reads back its
/// own value.
pub proof fn law_context_isolation(
    v0: VariableManager,
    v1: VariableManager,
    v2: VariableManager,
    ctx1: Seq<char>,
    ctx2: Seq<char>,
    name: Seq<char>,
    val1: Seq<char>,
    val2: Seq<char>,
)
    requires
        ctx1 != ctx2,
        // v1 is v0 after the name was set in the first context
        v1.ctx_map(ctx1) == v0.ctx_map(ctx1).insert(name, val1),
        forall|c: Seq<char>| c != ctx1 ==> v1.ctx_vars(c) == v0.ctx_vars(c),
        // v2 is v1 after the name was set in the second context
        v2.ctx_map(ctx2) == v1.ctx_map(ctx2).insert(name, val2),
        forall|c: Seq<char>| c != ctx2 ==> v2.ctx_vars(c) == v1.ctx_vars(c),
    ensures
        v2.ctx_map(ctx1).contains_key(name) && v2.ctx_map(ctx1)[name] == val1,
        v2.ctx_map(ctx2).contains_key(name) && v2.ctx_map(ctx2)[name] == val2,
{
    assert(v2.ctx_vars(ctx1) == v1.ctx_vars(ctx1));
}

} // verus!
