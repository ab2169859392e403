//! The template placeholder resolver: three substitution passes applied to
//! one template, in a fixed order.
//!
//! 1. call-time direct placeholders `$1`, `$2`, ... replaced by the
//!    argument at the same position;
//! 2. every persistent variable name replaced by its stored value;
//! 3. fallback positional placeholders `#i`, for `i` from 1 up to the
//!    argument count plus a look-ahead window of 10, each consuming the next
//!    unconsumed argument when `#i` still occurs and is not the name of a
//!    persistent variable.
//!
//! Unmatched placeholders are left verbatim; no resolution fails.

use vstd::prelude::*;
use crate::strings::{
    contains_seq, dollar_ph, hash_ph, replace_all, make_placeholder, str_to_chars,
    chars_to_string, vec_replace_all, vec_contains_seq,
};

verus! {

/// The character sequences of a list of name/value string pairs.
pub open spec fn pairs_view(v: Seq<(String, String)>) -> Seq<(Seq<char>, Seq<char>)> {
    Seq::new(v.len(), |i: int| (v[i].0@, v[i].1@))
}

/// The character sequences of a list of strings.
pub open spec fn strs_view(v: Seq<String>) -> Seq<Seq<char>> {
    Seq::new(v.len(), |i: int| v[i]@)
}

/// First pass: each `$i` placeholder, for `i` from `k + 1` up to the number
/// of arguments, replaced in turn by the argument at position `i`.
pub open spec fn apply_dollar_args(s: Seq<char>, args: Seq<Seq<char>>, k: int) -> Seq<char>
    decreases args.len() - k,
{
    if k < 0 || k >= args.len() {
        s
    } else {
        apply_dollar_args(replace_all(s, dollar_ph((k + 1) as nat), args[k]), args, k + 1)
    }
}

/// Second pass: each stored variable name from position `k` on, in stored
/// order, replaced in turn by its value.  The passes are sequential
/// textual replacements, not a simultaneous substitution: one key is
/// replaced exactly once and its inserted value is never rescanned for
/// that same key, but a later key's pass scans the whole intermediate,
/// inserted values included.
pub open spec fn apply_vars(s: Seq<char>, vars: Seq<(Seq<char>, Seq<char>)>, k: int) -> Seq<char>
    decreases vars.len() - k,
{
    if k < 0 || k >= vars.len() {
        s
    } else {
        apply_vars(replace_all(s, vars[k].0, vars[k].1), vars, k + 1)
    }
}

/// Some stored variable has exactly this name.
pub open spec fn var_key_defined(vars: Seq<(Seq<char>, Seq<char>)>, key: Seq<char>) -> bool {
    exists|j: int| 0 <= j < vars.len() && vars[j].0 == key
}

/// Third pass: for `i` from `i0` up to the argument count plus 10, the
/// placeholder `#i` consumes the next unconsumed argument (position
/// `next_arg`) when it still occurs, is not a variable name, and arguments
/// remain.
pub open spec fn apply_fallback(
    s: Seq<char>,
    vars: Seq<(Seq<char>, Seq<char>)>,
    args: Seq<Seq<char>>,
    i0: int,
    next_arg: int,
) -> Seq<char>
    decreases args.len() + 11 - i0,
{
    if i0 < 1 || i0 > args.len() + 10 {
        s
    } else {
        let ph = hash_ph(i0 as nat);
        if contains_seq(s, ph) && !var_key_defined(vars, ph) && 0 <= next_arg < args.len() {
            apply_fallback(replace_all(s, ph, args[next_arg]), vars, args, i0 + 1, next_arg + 1)
        } else {
            apply_fallback(s, vars, args, i0 + 1, next_arg)
        }
    }
}

/// The full resolution of a template against the stored variables and the
/// call-time arguments: the three passes in order.
pub open spec fn resolve_template_spec(
    t: Seq<char>,
    vars: Seq<(Seq<char>, Seq<char>)>,
    args: Seq<Seq<char>>,
) -> Seq<char> {
    apply_fallback(apply_vars(apply_dollar_args(t, args, 0), vars, 0), vars, args, 1, 0)
}

/// Two character vectors hold the same characters.
pub fn vec_chars_eq(a: &Vec<char>, b: &Vec<char>) -> (r: bool)
    ensures
        r == (a@ == b@),
{
    if a.len() != b.len() {
        return false;
    }
    for i in 0..a.len()
        invariant
            a@.len() == b@.len(),
            forall|j: int| 0 <= j < i ==> a@[j] == b@[j],
    {
        if a[i] != b[i] {
            return false;
        }
    }
    proof {
        assert(a@ =~= b@);
    }
    true
}

/// Some stored variable has exactly the name `key`.
fn key_defined(vars: &Vec<(String, String)>, key: &Vec<char>) -> (r: bool)
    ensures
        r == var_key_defined(pairs_view(vars@), key@),
{
    for j in 0..vars.len()
        invariant
            forall|k: int| 0 <= k < j ==> pairs_view(vars@)[k].0 != key@,
    {
        let name = str_to_chars(vars[j].0.as_str());
        if vec_chars_eq(&name, key) {
            proof {
                assert(pairs_view(vars@)[j as int].0 == key@);
            }
            return true;
        }
    }
    false
}

/// Resolves a template: direct `$i` substitution, then persistent-variable
/// substitution, then fallback `#i` substitution consuming the arguments in
/// increasing placeholder order.
pub fn resolve_template(template: &str, vars: &Vec<(String, String)>, args: &[String]) -> (r:
    String)
    requires
        args@.len() + 10 < usize::MAX,
    ensures
        r@ == resolve_template_spec(template@, pairs_view(vars@), strs_view(args@)),
{
    let ghost varsv = pairs_view(vars@);
    let ghost argsv = strs_view(args@);
    let mut cur = str_to_chars(template);

    // direct `$i` placeholders
    let ghost t0 = template@;
    for k in 0..args.len()
        invariant
            args@.len() + 10 < usize::MAX,
            argsv == strs_view(args@),
            apply_dollar_args(cur@, argsv, k as int) == apply_dollar_args(t0, argsv, 0),
    {
        let ph = make_placeholder('$', k + 1);
        let arg = str_to_chars(args[k].as_str());
        cur = vec_replace_all(&cur, &ph, &arg);
    }
    proof {
        assert(cur@ == apply_dollar_args(t0, argsv, 0));
    }

    // persistent variables, in stored order
    let ghost t1 = cur@;
    for k in 0..vars.len()
        invariant
            varsv == pairs_view(vars@),
            apply_vars(cur@, varsv, k as int) == apply_vars(t1, varsv, 0),
    {
        let pat = str_to_chars(vars[k].0.as_str());
        let rep = str_to_chars(vars[k].1.as_str());
        cur = vec_replace_all(&cur, &pat, &rep);
    }
    proof {
        assert(cur@ == apply_vars(t1, varsv, 0));
    }

    // fallback `#i` placeholders
    let ghost t2 = cur@;
    let bound = args.len() + 10;
    let mut next_arg: usize = 0;
    let mut i: usize = 1;
    while i <= bound
        invariant
            varsv == pairs_view(vars@),
            argsv == strs_view(args@),
            bound == args@.len() + 10,
            bound < usize::MAX,
            1 <= i <= bound + 1,
            next_arg <= args@.len(),
            apply_fallback(cur@, varsv, argsv, i as int, next_arg as int) == apply_fallback(
                t2,
                varsv,
                argsv,
                1,
                0,
            ),
        decreases bound + 1 - i,
    {
        let ph = make_placeholder('#', i);
        if next_arg < args.len() && vec_contains_seq(&cur, &ph) && !key_defined(vars, &ph) {
            let arg = str_to_chars(args[next_arg].as_str());
            cur = vec_replace_all(&cur, &ph, &arg);
            next_arg = next_arg + 1;
        }
        i = i + 1;
    }
    proof {
        assert(cur@ == apply_fallback(t2, varsv, argsv, 1, 0));
    }

    chars_to_string(&cur)
}

} // verus!
