//! Handling of remote registry content: recognising `owner/repo`
//! references, splitting them, and decoding the base64 document payload
//! that the remote content interface returns.

use vstd::prelude::*;
use vstd::utf8::{decode_utf8, valid_utf8};
use crate::errors::DooError;
use crate::strings::{
    chars_to_string, contains_seq, replace_all, str_eq, str_to_chars, vec_replace_all,
};

verus! {

/// Position `p` splits `s` into a nonempty owner, one slash, and a
/// nonempty repository name.
pub open spec fn is_repo_split(s: Seq<char>, p: int) -> bool {
    &&& 0 < p < s.len() - 1
    &&& s[p] == '/'
    &&& forall|q: int| 0 <= q < s.len() && q != p ==> s[q] != '/'
}

/// Splits an `owner/repo` reference into its two parts.  `None` exactly
/// when the text is not one nonempty owner, one slash, and one nonempty
/// repository name.
pub fn parse_repo_spec(s: &str) -> (r: Option<(String, String)>)
    ensures
        match r {
            Some(parts) => exists|p: int|
                #[trigger] is_repo_split(s@, p) && parts.0@ == s@.take(p) && parts.1@ == s@.skip(
                    p + 1,
                ),
            None => forall|p: int| !is_repo_split(s@, p),
        },
{
    let chars = str_to_chars(s);
    let n = chars.len();
    let mut slash: Option<usize> = None;
    for i in 0..n
        invariant
            n == s@.len(),
            chars@ == s@,
            match slash {
                Some(p) => p < i && s@[p as int] == '/' && forall|q: int|
                    0 <= q < i && q != p ==> s@[q] != '/',
                None => forall|q: int| 0 <= q < i ==> s@[q] != '/',
            },
    {
        if chars[i] == '/' {
            match slash {
                Some(_) => {
                    proof {
                        assert forall|p: int| !is_repo_split(s@, p) by {
                            if is_repo_split(s@, p) {
                                let p0 = slash->0 as int;
                                assert(s@[p0] == '/');
                                assert(s@[i as int] == '/');
                            }
                        }
                    }
                    return None;
                },
                None => {
                    slash = Some(i);
                },
            }
        }
    }
    match slash {
        Some(p) => {
            if p == 0 || p == n - 1 {
                proof {
                    assert forall|q: int| !is_repo_split(s@, q) by {
                        if is_repo_split(s@, q) {
                            assert(s@[q] == '/');
                            assert(q == p);
                        }
                    }
                }
                return None;
            }
            let mut owner: Vec<char> = Vec::new();
            for i in 0..p
                invariant
                    chars@ == s@,
                    p < n == s@.len(),
                    owner@ == s@.take(p as int).take(i as int),
                    i <= p,
            {
                owner.push(chars[i]);
                proof {
                    assert(owner@ =~= s@.take(p as int).take(i + 1));
                }
            }
            let mut name: Vec<char> = Vec::new();
            let mut i = p + 1;
            while i < n
                invariant
                    chars@ == s@,
                    p < n == s@.len(),
                    p + 1 <= i <= n,
                    name@ == s@.skip(p + 1).take(i - p - 1),
                decreases n - i,
            {
                name.push(chars[i]);
                proof {
                    assert(name@ =~= s@.skip(p + 1).take(i + 1 - p - 1));
                }
                i = i + 1;
            }
            proof {
                assert(is_repo_split(s@, p as int));
                assert(owner@ =~= s@.take(p as int));
                assert(name@ =~= s@.skip(p as int + 1));
            }
            Some((chars_to_string(&owner), chars_to_string(&name)))
        },
        None => {
            proof {
                assert forall|q: int| !is_repo_split(s@, q) by {
                    if is_repo_split(s@, q) {
                        assert(s@[q] == '/');
                    }
                }
            }
            None
        },
    }
}

/// A command-line argument names a remote repository rather than a local
/// file: it holds a slash, no dot, and does not start with a slash.
pub fn is_repo_reference(s: &str) -> (r: bool)
    ensures
        r == (contains_seq(s@, seq!['/']) && !contains_seq(s@, seq!['.']) && !(s@.len() > 0
            && s@[0] == '/')),
{
    let chars = str_to_chars(s);
    let slash: Vec<char> = vec!['/'];
    let dot: Vec<char> = vec!['.'];
    let has_slash = crate::strings::vec_contains_seq(&chars, &slash);
    let has_dot = crate::strings::vec_contains_seq(&chars, &dot);
    let leading = chars.len() > 0 && chars[0] == '/';
    proof {
        assert(slash@ =~= seq!['/']);
        assert(dot@ =~= seq!['.']);
    }
    has_slash && !has_dot && !leading
}

/// What `base64::decode` yields for a character sequence: the decoded
/// bytes, or nothing when the text is not valid base64.  A function of the
/// characters alone.
pub uninterp spec fn base64_decode_of(s: Seq<char>) -> Option<Seq<u8>>;

/// Decodes base64 text.
///
/// Relies on `base64::decode` (standard alphabet, padding accepted): the
/// result depends on the characters of the input alone.
#[verifier::external_body]
fn b64_decode(s: &str) -> (r: Option<Vec<u8>>)
    ensures
        r.deep_view() == base64_decode_of(s@),
{
    base64::decode(s).ok()
}

/// Builds a string from UTF-8 bytes.
///
/// Relies on `String::from_utf8`, which succeeds exactly on valid UTF-8
/// and yields the decoded characters.
#[verifier::external_body]
fn string_from_utf8(v: Vec<u8>) -> (r: Option<String>)
    ensures
        r is Some <==> valid_utf8(v@),
        r matches Some(s) ==> s@ == decode_utf8(v@),
{
    String::from_utf8(v).ok()
}

/// The newline-stripped form of remote content, as the decoder sees it.
pub open spec fn stripped_content(content: Seq<char>) -> Seq<char> {
    replace_all(content, seq!['\n'], Seq::empty())
}

/// Decodes the payload a remote registry fetch returned: the declared
/// encoding must be base64; newlines are stripped, the text is decoded,
/// and the bytes must be valid UTF-8.
pub fn decode_github_content(content: &str, encoding: &str) -> (r: Result<String, DooError>)
    ensures
        match r {
            Ok(s) => encoding@ == "base64"@ && (base64_decode_of(stripped_content(content@))
                matches Some(bytes) && valid_utf8(bytes) && s@ == decode_utf8(bytes)),
            Err(e) => {
                ||| (e == DooError::UnsupportedEncoding && encoding@ != "base64"@)
                ||| (e == DooError::InvalidBase64 && encoding@ == "base64"@ && base64_decode_of(
                    stripped_content(content@),
                ) is None)
                ||| (e == DooError::InvalidUtf8 && encoding@ == "base64"@ && (base64_decode_of(
                    stripped_content(content@),
                ) matches Some(bytes) && !valid_utf8(bytes)))
            },
        },
{
    if !str_eq(encoding, "base64") {
        return Err(DooError::UnsupportedEncoding);
    }
    let chars = str_to_chars(content);
    let nl: Vec<char> = vec!['\n'];
    let empty: Vec<char> = Vec::new();
    let stripped = vec_replace_all(&chars, &nl, &empty);
    proof {
        assert(nl@ =~= seq!['\n']);
        assert(empty@ =~= Seq::<char>::empty());
    }
    let stripped_s = chars_to_string(&stripped);
    match b64_decode(stripped_s.as_str()) {
        Some(bytes) => {
            proof {
                assert(Some(bytes).deep_view() == base64_decode_of(stripped_content(content@)));
                assert(bytes.deep_view() =~= bytes@);
            }
            match string_from_utf8(bytes) {
                Some(s) => Ok(s),
                None => Err(DooError::InvalidUtf8),
            }
        },
        None => {
            proof {
                assert(None::<Vec<u8>>.deep_view() == base64_decode_of(
                    stripped_content(content@),
                ));
            }
            Err(DooError::InvalidBase64)
        },
    }
}

} // verus!
