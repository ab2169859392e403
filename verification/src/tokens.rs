//! Whitespace tokenization of a resolved command line: the argument list
//! that is handed to process execution.  Blank-separated runs of
//! characters become the tokens; nothing more is parsed.

use vstd::prelude::*;
use crate::strings::str_to_chars;

verus! {

/// The characters treated as token separators: the Unicode `White_Space`
/// set, as `char::is_whitespace` documents it.
pub open spec fn is_space_char(c: char) -> bool {
    ||| c == '\u{0009}'  // tab
    ||| c == '\u{000A}'  // line feed
    ||| c == '\u{000B}'  // vertical tab
    ||| c == '\u{000C}'  // form feed
    ||| c == '\u{000D}'  // carriage return
    ||| c == ' '
    ||| c == '\u{0085}'  // next line
    ||| c == '\u{00A0}'  // no-break space
    ||| c == '\u{1680}'  // ogham space mark
    ||| (0x2000 <= c as int && c as int <= 0x200A)  // en quad .. hair space
    ||| c == '\u{2028}'  // line separator
    ||| c == '\u{2029}'  // paragraph separator
    ||| c == '\u{202F}'  // narrow no-break space
    ||| c == '\u{205F}'  // medium mathematical space
    ||| c == '\u{3000}'  // ideographic space
}

/// Whether a character separates tokens.
fn space_char(c: char) -> (r: bool)
    ensures
        r == is_space_char(c),
{
    c == '\u{0009}' || c == '\u{000A}' || c == '\u{000B}' || c == '\u{000C}' || c == '\u{000D}'
        || c == ' ' || c == '\u{0085}' || c == '\u{00A0}' || c == '\u{1680}' || (0x2000 <= c as u32
        && c as u32 <= 0x200A) || c == '\u{2028}' || c == '\u{2029}' || c == '\u{202F}' || c
        == '\u{205F}' || c == '\u{3000}'
}

/// Tokenization from position `i` on, with `cur` the token being built and
/// `acc` the tokens already finished.
pub open spec fn tokenize_from(
    s: Seq<char>,
    i: int,
    cur: Seq<char>,
    acc: Seq<Seq<char>>,
) -> Seq<Seq<char>>
    decreases s.len() - i,
{
    if i < 0 || i >= s.len() {
        if cur.len() > 0 {
            acc.push(cur)
        } else {
            acc
        }
    } else if is_space_char(s[i]) {
        if cur.len() > 0 {
            tokenize_from(s, i + 1, Seq::empty(), acc.push(cur))
        } else {
            tokenize_from(s, i + 1, cur, acc)
        }
    } else {
        tokenize_from(s, i + 1, cur.push(s[i]), acc)
    }
}

/// The whitespace-separated tokens of a command line.
pub open spec fn tokenize_spec(s: Seq<char>) -> Seq<Seq<char>> {
    tokenize_from(s, 0, Seq::empty(), Seq::empty())
}

/// Splits a resolved command line into its whitespace-separated tokens.
/// An empty or all-blank line gives no tokens.
pub fn tokenize_command(line: &str) -> (r: Vec<String>)
    ensures
        crate::resolver::strs_view(r@) == tokenize_spec(line@),
{
    let chars = str_to_chars(line);
    let n = chars.len();
    let mut acc: Vec<String> = Vec::new();
    let mut cur: Vec<char> = Vec::new();
    proof {
        assert(cur@ =~= Seq::<char>::empty());
        assert(crate::resolver::strs_view(acc@) =~= Seq::<Seq<char>>::empty());
    }
    for i in 0..n
        invariant
            n == line@.len(),
            chars@ == line@,
            tokenize_spec(line@) == tokenize_from(
                line@,
                i as int,
                cur@,
                crate::resolver::strs_view(acc@),
            ),
    {
        let c = chars[i];
        if space_char(c) {
            if cur.len() > 0 {
                let tok = crate::strings::chars_to_string(&cur);
                let ghost acc0 = crate::resolver::strs_view(acc@);
                acc.push(tok);
                cur = Vec::new();
                proof {
                    assert(crate::resolver::strs_view(acc@) =~= acc0.push(tok@));
                    assert(cur@ =~= Seq::<char>::empty());
                }
            }
        } else {
            cur.push(c);
        }
    }
    if cur.len() > 0 {
        let tok = crate::strings::chars_to_string(&cur);
        let ghost acc0 = crate::resolver::strs_view(acc@);
        acc.push(tok);
        proof {
            assert(crate::resolver::strs_view(acc@) =~= acc0.push(tok@));
        }
    }
    acc
}

} // verus!
