//! The argument tokenizer: splits one shell-like command string into tokens,
//! honoring single and double quotes. Runs of unquoted whitespace separate
//! tokens and never produce empty ones; a quote character switches quoting on
//! or off without joining the token's text; an unterminated quote is not an
//! error — the input simply ends and the pending token, if any, is flushed.

use vstd::prelude::*;
use vstd::string::StrSliceExecFns;
use vstd::string::StringExecFns;
use crate::text::{is_space, is_space_char};

verus! {

/// Quoting state of the tokenizer: outside any quote, inside `'…'`, or
/// inside `"…"`. A single state rules out being in both quote kinds at once.
#[derive(Debug, Clone, Copy, PartialEq, Eq, Structural)]
pub enum QuoteState {
    Unquoted,
    Single,
    Double,
}

/// One step of the tokenizer on character `c`: yields the next quoting
/// state, the new pending token, and the tokens flushed so far.
pub open spec fn spec_tokenize_step(
    state: QuoteState,
    cur: Seq<char>,
    acc: Seq<Seq<char>>,
    c: char,
) -> (QuoteState, Seq<char>, Seq<Seq<char>>) {
    match state {
        QuoteState::Single => if c == '\'' {
            (QuoteState::Unquoted, cur, acc)
        } else {
            (QuoteState::Single, cur.push(c), acc)
        },
        QuoteState::Double => if c == '"' {
            (QuoteState::Unquoted, cur, acc)
        } else {
            (QuoteState::Double, cur.push(c), acc)
        },
        QuoteState::Unquoted => if c == '\'' {
            (QuoteState::Single, cur, acc)
        } else if c == '"' {
            (QuoteState::Double, cur, acc)
        } else if is_space(c) {
            if cur.len() > 0 {
                (QuoteState::Unquoted, Seq::empty(), acc.push(cur))
            } else {
                (QuoteState::Unquoted, cur, acc)
            }
        } else {
            (QuoteState::Unquoted, cur.push(c), acc)
        },
    }
}

/// The tokens of `s` from position `i` on, given the state so far.
pub open spec fn spec_tokenize_from(
    s: Seq<char>,
    i: int,
    state: QuoteState,
    cur: Seq<char>,
    acc: Seq<Seq<char>>,
) -> Seq<Seq<char>>
    decreases s.len() - i,
{
    if i < 0 || i >= s.len() {
        if cur.len() > 0 {
            acc.push(cur)
        } else {
            acc
        }
    } else {
        let (state2, cur2, acc2) = spec_tokenize_step(state, cur, acc, s[i]);
        spec_tokenize_from(s, i + 1, state2, cur2, acc2)
    }
}

/// The token list of a whole input string.
pub open spec fn spec_tokenize(s: Seq<char>) -> Seq<Seq<char>> {
    spec_tokenize_from(s, 0, QuoteState::Unquoted, Seq::empty(), Seq::empty())
}

/// Splits a shell-like command string into its argument tokens.
pub fn split_args(s: &str) -> (r: Vec<String>)
    ensures
        r.deep_view() == spec_tokenize(s@),
{
    let n = s.unicode_len();
    let mut i: usize = 0;
    let mut state = QuoteState::Unquoted;
    let mut cur = String::new();
    let mut out: Vec<String> = Vec::new();
    proof {
        assert(out.deep_view() =~= Seq::<Seq<char>>::empty());
    }
    while i < n
        invariant
            0 <= i <= n,
            n == s@.len(),
            spec_tokenize_from(s@, i as int, state, cur@, out.deep_view()) == spec_tokenize(s@),
        decreases n - i,
    {
        let c = s.get_char(i);
        let ghost prev_acc = out.deep_view();
        let ghost prev_cur = cur@;
        match state {
            QuoteState::Single => {
                if c == '\'' {
                    state = QuoteState::Unquoted;
                } else {
                    cur.append(s.substring_char(i, i + 1));
                    proof {
                        assert(cur@ =~= prev_cur.push(s@[i as int]));
                    }
                }
            },
            QuoteState::Double => {
                if c == '"' {
                    state = QuoteState::Unquoted;
                } else {
                    cur.append(s.substring_char(i, i + 1));
                    proof {
                        assert(cur@ =~= prev_cur.push(s@[i as int]));
                    }
                }
            },
            QuoteState::Unquoted => {
                if c == '\'' {
                    state = QuoteState::Single;
                } else if c == '"' {
                    state = QuoteState::Double;
                } else if is_space_char(c) {
                    if cur.unicode_len() > 0 {
                        out.push(cur);
                        cur = String::new();
                        proof {
                            assert(out.deep_view() =~= prev_acc.push(prev_cur));
                            assert(cur@ =~= Seq::<char>::empty());
                        }
                    }
                } else {
                    cur.append(s.substring_char(i, i + 1));
                    proof {
                        assert(cur@ =~= prev_cur.push(s@[i as int]));
                    }
                }
            },
        }
        i = i + 1;
    }
    if cur.unicode_len() > 0 {
        let ghost prev_acc = out.deep_view();
        let ghost prev_cur = cur@;
        out.push(cur);
        proof {
            assert(out.deep_view() =~= prev_acc.push(prev_cur));
        }
    }
    out
}

} // verus!
