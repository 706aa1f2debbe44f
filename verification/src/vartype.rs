//! The closed set of variable types a schema may declare, with the rule for
//! reading a type token out of config text and the rule each type checks a
//! value against.

use vstd::prelude::*;
use vstd::string::StrSliceExecFns;
use crate::numlit::{check_float, check_int, is_float_str, is_int_str};
use crate::text::{is_space, lemma_trim_wrapped, spec_trim, spec_unquote, str_eq, trim, unquote};

verus! {

/// A variable type of the schema: each variant carries its own rule for
/// which raw string values it accepts.
#[derive(Debug, Clone, Copy, PartialEq, Eq, Structural)]
pub enum VarType {
    Str,
    Int,
    Float,
    Bool,
    Any,
}

/// The variant a bare, already trimmed and unquoted token names, if any.
pub open spec fn spec_token_of(s: Seq<char>) -> Option<VarType> {
    if s == "str"@ {
        Some(VarType::Str)
    } else if s == "int"@ {
        Some(VarType::Int)
    } else if s == "float"@ {
        Some(VarType::Float)
    } else if s == "bool"@ {
        Some(VarType::Bool)
    } else if s == "any"@ {
        Some(VarType::Any)
    } else {
        None
    }
}

/// What [`VarType::from_str`] returns: the token is trimmed of whitespace
/// and of one layer of matching quotes before it is looked up.
pub open spec fn spec_from_str(s: Seq<char>) -> Option<VarType> {
    spec_token_of(spec_unquote(spec_trim(s)))
}

impl VarType {
    /// Reads a type token, tolerating surrounding whitespace and one layer
    /// of matching quotes.
    pub fn from_str(s: &str) -> (r: Option<VarType>)
        ensures
            r == spec_from_str(s@),
    {
        let t = unquote(trim(s));
        if str_eq(t, "str") {
            Some(VarType::Str)
        } else if str_eq(t, "int") {
            Some(VarType::Int)
        } else if str_eq(t, "float") {
            Some(VarType::Float)
        } else if str_eq(t, "bool") {
            Some(VarType::Bool)
        } else if str_eq(t, "any") {
            Some(VarType::Any)
        } else {
            None
        }
    }

    /// The rule this type checks a raw value against: `Str` wants a
    /// non-empty string, `Int` a base-10 signed 64-bit integer, `Float` a
    /// floating-point literal, `Bool` exactly `true` or `false`, and `Any`
    /// accepts everything.
    pub open spec fn spec_validate(self, v: Seq<char>) -> bool {
        match self {
            VarType::Str => v.len() > 0,
            VarType::Int => is_int_str(v),
            VarType::Float => is_float_str(v),
            VarType::Bool => v == "true"@ || v == "false"@,
            VarType::Any => true,
        }
    }

    /// Whether a raw value is acceptable for this type.
    pub fn validate(&self, value: &str) -> (r: bool)
        ensures
            r == self.spec_validate(value@),
    {
        match self {
            VarType::Str => value.unicode_len() > 0,
            VarType::Int => check_int(value),
            VarType::Float => check_float(value),
            VarType::Bool => str_eq(value, "true") || str_eq(value, "false"),
            VarType::Any => true,
        }
    }

    /// The canonical display name of this type.
    pub open spec fn spec_name(self) -> Seq<char> {
        match self {
            VarType::Str => "str"@,
            VarType::Int => "int"@,
            VarType::Float => "float"@,
            VarType::Bool => "bool"@,
            VarType::Any => "any"@,
        }
    }

    /// The canonical display name, as it appears in config text.
    pub fn as_str(&self) -> (r: &'static str)
        ensures
            r@ == self.spec_name(),
    {
        match self {
            VarType::Str => "str",
            VarType::Int => "int",
            VarType::Float => "float",
            VarType::Bool => "bool",
            VarType::Any => "any",
        }
    }
}

/// A token wrapped in one layer of the given quote, if any.
pub open spec fn wrap_quote(quote: Option<char>, tok: Seq<char>) -> Seq<char> {
    match quote {
        Some(q) => seq![q] + tok + seq![q],
        None => tok,
    }
}

/// Law: a token that neither starts nor ends with whitespace, optionally
/// wrapped in one layer of matching quotes and surrounded by any whitespace,
/// parses exactly as the bare token does — so each of the five recognized
/// tokens yields its variant, and every other such token yields no match.
pub proof fn lemma_from_str_wrapped(
    pre: Seq<char>,
    tok: Seq<char>,
    post: Seq<char>,
    quote: Option<char>,
)
    requires
        forall|i: int| 0 <= i < pre.len() ==> is_space(pre[i]),
        forall|i: int| 0 <= i < post.len() ==> is_space(post[i]),
        tok.len() > 0,
        !is_space(tok[0]),
        !is_space(tok.last()),
        match quote {
            Some(q) => q == '"' || q == '\'',
            None => !(tok.len() >= 2 && tok[0] == tok.last() && (tok[0] == '"' || tok[0]
                == '\'')),
        },
    ensures
        spec_from_str(pre + wrap_quote(quote, tok) + post) == spec_token_of(tok),
{
    let core = wrap_quote(quote, tok);
    match quote {
        Some(q) => {
            assert(core[0] == q);
            assert(core.last() == q);
            assert(!is_space(q));
            lemma_trim_wrapped(pre, core, post);
            assert(core.len() >= 2 && core[0] == core.last() && (core[0] == '"' || core[0]
                == '\''));
            assert(spec_unquote(core) =~= tok);
        },
        None => {
            lemma_trim_wrapped(pre, tok, post);
            assert(spec_unquote(tok) == tok);
        },
    }
}

} // verus!
