//! Character and string-slice helpers shared by the parser, the tokenizer and
//! the validation engine: whitespace classification, trimming, unwrapping one
//! layer of quotes, and string equality stated over character sequences.

use vstd::prelude::*;
use vstd::string::StrSliceExecFns;

verus! {

/// The Unicode `White_Space` code points, the set that whitespace trimming
/// and token separation go by.
pub open spec fn is_space(c: char) -> bool {
    let u = c as u32;
    (0x09 <= u && u <= 0x0D) || u == 0x20 || u == 0x85 || u == 0xA0 || u == 0x1680
        || (0x2000 <= u && u <= 0x200A) || u == 0x2028 || u == 0x2029 || u == 0x202F
        || u == 0x205F || u == 0x3000
}

/// Runtime test for [`is_space`].
pub fn is_space_char(c: char) -> (r: bool)
    ensures
        r == is_space(c),
{
    let u = c as u32;
    (0x09 <= u && u <= 0x0D) || u == 0x20 || u == 0x85 || u == 0xA0 || u == 0x1680
        || (0x2000 <= u && u <= 0x200A) || u == 0x2028 || u == 0x2029 || u == 0x202F
        || u == 0x205F || u == 0x3000
}

/// Length of the run of whitespace at the front of `s`.
pub open spec fn leading_spaces(s: Seq<char>) -> int
    decreases s.len(),
{
    if s.len() == 0 || !is_space(s[0]) {
        0
    } else {
        1 + leading_spaces(s.skip(1))
    }
}

/// Length of the run of whitespace at the back of `s`.
pub open spec fn trailing_spaces(s: Seq<char>) -> int
    decreases s.len(),
{
    if s.len() == 0 || !is_space(s.last()) {
        0
    } else {
        1 + trailing_spaces(s.drop_last())
    }
}

/// `s` without leading and trailing whitespace.
pub open spec fn spec_trim(s: Seq<char>) -> Seq<char> {
    let a = leading_spaces(s);
    let b = s.len() - trailing_spaces(s);
    if a <= b {
        s.subrange(a, b)
    } else {
        Seq::empty()
    }
}

proof fn lemma_leading_spaces_bound(s: Seq<char>)
    ensures
        0 <= leading_spaces(s) <= s.len(),
        forall|i: int| 0 <= i < leading_spaces(s) ==> is_space(s[i]),
        leading_spaces(s) < s.len() ==> !is_space(s[leading_spaces(s)]),
    decreases s.len(),
{
    if s.len() > 0 && is_space(s[0]) {
        lemma_leading_spaces_bound(s.skip(1));
        assert forall|i: int| 0 <= i < leading_spaces(s) implies is_space(s[i]) by {
            if i > 0 {
                assert(s.skip(1)[i - 1] == s[i]);
            }
        }
        if leading_spaces(s) < s.len() {
            assert(s.skip(1)[leading_spaces(s) - 1] == s[leading_spaces(s)]);
        }
    }
}

proof fn lemma_trailing_spaces_bound(s: Seq<char>)
    ensures
        0 <= trailing_spaces(s) <= s.len(),
        forall|i: int| s.len() - trailing_spaces(s) <= i < s.len() ==> is_space(s[i]),
        trailing_spaces(s) < s.len() ==> !is_space(s[s.len() - trailing_spaces(s) - 1]),
    decreases s.len(),
{
    if s.len() > 0 && is_space(s.last()) {
        lemma_trailing_spaces_bound(s.drop_last());
        assert forall|i: int| s.len() - trailing_spaces(s) <= i < s.len() implies is_space(
            s[i],
        ) by {
            if i < s.len() - 1 {
                assert(s.drop_last()[i] == s[i]);
            }
        }
        if trailing_spaces(s) < s.len() {
            assert(s.drop_last()[s.len() - trailing_spaces(s) - 1] == s[s.len() - trailing_spaces(
                s,
            ) - 1]);
        }
    }
}

/// Characterizes `leading_spaces` by the position of the first
/// non-whitespace character.
proof fn lemma_leading_spaces_is(s: Seq<char>, a: int)
    requires
        0 <= a <= s.len(),
        forall|i: int| 0 <= i < a ==> is_space(s[i]),
        a < s.len() ==> !is_space(s[a]),
    ensures
        leading_spaces(s) == a,
    decreases s.len(),
{
    if s.len() == 0 {
    } else if a == 0 {
    } else {
        assert(is_space(s[0]));
        assert forall|i: int| 0 <= i < a - 1 implies is_space(s.skip(1)[i]) by {
            assert(s.skip(1)[i] == s[i + 1]);
        }
        if a - 1 < s.skip(1).len() {
            assert(s.skip(1)[a - 1] == s[a]);
        }
        lemma_leading_spaces_is(s.skip(1), a - 1);
    }
}

/// Characterizes `trailing_spaces` by the position of the last
/// non-whitespace character.
proof fn lemma_trailing_spaces_is(s: Seq<char>, b: int)
    requires
        0 <= b <= s.len(),
        forall|i: int| b <= i < s.len() ==> is_space(s[i]),
        b > 0 ==> !is_space(s[b - 1]),
    ensures
        trailing_spaces(s) == s.len() - b,
    decreases s.len(),
{
    if s.len() == 0 {
    } else if b == s.len() {
    } else {
        assert(is_space(s.last()));
        assert forall|i: int| b <= i < s.drop_last().len() implies is_space(s.drop_last()[i]) by {
            assert(s.drop_last()[i] == s[i]);
        }
        if b > 0 {
            assert(s.drop_last()[b - 1] == s[b - 1]);
        }
        lemma_trailing_spaces_is(s.drop_last(), b);
    }
}

/// `s` with leading and trailing whitespace removed, as a slice of `s`.
pub fn trim(s: &str) -> (r: &str)
    ensures
        r@ == spec_trim(s@),
{
    let n = s.unicode_len();
    let mut a: usize = 0;
    while a < n && is_space_char(s.get_char(a))
        invariant
            0 <= a <= n,
            n == s@.len(),
            forall|i: int| 0 <= i < a ==> is_space(s@[i]),
        decreases n - a,
    {
        a = a + 1;
    }
    proof {
        lemma_leading_spaces_is(s@, a as int);
    }
    let mut b: usize = n;
    while b > a && is_space_char(s.get_char(b - 1))
        invariant
            a <= b <= n,
            n == s@.len(),
            forall|i: int| b <= i < n ==> is_space(s@[i]),
        decreases b,
    {
        b = b - 1;
    }
    if a == b {
        proof {
            lemma_leading_spaces_bound(s@);
            lemma_trailing_spaces_bound(s@);
            if b > 0 && !is_space(s@[b - 1 as int]) {
                lemma_trailing_spaces_is(s@, b as int);
            }
            assert(spec_trim(s@) =~= s@.subrange(a as int, a as int));
        }
        let r = s.substring_char(a, a);
        proof {
            assert(r@ =~= spec_trim(s@));
        }
        r
    } else {
        proof {
            assert(!is_space(s@[b - 1 as int]));
            lemma_trailing_spaces_is(s@, b as int);
        }
        s.substring_char(a, b)
    }
}

/// Law: trimming a string that is a run of whitespace, then a part that
/// neither starts nor ends with whitespace, then another run of whitespace,
/// yields exactly the middle part.
pub proof fn lemma_trim_wrapped(pre: Seq<char>, core: Seq<char>, post: Seq<char>)
    requires
        forall|i: int| 0 <= i < pre.len() ==> is_space(pre[i]),
        forall|i: int| 0 <= i < post.len() ==> is_space(post[i]),
        core.len() > 0,
        !is_space(core[0]),
        !is_space(core.last()),
    ensures
        spec_trim(pre + core + post) == core,
{
    let s = pre + core + post;
    let a = pre.len() as int;
    let b = pre.len() + core.len();
    assert forall|i: int| 0 <= i < a implies is_space(s[i]) by {
        assert(s[i] == pre[i]);
    }
    assert(s[a] == core[0]);
    lemma_leading_spaces_is(s, a);
    assert forall|i: int| b <= i < s.len() implies is_space(s[i]) by {
        assert(s[i] == post[i - b]);
    }
    assert(s[b - 1] == core.last());
    lemma_trailing_spaces_is(s, b as int);
    assert(spec_trim(s) =~= core);
}

/// String equality, stated over the views.
pub fn str_eq(a: &str, b: &str) -> (r: bool)
    ensures
        r == (a@ == b@),
{
    let na = a.unicode_len();
    let nb = b.unicode_len();
    if na != nb {
        return false;
    }
    let mut i: usize = 0;
    while i < na
        invariant
            0 <= i <= na,
            na == a@.len(),
            na == b@.len(),
            forall|j: int| 0 <= j < i ==> a@[j] == b@[j],
        decreases na - i,
    {
        if a.get_char(i) != b.get_char(i) {
            return false;
        }
        i = i + 1;
    }
    proof {
        assert(a@ =~= b@);
    }
    true
}

/// Index of the first occurrence of `c` at or after `from`, or `s.len()`.
pub open spec fn first_occ(s: Seq<char>, from: int, c: char) -> int
    decreases s.len() - from,
{
    if from < 0 || from >= s.len() {
        s.len() as int
    } else if s[from] == c {
        from
    } else {
        first_occ(s, from + 1, c)
    }
}

/// Bounds and meaning of [`first_occ`].
pub proof fn lemma_first_occ_bounds(s: Seq<char>, from: int, c: char)
    requires
        0 <= from <= s.len(),
    ensures
        from <= first_occ(s, from, c) <= s.len(),
        forall|m: int| from <= m < first_occ(s, from, c) ==> s[m] != c,
        first_occ(s, from, c) < s.len() ==> s[first_occ(s, from, c)] == c,
    decreases s.len() - from,
{
    if from < s.len() && s[from] != c {
        lemma_first_occ_bounds(s, from + 1, c);
    }
}

/// Characterizes [`first_occ`] by the position of the first occurrence.
pub proof fn lemma_first_occ_is(s: Seq<char>, from: int, k: int, c: char)
    requires
        0 <= from <= k <= s.len(),
        forall|m: int| from <= m < k ==> s[m] != c,
        k < s.len() ==> s[k] == c,
    ensures
        first_occ(s, from, c) == k,
    decreases k - from,
{
    if from < k {
        lemma_first_occ_is(s, from + 1, k, c);
    }
}

/// Index of the first occurrence of `c` in `s`, or the length of `s`.
pub fn find_char(s: &str, c: char) -> (k: usize)
    ensures
        k == first_occ(s@, 0, c),
{
    let n = s.unicode_len();
    let mut k: usize = 0;
    let mut found = false;
    while !found && k < n
        invariant
            0 <= k <= n,
            n == s@.len(),
            forall|m: int| 0 <= m < k ==> s@[m] != c,
            found ==> k < n && s@[k as int] == c,
        decreases n - k + (if found { 0int } else { 1int }),
    {
        if s.get_char(k) == c {
            found = true;
        } else {
            k = k + 1;
        }
    }
    proof {
        lemma_first_occ_is(s@, 0, k as int, c);
    }
    k
}

/// One layer of matching quotes (`"…"` or `'…'`) removed, if present.
pub open spec fn spec_unquote(s: Seq<char>) -> Seq<char> {
    if s.len() >= 2 && s[0] == s.last() && (s[0] == '"' || s[0] == '\'') {
        s.subrange(1, s.len() - 1)
    } else {
        s
    }
}

/// Runtime form of [`spec_unquote`].
pub fn unquote(s: &str) -> (r: &str)
    ensures
        r@ == spec_unquote(s@),
{
    let n = s.unicode_len();
    if n >= 2 {
        let first = s.get_char(0);
        let last = s.get_char(n - 1);
        if first == last && (first == '"' || first == '\'') {
            return s.substring_char(1, n - 1);
        }
    }
    s
}

} // verus!
