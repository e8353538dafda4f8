//! Whitespace at the ends of a text.
//!
//! Whitespace here is what Unicode gives the property `White_Space`: the
//! ASCII space and the control characters from tab to carriage return, and
//! the spaces and line separators beyond ASCII.

use vstd::prelude::*;
use vstd::string::StrSliceExecFns;

verus! {

/// A character with Unicode's property `White_Space`.
pub open spec fn is_white_space(c: char) -> bool {
    let n = c as u32;
    ||| 0x09 <= n <= 0x0d
    ||| n == 0x20
    ||| n == 0x85
    ||| n == 0xa0
    ||| n == 0x1680
    ||| 0x2000 <= n <= 0x200a
    ||| n == 0x2028
    ||| n == 0x2029
    ||| n == 0x202f
    ||| n == 0x205f
    ||| n == 0x3000
}

/// The position of the first character at or after `i` that is no
/// whitespace; the length of `s` where there is none.
pub open spec fn leading_end(s: Seq<char>, i: int) -> int
    decreases s.len() - i,
{
    if 0 <= i < s.len() && is_white_space(s[i]) {
        leading_end(s, i + 1)
    } else {
        i
    }
}

/// The position just past the last character before `j` that is no
/// whitespace; `0` where there is none.
pub open spec fn trailing_start(s: Seq<char>, j: int) -> int
    decreases j,
{
    if 0 < j <= s.len() && is_white_space(s[j - 1]) {
        trailing_start(s, j - 1)
    } else {
        j
    }
}

/// `s` without the whitespace at its two ends. What stands between the first
/// and the last character that is no whitespace is kept as it is.
pub open spec fn trimmed(s: Seq<char>) -> Seq<char> {
    let i = leading_end(s, 0);
    if i >= s.len() {
        Seq::empty()
    } else {
        s.subrange(i, trailing_start(s, s.len() as int))
    }
}

/// The whitespace before `j` starts at or before `j`.
pub proof fn lemma_trailing_start_le(s: Seq<char>, j: int)
    requires
        0 <= j <= s.len(),
    ensures
        0 <= trailing_start(s, j) <= j,
    decreases j,
{
    if 0 < j && is_white_space(s[j - 1]) {
        lemma_trailing_start_le(s, j - 1);
    }
}

/// The whitespace at the end of `s` starts behind every character that is no
/// whitespace.
pub proof fn lemma_trailing_start_bound(s: Seq<char>, i: int, j: int)
    requires
        0 <= i < j <= s.len(),
        !is_white_space(s[i]),
    ensures
        i < trailing_start(s, j) <= j,
    decreases j,
{
    if is_white_space(s[j - 1]) {
        lemma_trailing_start_bound(s, i, j - 1);
    }
}

/// The whitespace from `i` on lies inside the text and is whitespace.
pub proof fn lemma_leading_run(s: Seq<char>, i: int)
    requires
        0 <= i <= s.len(),
    ensures
        i <= leading_end(s, i) <= s.len(),
        forall|k: int| i <= k < leading_end(s, i) ==> is_white_space(#[trigger] s[k]),
        leading_end(s, i) < s.len() ==> !is_white_space(s[leading_end(s, i)]),
    decreases s.len() - i,
{
    if i < s.len() && is_white_space(s[i]) {
        lemma_leading_run(s, i + 1);
    }
}

/// The whitespace before `j` is whitespace, and what stands before it is
/// not.
pub proof fn lemma_trailing_run(s: Seq<char>, j: int)
    requires
        0 <= j <= s.len(),
    ensures
        forall|k: int| trailing_start(s, j) <= k < j ==> is_white_space(#[trigger] s[k]),
        trailing_start(s, j) > 0 ==> !is_white_space(s[trailing_start(s, j) - 1]),
    decreases j,
{
    if 0 < j && is_white_space(s[j - 1]) {
        lemma_trailing_run(s, j - 1);
    }
}

/// Whether `c` has Unicode's property `White_Space`.
pub fn white_space(c: char) -> (r: bool)
    ensures
        r == is_white_space(c),
{
    let n: u32 = c as u32;
    (0x09 <= n && n <= 0x0d) || n == 0x20 || n == 0x85 || n == 0xa0 || n == 0x1680 || (0x2000 <= n
        && n <= 0x200a) || n == 0x2028 || n == 0x2029 || n == 0x202f || n == 0x205f || n == 0x3000
}

/// `s` without the whitespace at its two ends.
pub fn trim(s: &str) -> (r: &str)
    ensures
        r@ == trimmed(s@),
{
    let n: usize = s.unicode_len();
    let mut i: usize = 0;
    while i < n && white_space(s.get_char(i))
        invariant
            n == s@.len(),
            i <= n,
            leading_end(s@, i as int) == leading_end(s@, 0),
        decreases n - i,
    {
        i += 1;
    }
    if i == n {
        let r = s.substring_char(n, n);
        assert(r@ =~= Seq::<char>::empty());
        return r;
    }
    let mut j: usize = n;
    proof {
        lemma_trailing_start_bound(s@, i as int, n as int);
    }
    while j > i && white_space(s.get_char(j - 1))
        invariant
            n == s@.len(),
            i < n,
            i <= j <= n,
            !is_white_space(s@[i as int]),
            trailing_start(s@, j as int) == trailing_start(s@, n as int),
            i < trailing_start(s@, n as int),
        decreases j,
    {
        j -= 1;
    }
    proof {
        lemma_trailing_start_le(s@, j as int);
    }
    s.substring_char(i, j)
}

} // verus!
