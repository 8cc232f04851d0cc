//! Character-level scanning over a response body.
//!
//! These scanners find the extent of one token each: a whitespace run, a
//! quoted string (escape sequences are skipped, not decoded), a number
//! token, or a whole bracketed container. Each has a specification twin
//! that the executable loop is proved against.

use vstd::prelude::*;
use crate::decimal::is_digit;

verus! {

pub open spec fn is_ws(c: char) -> bool {
    c == ' ' || c == '\t' || c == '\n' || c == '\r'
}

/// Characters that may occur in a number token.
pub open spec fn is_numchar(c: char) -> bool {
    is_digit(c) || c == '-' || c == '+' || c == '.' || c == 'e' || c == 'E'
}

/// First position in `[i, b)` holding no whitespace.
pub open spec fn ws_end(s: Seq<char>, i: int, b: int) -> int
    decreases b - i,
        when i <= b
{
    if i < b && i < s.len() && is_ws(s[i]) {
        ws_end(s, i + 1, b)
    } else {
        i
    }
}

pub proof fn lemma_ws_end_bounds(s: Seq<char>, i: int, b: int)
    requires
        0 <= i <= b <= s.len(),
    ensures
        i <= ws_end(s, i, b) <= b,
        ws_end(s, i, b) < b ==> !is_ws(s[ws_end(s, i, b)]),
    decreases b - i,
{
    if i < b && is_ws(s[i]) {
        lemma_ws_end_bounds(s, i + 1, b);
    }
}

/// First position in `[i, b)` outside the number alphabet.
pub open spec fn num_end(s: Seq<char>, i: int, b: int) -> int
    decreases b - i,
        when i <= b
{
    if i < b && i < s.len() && is_numchar(s[i]) {
        num_end(s, i + 1, b)
    } else {
        i
    }
}

pub proof fn lemma_num_end_bounds(s: Seq<char>, i: int, b: int)
    requires
        0 <= i <= b <= s.len(),
    ensures
        i <= num_end(s, i, b) <= b,
    decreases b - i,
{
    if i < b && is_numchar(s[i]) {
        lemma_num_end_bounds(s, i + 1, b);
    }
}

/// Position just past the closing quote of a string whose content starts at
/// `i` (the opening quote stands at `i - 1`). A backslash skips the next
/// character; `None` when the string never closes within `[i, b)`.
pub open spec fn string_end(s: Seq<char>, i: int, b: int) -> Option<int>
    decreases b - i,
        when i <= b
{
    if i >= b || i >= s.len() {
        None
    } else if s[i] == '"' {
        Some(i + 1)
    } else if s[i] == '\\' {
        if i + 1 < b {
            string_end(s, i + 2, b)
        } else {
            None
        }
    } else {
        string_end(s, i + 1, b)
    }
}

pub proof fn lemma_string_end_bounds(s: Seq<char>, i: int, b: int)
    requires
        0 <= i <= b <= s.len(),
    ensures
        string_end(s, i, b) matches Some(e) ==> i < e <= b,
    decreases b - i,
{
    if i < b && s[i] != '"' {
        if s[i] == '\\' {
            if i + 1 < b {
                lemma_string_end_bounds(s, i + 2, b);
            }
        } else {
            lemma_string_end_bounds(s, i + 1, b);
        }
    }
}

/// Position just past the bracket that closes a container whose opening
/// bracket stands before `i` at nesting `depth`. Brackets inside strings do
/// not count; the two bracket kinds are not told apart, which is enough to
/// step over a well-formed value.
pub open spec fn container_end(s: Seq<char>, i: int, b: int, depth: nat, in_str: bool) -> Option<
    int,
>
    decreases b - i,
        when i <= b
{
    if i >= b || i >= s.len() {
        None
    } else if in_str {
        if s[i] == '\\' {
            if i + 1 < b {
                container_end(s, i + 2, b, depth, true)
            } else {
                None
            }
        } else if s[i] == '"' {
            container_end(s, i + 1, b, depth, false)
        } else {
            container_end(s, i + 1, b, depth, true)
        }
    } else if s[i] == '{' || s[i] == '[' {
        container_end(s, i + 1, b, depth + 1, false)
    } else if s[i] == '}' || s[i] == ']' {
        if depth <= 1 {
            Some(i + 1)
        } else {
            container_end(s, i + 1, b, (depth - 1) as nat, false)
        }
    } else if s[i] == '"' {
        container_end(s, i + 1, b, depth, true)
    } else {
        container_end(s, i + 1, b, depth, false)
    }
}

pub proof fn lemma_container_end_bounds(s: Seq<char>, i: int, b: int, depth: nat, in_str: bool)
    requires
        0 <= i <= b <= s.len(),
    ensures
        container_end(s, i, b, depth, in_str) matches Some(e) ==> i < e <= b,
    decreases b - i,
{
    if i < b {
        if in_str {
            if s[i] == '\\' {
                if i + 1 < b {
                    lemma_container_end_bounds(s, i + 2, b, depth, true);
                }
            } else if s[i] == '"' {
                lemma_container_end_bounds(s, i + 1, b, depth, false);
            } else {
                lemma_container_end_bounds(s, i + 1, b, depth, true);
            }
        } else if s[i] == '{' || s[i] == '[' {
            lemma_container_end_bounds(s, i + 1, b, depth + 1, false);
        } else if s[i] == '}' || s[i] == ']' {
            if depth > 1 {
                lemma_container_end_bounds(s, i + 1, b, (depth - 1) as nat, false);
            }
        } else if s[i] == '"' {
            lemma_container_end_bounds(s, i + 1, b, depth, true);
        } else {
            lemma_container_end_bounds(s, i + 1, b, depth, false);
        }
    }
}

fn is_ws_at(s: &Vec<char>, j: usize) -> (r: bool)
    requires
        j < s.len(),
    ensures
        r == is_ws(s@[j as int]),
{
    let c = s[j];
    c == ' ' || c == '\t' || c == '\n' || c == '\r'
}

fn is_numchar_at(s: &Vec<char>, j: usize) -> (r: bool)
    requires
        j < s.len(),
    ensures
        r == is_numchar(s@[j as int]),
{
    let c = s[j];
    ('0' <= c && c <= '9') || c == '-' || c == '+' || c == '.' || c == 'e' || c == 'E'
}

pub fn ws_end_at(s: &Vec<char>, i: usize, b: usize) -> (r: usize)
    requires
        i <= b <= s.len(),
    ensures
        r as int == ws_end(s@, i as int, b as int),
        i <= r <= b,
{
    let mut j: usize = i;
    while j < b && is_ws_at(s, j)
        invariant
            i <= j <= b <= s.len(),
            ws_end(s@, i as int, b as int) == ws_end(s@, j as int, b as int),
        decreases b - j,
    {
        j += 1;
    }
    j
}

pub fn num_end_at(s: &Vec<char>, i: usize, b: usize) -> (r: usize)
    requires
        i <= b <= s.len(),
    ensures
        r as int == num_end(s@, i as int, b as int),
        i <= r <= b,
{
    let mut j: usize = i;
    while j < b && is_numchar_at(s, j)
        invariant
            i <= j <= b <= s.len(),
            num_end(s@, i as int, b as int) == num_end(s@, j as int, b as int),
        decreases b - j,
    {
        j += 1;
    }
    j
}

pub fn string_end_at(s: &Vec<char>, i: usize, b: usize) -> (r: Option<usize>)
    requires
        i <= b <= s.len(),
    ensures
        string_end(s@, i as int, b as int) == (match r {
            Some(e) => Some(e as int),
            None => None::<int>,
        }),
        r matches Some(e) ==> i < e <= b,
{
    proof {
        lemma_string_end_bounds(s@, i as int, b as int);
    }
    let mut j: usize = i;
    loop
        invariant
            i <= j <= b <= s.len(),
            string_end(s@, i as int, b as int) == string_end(s@, j as int, b as int),
        decreases b - j,
    {
        if j >= b {
            return None;
        }
        let c = s[j];
        if c == '"' {
            return Some(j + 1);
        } else if c == '\\' {
            if j + 1 < b {
                j += 2;
            } else {
                return None;
            }
        } else {
            j += 1;
        }
    }
}

pub fn container_end_at(s: &Vec<char>, i: usize, b: usize) -> (r: Option<usize>)
    requires
        i <= b <= s.len(),
    ensures
        container_end(s@, i as int, b as int, 1, false) == (match r {
            Some(e) => Some(e as int),
            None => None::<int>,
        }),
        r matches Some(e) ==> i < e <= b,
{
    proof {
        lemma_container_end_bounds(s@, i as int, b as int, 1, false);
    }
    let mut j: usize = i;
    let mut depth: u128 = 1;
    let mut in_str: bool = false;
    loop
        invariant
            i <= j <= b <= s.len(),
            1 <= depth <= j - i + 1,
            container_end(s@, i as int, b as int, 1, false) == container_end(
                s@,
                j as int,
                b as int,
                depth as nat,
                in_str,
            ),
        decreases b - j,
    {
        if j >= b {
            return None;
        }
        let c = s[j];
        if in_str {
            if c == '\\' {
                if j + 1 < b {
                    j += 2;
                } else {
                    return None;
                }
            } else {
                if c == '"' {
                    in_str = false;
                }
                j += 1;
            }
        } else if c == '{' || c == '[' {
            depth += 1;
            j += 1;
        } else if c == '}' || c == ']' {
            if depth == 1 {
                proof {
                    lemma_container_end_bounds(s@, j as int, b as int, depth as nat, in_str);
                }
                return Some(j + 1);
            }
            depth -= 1;
            j += 1;
        } else {
            if c == '"' {
                in_str = true;
            }
            j += 1;
        }
    }
}

/// The characters of a string slice, in order.
pub fn chars_of(t: &str) -> (r: Vec<char>)
    ensures
        r@ == t@,
{
    let n = t.unicode_len();
    let mut v: Vec<char> = Vec::new();
    let mut i: usize = 0;
    while i < n
        invariant
            i <= n,
            n == t@.len(),
            v@ == t@.subrange(0, i as int),
        decreases n - i,
    {
        let c = t.get_char(i);
        v.push(c);
        assert(v@ =~= t@.subrange(0, i + 1 as int));
        i += 1;
    }
    assert(v@ =~= t@);
    v
}

/// Whether `s[a..e)` spells exactly the characters of `lit`.
pub fn span_eq_str(s: &Vec<char>, a: usize, e: usize, lit: &str) -> (r: bool)
    requires
        a <= e <= s.len(),
    ensures
        r == (s@.subrange(a as int, e as int) == lit@),
{
    let n = lit.unicode_len();
    if e - a != n {
        assert(s@.subrange(a as int, e as int).len() != lit@.len());
        return false;
    }
    let mut j: usize = 0;
    while j < n
        invariant
            j <= n,
            n == lit@.len(),
            a + n == e,
            e <= s.len(),
            forall|k: int| 0 <= k < j ==> s@.subrange(a as int, e as int)[k] == lit@[k],
        decreases n - j,
    {
        let c = s[a + j];
        let d = lit.get_char(j);
        if c != d {
            assert(s@.subrange(a as int, e as int)[j as int] != lit@[j as int]);
            return false;
        }
        assert(s@.subrange(a as int, e as int)[j as int] == lit@[j as int]);
        j += 1;
    }
    assert(s@.subrange(a as int, e as int) =~= lit@);
    true
}

} // verus!
