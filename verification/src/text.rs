//! Character classes and scanning primitives shared by the CSS and HTML
//! tokenizers.
//!
//! Every scan is specified as a recursive spec function over a `Seq<char>`
//! and a start index; the executable loops in the tokenizers are proved to
//! land exactly on these indices.

use vstd::prelude::*;
use vstd::string::StrSliceExecFns;

verus! {

// ---------------------------------------------------------------------------
// Character classes (ASCII).
// ---------------------------------------------------------------------------

/// Whitespace as both tokenizers understand it.
pub open spec fn is_ws(c: char) -> bool {
    c == ' ' || c == '\t' || c == '\n' || c == '\r'
}

pub open spec fn is_digit(c: char) -> bool {
    48 <= c as u32 <= 57
}

pub open spec fn is_alpha(c: char) -> bool {
    (97 <= c as u32 <= 122) || (65 <= c as u32 <= 90)
}

pub open spec fn is_alnum(c: char) -> bool {
    is_alpha(c) || is_digit(c)
}

/// Characters that may appear in an identifier, tag name, attribute name,
/// hash token or at-keyword: alphanumerics, `-` and `_`.
pub open spec fn is_name_char(c: char) -> bool {
    is_alnum(c) || c == '-' || c == '_'
}

/// Lower-casing of a single character, ASCII letters only.
pub open spec fn lower_char(c: char) -> char {
    if 65 <= c as u32 <= 90 {
        ((c as u32 + 32) as u8) as char
    } else {
        c
    }
}

/// Lower-casing of a character sequence, ASCII letters only.
pub open spec fn lower(s: Seq<char>) -> Seq<char> {
    s.map_values(|c: char| lower_char(c))
}

pub fn ws_char(c: char) -> (r: bool)
    ensures
        r == is_ws(c),
{
    c == ' ' || c == '\t' || c == '\n' || c == '\r'
}

pub fn digit_char(c: char) -> (r: bool)
    ensures
        r == is_digit(c),
{
    let u = c as u32;
    48 <= u && u <= 57
}

pub fn alpha_char(c: char) -> (r: bool)
    ensures
        r == is_alpha(c),
{
    let u = c as u32;
    (97 <= u && u <= 122) || (65 <= u && u <= 90)
}

pub fn alnum_char(c: char) -> (r: bool)
    ensures
        r == is_alnum(c),
{
    alpha_char(c) || digit_char(c)
}

pub fn name_char(c: char) -> (r: bool)
    ensures
        r == is_name_char(c),
{
    alnum_char(c) || c == '-' || c == '_'
}

// ---------------------------------------------------------------------------
// Scans: each returns the index where a particular run, started at `i`, ends.
// ---------------------------------------------------------------------------

/// End of a whitespace run starting at `i`.
pub open spec fn ws_end(s: Seq<char>, i: nat) -> nat
    decreases s.len() - i,
{
    if i < s.len() && is_ws(s[i as int]) {
        ws_end(s, i + 1)
    } else {
        i
    }
}

/// End of a run of name characters starting at `i`.
pub open spec fn name_end(s: Seq<char>, i: nat) -> nat
    decreases s.len() - i,
{
    if i < s.len() && is_name_char(s[i as int]) {
        name_end(s, i + 1)
    } else {
        i
    }
}

/// End of a run of alphanumeric characters starting at `i`.
pub open spec fn alnum_end(s: Seq<char>, i: nat) -> nat
    decreases s.len() - i,
{
    if i < s.len() && is_alnum(s[i as int]) {
        alnum_end(s, i + 1)
    } else {
        i
    }
}

/// First position at or after `i` holding the character `t`, or the length
/// of `s` if there is none.
pub open spec fn find_at(s: Seq<char>, i: nat, t: char) -> nat
    decreases s.len() - i,
{
    if i < s.len() {
        if s[i as int] == t {
            i
        } else {
            find_at(s, i + 1, t)
        }
    } else {
        i
    }
}

/// End of a numeric run: digits, with at most one `.` accepted when
/// `has_dot` is still false.
pub open spec fn num_end(s: Seq<char>, i: nat, has_dot: bool) -> nat
    decreases s.len() - i,
{
    if i < s.len() && is_digit(s[i as int]) {
        num_end(s, i + 1, has_dot)
    } else if i < s.len() && s[i as int] == '.' && !has_dot {
        num_end(s, i + 1, true)
    } else {
        i
    }
}

pub proof fn lemma_ws_end(s: Seq<char>, i: nat)
    requires
        i <= s.len(),
    ensures
        i <= ws_end(s, i) <= s.len(),
        forall|k: int| i <= k < ws_end(s, i) ==> is_ws(s[k]),
        ws_end(s, i) < s.len() ==> !is_ws(s[ws_end(s, i) as int]),
    decreases s.len() - i,
{
    if i < s.len() && is_ws(s[i as int]) {
        lemma_ws_end(s, i + 1);
    }
}

pub proof fn lemma_name_end(s: Seq<char>, i: nat)
    requires
        i <= s.len(),
    ensures
        i <= name_end(s, i) <= s.len(),
        forall|k: int| i <= k < name_end(s, i) ==> is_name_char(s[k]),
        name_end(s, i) < s.len() ==> !is_name_char(s[name_end(s, i) as int]),
    decreases s.len() - i,
{
    if i < s.len() && is_name_char(s[i as int]) {
        lemma_name_end(s, i + 1);
    }
}

pub proof fn lemma_alnum_end(s: Seq<char>, i: nat)
    requires
        i <= s.len(),
    ensures
        i <= alnum_end(s, i) <= s.len(),
        forall|k: int| i <= k < alnum_end(s, i) ==> is_alnum(s[k]),
        alnum_end(s, i) < s.len() ==> !is_alnum(s[alnum_end(s, i) as int]),
    decreases s.len() - i,
{
    if i < s.len() && is_alnum(s[i as int]) {
        lemma_alnum_end(s, i + 1);
    }
}

pub proof fn lemma_find_at(s: Seq<char>, i: nat, t: char)
    requires
        i <= s.len(),
    ensures
        i <= find_at(s, i, t) <= s.len(),
        forall|k: int| i <= k < find_at(s, i, t) ==> s[k] != t,
        find_at(s, i, t) < s.len() ==> s[find_at(s, i, t) as int] == t,
    decreases s.len() - i,
{
    if i < s.len() && s[i as int] != t {
        lemma_find_at(s, i + 1, t);
    }
}

pub proof fn lemma_num_end(s: Seq<char>, i: nat, has_dot: bool)
    requires
        i <= s.len(),
    ensures
        i <= num_end(s, i, has_dot) <= s.len(),
    decreases s.len() - i,
{
    if i < s.len() && is_digit(s[i as int]) {
        lemma_num_end(s, i + 1, has_dot);
    } else if i < s.len() && s[i as int] == '.' && !has_dot {
        lemma_num_end(s, i + 1, true);
    }
}

// ---------------------------------------------------------------------------
// Shift lemmas: how each scan behaves on a subrange of its input.  They
// support the round-trip laws of the tokenizers.
// ---------------------------------------------------------------------------

pub proof fn lemma_ws_end_shift(s: Seq<char>, a: nat, b: nat, i: nat)
    requires
        a <= i <= b <= s.len(),
    ensures
        ws_end(s.subrange(a as int, b as int), (i - a) as nat) == if ws_end(s, i) <= b {
            (ws_end(s, i) - a) as nat
        } else {
            (b - a) as nat
        },
    decreases b - i,
{
    let sub = s.subrange(a as int, b as int);
    lemma_ws_end(s, i);
    if i < b {
        assert(sub[(i - a) as int] == s[i as int]);
        if is_ws(s[i as int]) {
            lemma_ws_end_shift(s, a, b, i + 1);
        }
    }
}

pub proof fn lemma_name_end_shift(s: Seq<char>, a: nat, b: nat, i: nat)
    requires
        a <= i <= b <= s.len(),
    ensures
        name_end(s.subrange(a as int, b as int), (i - a) as nat) == if name_end(s, i) <= b {
            (name_end(s, i) - a) as nat
        } else {
            (b - a) as nat
        },
    decreases b - i,
{
    let sub = s.subrange(a as int, b as int);
    lemma_name_end(s, i);
    if i < b {
        assert(sub[(i - a) as int] == s[i as int]);
        if is_name_char(s[i as int]) {
            lemma_name_end_shift(s, a, b, i + 1);
        }
    }
}

pub proof fn lemma_alnum_end_shift(s: Seq<char>, a: nat, b: nat, i: nat)
    requires
        a <= i <= b <= s.len(),
    ensures
        alnum_end(s.subrange(a as int, b as int), (i - a) as nat) == if alnum_end(s, i) <= b {
            (alnum_end(s, i) - a) as nat
        } else {
            (b - a) as nat
        },
    decreases b - i,
{
    let sub = s.subrange(a as int, b as int);
    lemma_alnum_end(s, i);
    if i < b {
        assert(sub[(i - a) as int] == s[i as int]);
        if is_alnum(s[i as int]) {
            lemma_alnum_end_shift(s, a, b, i + 1);
        }
    }
}

pub proof fn lemma_find_at_shift(s: Seq<char>, a: nat, b: nat, i: nat, t: char)
    requires
        a <= i <= b <= s.len(),
    ensures
        find_at(s.subrange(a as int, b as int), (i - a) as nat, t) == if find_at(s, i, t) < b {
            (find_at(s, i, t) - a) as nat
        } else {
            (b - a) as nat
        },
    decreases b - i,
{
    let sub = s.subrange(a as int, b as int);
    lemma_find_at(s, i, t);
    if i < b {
        assert(sub[(i - a) as int] == s[i as int]);
        if s[i as int] != t {
            lemma_find_at_shift(s, a, b, i + 1, t);
        }
    }
}

pub proof fn lemma_num_end_shift(s: Seq<char>, a: nat, b: nat, i: nat, has_dot: bool)
    requires
        a <= i <= b <= s.len(),
    ensures
        num_end(s.subrange(a as int, b as int), (i - a) as nat, has_dot) == if num_end(
            s,
            i,
            has_dot,
        ) <= b {
            (num_end(s, i, has_dot) - a) as nat
        } else {
            (b - a) as nat
        },
    decreases b - i,
{
    let sub = s.subrange(a as int, b as int);
    lemma_num_end(s, i, has_dot);
    if i < b {
        assert(sub[(i - a) as int] == s[i as int]);
        if is_digit(s[i as int]) {
            lemma_num_end_shift(s, a, b, i + 1, has_dot);
        } else if s[i as int] == '.' && !has_dot {
            lemma_num_end_shift(s, a, b, i + 1, true);
        }
    }
}

// ---------------------------------------------------------------------------
// Trimming.
// ---------------------------------------------------------------------------

/// One past the last non-whitespace character of `s`, or 0 if `s` is all
/// whitespace.
pub open spec fn rtrim_end(s: Seq<char>) -> nat
    decreases s.len(),
{
    if s.len() > 0 && is_ws(s[s.len() - 1]) {
        rtrim_end(s.drop_last())
    } else {
        s.len()
    }
}

/// `s` with leading and trailing whitespace removed; empty if `s` is all
/// whitespace.
pub open spec fn trim(s: Seq<char>) -> Seq<char> {
    if rtrim_end(s) <= ws_end(s, 0) {
        Seq::empty()
    } else {
        s.subrange(ws_end(s, 0) as int, rtrim_end(s) as int)
    }
}

pub open spec fn all_ws(s: Seq<char>) -> bool {
    forall|k: int| 0 <= k < s.len() ==> is_ws(s[k])
}

pub proof fn lemma_rtrim_all_ws(s: Seq<char>)
    requires
        all_ws(s),
    ensures
        rtrim_end(s) == 0,
    decreases s.len(),
{
    if s.len() > 0 {
        lemma_rtrim_all_ws(s.drop_last());
    }
}

// ---------------------------------------------------------------------------
// Executable helpers on string slices.
// ---------------------------------------------------------------------------

pub fn to_lower_char(c: char) -> (r: char)
    ensures
        r == lower_char(c),
{
    let u = c as u32;
    if 65 <= u && u <= 90 {
        ((u + 32) as u8) as char
    } else {
        c
    }
}

/// Character-wise string equality.
pub fn str_eq(a: &str, b: &str) -> (r: bool)
    ensures
        r == (a@ == b@),
{
    let n = a.unicode_len();
    if n != b.unicode_len() {
        return false;
    }
    let mut i: usize = 0;
    while i < n
        invariant
            n == a@.len(),
            n == b@.len(),
            0 <= i <= n,
            forall|k: int| 0 <= k < i ==> a@[k] == b@[k],
        decreases n - i,
    {
        if a.get_char(i) != b.get_char(i) {
            return false;
        }
        i += 1;
    }
    proof {
        assert(a@ =~= b@);
    }
    true
}

/// Does `a`, lower-cased, equal `b`?
pub fn lower_eq(a: &str, b: &str) -> (r: bool)
    ensures
        r == (lower(a@) == b@),
{
    let n = a.unicode_len();
    if n != b.unicode_len() {
        proof {
            assert(lower(a@).len() == a@.len());
        }
        return false;
    }
    let mut i: usize = 0;
    while i < n
        invariant
            n == a@.len(),
            n == b@.len(),
            0 <= i <= n,
            forall|k: int| 0 <= k < i ==> lower_char(a@[k]) == b@[k],
        decreases n - i,
    {
        if to_lower_char(a.get_char(i)) != b.get_char(i) {
            proof {
                assert(lower(a@)[i as int] != b@[i as int]);
            }
            return false;
        }
        i += 1;
    }
    proof {
        assert(lower(a@) =~= b@);
    }
    true
}

/// `s` with leading and trailing whitespace removed.
pub fn trim_str<'a>(s: &'a str) -> (r: &'a str)
    ensures
        r@ == trim(s@),
{
    let n = s.unicode_len();
    let mut a: usize = 0;
    while a < n && ws_char(s.get_char(a))
        invariant
            n == s@.len(),
            0 <= a <= n,
            forall|k: int| 0 <= k < a ==> is_ws(s@[k]),
            ws_end(s@, 0) == ws_end(s@, a as nat),
        decreases n - a,
    {
        a += 1;
    }
    proof {
        assert(ws_end(s@, 0) == a);
    }
    let mut b: usize = n;
    proof {
        assert(s@.subrange(0, n as int) =~= s@);
    }
    while b > a && ws_char(s.get_char(b - 1))
        invariant
            n == s@.len(),
            a <= b <= n,
            forall|k: int| 0 <= k < a ==> is_ws(s@[k]),
            rtrim_end(s@) == rtrim_end(s@.subrange(0, b as int)),
        decreases b,
    {
        proof {
            assert(s@.subrange(0, b as int).drop_last() =~= s@.subrange(0, b - 1));
        }
        b -= 1;
    }
    proof {
        if b == a {
            assert(all_ws(s@.subrange(0, b as int)));
            lemma_rtrim_all_ws(s@.subrange(0, b as int));
        } else {
            assert(s@.subrange(0, b as int).len() == b);
            assert(!is_ws(s@.subrange(0, b as int)[b - 1]));
            assert(rtrim_end(s@) == b);
        }
        assert(s@.subrange(a as int, b as int) =~= trim(s@)) by {
            if b == a {
                assert(rtrim_end(s@) == 0);
            }
        }
    }
    s.substring_char(a, b)
}

/// Position of the first non-whitespace character at or after `from`.
pub fn scan_ws(s: &str, from: usize) -> (r: usize)
    requires
        from <= s@.len(),
    ensures
        from <= r <= s@.len(),
        r == ws_end(s@, from as nat),
{
    let n = s.unicode_len();
    let mut i = from;
    while i < n && ws_char(s.get_char(i))
        invariant
            from <= i <= n,
            ws_end(s@, from as nat) == ws_end(s@, i as nat),
        decreases n - i,
    {
        i = i + 1;
    }
    i
}

/// Position of the first non-name character at or after `from`.
pub fn scan_name(s: &str, from: usize) -> (r: usize)
    requires
        from <= s@.len(),
    ensures
        from <= r <= s@.len(),
        r == name_end(s@, from as nat),
{
    let n = s.unicode_len();
    let mut i = from;
    while i < n && name_char(s.get_char(i))
        invariant
            from <= i <= n,
            name_end(s@, from as nat) == name_end(s@, i as nat),
        decreases n - i,
    {
        i = i + 1;
    }
    i
}

/// Position of the first occurrence of `t` at or after `from`, or the
/// length of `s`.
pub fn scan_to_char(s: &str, from: usize, t: char) -> (r: usize)
    requires
        from <= s@.len(),
    ensures
        from <= r <= s@.len(),
        r == find_at(s@, from as nat, t),
{
    let n = s.unicode_len();
    let mut i = from;
    while i < n && s.get_char(i) != t
        invariant
            from <= i <= n,
            find_at(s@, from as nat, t) == find_at(s@, i as nat, t),
        decreases n - i,
    {
        i = i + 1;
    }
    i
}

/// Is `s` entirely whitespace (in particular, empty)?
pub fn all_ws_str(s: &str) -> (r: bool)
    ensures
        r == all_ws(s@),
{
    let n = s.unicode_len();
    let mut i: usize = 0;
    while i < n
        invariant
            n == s@.len(),
            0 <= i <= n,
            forall|k: int| 0 <= k < i ==> is_ws(s@[k]),
        decreases n - i,
    {
        if !ws_char(s.get_char(i)) {
            return false;
        }
        i += 1;
    }
    true
}

} // verus!
